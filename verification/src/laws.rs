//! System-wide properties, proved once and for all from the store's
//! well-formedness and the escrow-coupling invariant.
//!
//! Together with the operation contracts these pin the financial behaviour
//! down: a bet settles at most once and a tournament closes at most once
//! (stated directly in the `ensures` of `settle_bet` and `close_tournament`),
//! each round has at most one winner and only once it completed, a
//! tournament's currency is fixed by its collateralization, and every stake is
//! conserved: paid back to a winner, still escrowed, or swept at closure.

use vstd::prelude::*;

use crate::addr::Addr;
use crate::amounts::lemma_placed_splits;
use crate::amounts::paid_in;
use crate::amounts::placed_in;
use crate::engine::BettingSystem;
use crate::ledger::Ledger;

verus! {

/// At most one team per round is the winner: two distinct teams of the same
/// round are never both marked winners.
pub proof fn law_unique_winner_per_round(s: BettingSystem, i: int, j: int)
    requires
        s.wf(),
        0 <= i < s.spec_teams().len(),
        0 <= j < s.spec_teams().len(),
        i != j,
        s.spec_teams()[i].round == s.spec_teams()[j].round,
        s.spec_teams()[i].is_winner,
    ensures
        !s.spec_teams()[j].is_winner,
{
}

/// A team is the winner only after its round's completion became true — and
/// completion is terminal, so the designation never precedes the outcome.
pub proof fn law_winner_only_after_completion(s: BettingSystem, i: int)
    requires
        s.wf(),
        0 <= i < s.spec_teams().len(),
        s.spec_teams()[i].is_winner,
    ensures
        s.spec_rounds()[s.spec_teams()[i].round as int].is_completed,
{
    assert(s.team_wf(s.spec_teams()[i]));
}

/// Currency consistency: the token a tournament's bets move — the same at
/// placement and at settlement, both speak of `spec_betting_mint` — is the
/// accounting token exactly when the tournament is collateralized, else the
/// wagering token, and never the collateral token; currencies are never mixed
/// within one tournament.
pub proof fn law_currency_consistency(s: BettingSystem, t: int)
    requires
        s.wf(),
        s.spec_state() is Some,
        0 <= t < s.spec_tournaments().len(),
    ensures
        ({
            let st = s.spec_state()->0;
            let tour = s.spec_tournaments()[t];
            &&& (tour.is_staked ==> tour.spec_betting_mint(st) == st.vote_mint)
            &&& (!tour.is_staked ==> tour.spec_betting_mint(st) == st.wanzi_mint)
            &&& tour.spec_betting_mint(st) != st.matchp_mint
        }),
{
}

/// Conservation for an active tournament: its betting-token escrow holds
/// exactly the stakes placed minus the stakes paid back to winners, so the
/// closure sweep recovers exactly the never-paid-out remainder.
pub proof fn law_conservation(s: BettingSystem, l: Ledger, t: int)
    requires
        s.wf(),
        s.spec_state() is Some,
        s.consistent(l),
        0 <= t < s.spec_tournaments().len(),
        s.spec_tournaments()[t].is_active,
    ensures
        ({
            let st = s.spec_state()->0;
            let tour = s.spec_tournaments()[t];
            l.spec_balance(tour.spec_addr(), tour.spec_betting_mint(st)) == placed_in(
                s.spec_bets(),
                t,
            ) - paid_in(s.spec_bets(), t)
        }),
{
    assert(s.escrow_ok(l, s.spec_state()->0, t));
    lemma_placed_splits(s.spec_bets(), t);
}

/// After closure a tournament's escrows stay empty: the sweep happened once
/// and nothing can be swept again.
pub proof fn law_closed_escrows_empty(s: BettingSystem, l: Ledger, t: int)
    requires
        s.wf(),
        s.spec_state() is Some,
        s.consistent(l),
        0 <= t < s.spec_tournaments().len(),
        !s.spec_tournaments()[t].is_active,
    ensures
        ({
            let st = s.spec_state()->0;
            let a = s.spec_tournaments()[t].spec_addr();
            &&& l.spec_balance(a, st.wanzi_mint) == 0
            &&& l.spec_balance(a, st.matchp_mint) == 0
            &&& l.spec_balance(a, st.vote_mint) == 0
        }),
{
    assert(s.escrow_ok(l, s.spec_state()->0, t));
}

/// Escrow isolation: the coupling invariant reads only balances held at
/// derived addresses, so flows between keypair-held accounts — the
/// distribution utility's reserve mints and claims among them — cannot
/// disturb any tournament's escrow accounting.
pub proof fn law_escrows_isolated(s: BettingSystem, l1: Ledger, l2: Ledger)
    requires
        s.consistent(l1),
        forall|tag: u64, entity: u64, seed: u8, m: u64|
            #[trigger] l2.spec_balance(Addr::Derived(tag, entity, seed), m) == l1.spec_balance(
                Addr::Derived(tag, entity, seed),
                m,
            ),
    ensures
        s.consistent(l2),
{
    if s.spec_state() is Some {
        let st = s.spec_state()->0;
        assert forall|t: int|
            0 <= t < s.spec_tournaments().len() implies #[trigger] s.escrow_ok(l2, st, t) by {
            assert(s.escrow_ok(l1, st, t));
        }
    }
}

} // verus!
