//! Per-tournament stake accounting over the arena of bets.
//!
//! Three sums drive the financial invariants: what bettors have staked in a
//! tournament (`placed_in`), what has been paid back to settled winners
//! (`paid_in`), and what the tournament's escrow still owes or holds
//! (`escrowed_in`: stakes not yet settled plus forfeited losing stakes).
//! The conservation law `placed == paid + escrowed` relates them.

use vstd::prelude::*;

use crate::entities::Bet;

verus! {

/// What one bet contributes to the total staked in tournament `t`.
pub open spec fn placed_term(b: Bet, t: int) -> int {
    if b.tournament as int == t {
        b.amount as int
    } else {
        0
    }
}

/// The total amount bettors have staked in tournament `t`.
pub open spec fn placed_in(s: Seq<Bet>, t: int) -> int
    decreases s.len(),
{
    if s.len() == 0 {
        0
    } else {
        placed_in(s.drop_last(), t) + placed_term(s.last(), t)
    }
}

/// What one bet contributes to the total paid back to winners of `t`.
pub open spec fn paid_term(b: Bet, t: int) -> int {
    if b.tournament as int == t && b.is_settled && b.is_winner {
        b.amount as int
    } else {
        0
    }
}

/// The total amount paid back to settled winning bets of tournament `t`.
pub open spec fn paid_in(s: Seq<Bet>, t: int) -> int
    decreases s.len(),
{
    if s.len() == 0 {
        0
    } else {
        paid_in(s.drop_last(), t) + paid_term(s.last(), t)
    }
}

/// What one bet contributes to the stakes tournament `t`'s escrow holds:
/// its amount while the bet is unsettled, and forever once it settled losing.
pub open spec fn escrowed_term(b: Bet, t: int) -> int {
    if b.tournament as int == t && !(b.is_settled && b.is_winner) {
        b.amount as int
    } else {
        0
    }
}

/// The stakes of tournament `t` still held in escrow: unsettled bets plus
/// forfeited (settled losing) bets, whose amounts are swept to the organizer
/// at closure.
pub open spec fn escrowed_in(s: Seq<Bet>, t: int) -> int
    decreases s.len(),
{
    if s.len() == 0 {
        0
    } else {
        escrowed_in(s.drop_last(), t) + escrowed_term(s.last(), t)
    }
}

/// Conservation: every stake placed in a tournament is either paid back to a
/// winner or still escrowed.
pub proof fn lemma_placed_splits(s: Seq<Bet>, t: int)
    ensures
        placed_in(s, t) == paid_in(s, t) + escrowed_in(s, t),
    decreases s.len(),
{
    if s.len() > 0 {
        lemma_placed_splits(s.drop_last(), t);
    }
}

/// Appending a bet adds exactly its terms to the three sums.
pub proof fn lemma_amounts_push(s: Seq<Bet>, b: Bet, t: int)
    ensures
        placed_in(s.push(b), t) == placed_in(s, t) + placed_term(b, t),
        paid_in(s.push(b), t) == paid_in(s, t) + paid_term(b, t),
        escrowed_in(s.push(b), t) == escrowed_in(s, t) + escrowed_term(b, t),
{
    assert(s.push(b).drop_last() =~= s);
}

/// Replacing one bet changes the three sums by exactly the term differences.
pub proof fn lemma_amounts_update(s: Seq<Bet>, i: int, b: Bet, t: int)
    requires
        0 <= i < s.len(),
    ensures
        placed_in(s.update(i, b), t) == placed_in(s, t) - placed_term(s[i], t) + placed_term(b, t),
        paid_in(s.update(i, b), t) == paid_in(s, t) - paid_term(s[i], t) + paid_term(b, t),
        escrowed_in(s.update(i, b), t) == escrowed_in(s, t) - escrowed_term(s[i], t)
            + escrowed_term(b, t),
    decreases s.len(),
{
    if i == s.len() - 1 {
        assert(s.update(i, b).drop_last() =~= s.drop_last());
    } else {
        assert(s.update(i, b).drop_last() =~= s.drop_last().update(i, b));
        lemma_amounts_update(s.drop_last(), i, b, t);
    }
}

/// All three sums are nonnegative.
pub proof fn lemma_amounts_nonneg(s: Seq<Bet>, t: int)
    ensures
        0 <= placed_in(s, t),
        0 <= paid_in(s, t),
        0 <= escrowed_in(s, t),
    decreases s.len(),
{
    if s.len() > 0 {
        lemma_amounts_nonneg(s.drop_last(), t);
    }
}

/// A tournament with no bets has empty sums.
pub proof fn lemma_amounts_absent(s: Seq<Bet>, t: int)
    requires
        forall|k: int| 0 <= k < s.len() ==> (#[trigger] s[k]).tournament as int != t,
    ensures
        placed_in(s, t) == 0,
        paid_in(s, t) == 0,
        escrowed_in(s, t) == 0,
    decreases s.len(),
{
    if s.len() > 0 {
        assert(forall|k: int| 0 <= k < s.len() - 1 ==> s.drop_last()[k] == s[k]);
        lemma_amounts_absent(s.drop_last(), t);
    }
}

/// The escrow holds at least the stake of each bet it still owes.
pub proof fn lemma_escrowed_covers(s: Seq<Bet>, i: int, t: int)
    requires
        0 <= i < s.len(),
        s[i].tournament as int == t,
        !(s[i].is_settled && s[i].is_winner),
    ensures
        s[i].amount as int <= escrowed_in(s, t),
    decreases s.len(),
{
    if i == s.len() - 1 {
        lemma_amounts_nonneg(s.drop_last(), t);
    } else {
        assert(s.drop_last()[i] == s[i]);
        lemma_escrowed_covers(s.drop_last(), i, t);
    }
}

} // verus!
