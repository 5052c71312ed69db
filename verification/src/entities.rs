//! The persistent records: global state, tournaments, rounds, teams and bets.
//!
//! Records are held in arena-style storage and refer to each other only by
//! downward-pointing indices (child to parent). A tournament's escrow accounts
//! are held by an address derived from the tournament record itself, so the
//! record can act as its own signing authority without holding a private key.

use vstd::prelude::*;

use crate::addr::Addr;

verus! {

/// Domain tag under which a tournament's signing address is derived from its
/// organizer's key and its stored derivation seed.
pub const TOURNAMENT_TAG: u64 = 1;

/// The singleton configuration record: the administrator and the three token
/// mints the system works with, plus the token-distribution service id.
///
/// `wanzi_mint` is the wagering token used by non-collateralized tournaments,
/// `matchp_mint` the collateral token an organizer may lock at creation, and
/// `vote_mint` the accounting token minted 1:1 against locked collateral and
/// used as the wagering currency of collateralized tournaments.
#[derive(Clone, Copy, Debug, PartialEq, Eq, Structural)]
pub struct State {
    pub authority: u64,
    pub wanzi_mint: u64,
    pub matchp_mint: u64,
    pub vote_mint: u64,
    pub token_faucet_program_id: u64,
}

impl State {
    /// The three mints name three different tokens.
    pub open spec fn mints_distinct(self) -> bool {
        &&& self.wanzi_mint != self.matchp_mint
        &&& self.wanzi_mint != self.vote_mint
        &&& self.matchp_mint != self.vote_mint
    }
}

/// A tournament: its organizer, optional collateral stake, activity flag and
/// the seed from which its signing authority is recomputed.
///
/// `is_staked` is set exactly once, at creation, and fixes which token bets in
/// this tournament use: the accounting token if staked, else the wagering
/// token. `is_active` flips to false exactly once, at closure, terminally.
#[derive(Debug)]
pub struct Tournament {
    pub authority: u64,
    pub name: String,
    pub stake_amount: u64,
    pub is_active: bool,
    pub is_staked: bool,
    pub created_at: i64,
    pub bump: u8,
}

impl Tournament {
    /// The derived address holding this tournament's escrow accounts,
    /// recomputable from the record alone.
    pub open spec fn spec_addr(self) -> Addr {
        Addr::Derived(TOURNAMENT_TAG, self.authority, self.bump)
    }

    /// Recomputes the tournament's escrow-holding address.
    pub fn addr(&self) -> (a: Addr)
        ensures
            a == self.spec_addr(),
    {
        Addr::Derived(TOURNAMENT_TAG, self.authority, self.bump)
    }

    /// The mint bets in this tournament are denominated in: the accounting
    /// token for a collateralized tournament, else the wagering token.
    pub open spec fn spec_betting_mint(self, st: State) -> u64 {
        if self.is_staked {
            st.vote_mint
        } else {
            st.wanzi_mint
        }
    }

    /// Selects the mint bets in this tournament are denominated in.
    pub fn betting_mint(&self, st: &State) -> (m: u64)
        ensures
            m == self.spec_betting_mint(*st),
    {
        if self.is_staked {
            st.vote_mint
        } else {
            st.wanzi_mint
        }
    }
}

/// One round of a tournament's bracket. Completion is terminal and excludes
/// activity: `is_completed ==> !is_active`.
#[derive(Debug)]
pub struct TournamentRound {
    pub tournament: usize,
    pub name: String,
    pub round_number: u8,
    pub is_active: bool,
    pub is_completed: bool,
    pub created_at: i64,
}

/// A team competing in one round. At most one team per round is marked the
/// winner, exactly when that round completes; elimination independently and
/// terminally stops further betting on the team.
#[derive(Debug)]
pub struct Team {
    pub tournament: usize,
    pub round: usize,
    pub name: String,
    pub is_winner: bool,
    pub is_eliminated: bool,
}

/// A bet by `user` of `amount` on `team` in `round`. `is_settled` flips false
/// to true exactly once, irreversibly; `is_winner` is meaningful only once the
/// bet is settled.
#[derive(Clone, Copy, Debug, PartialEq, Eq, Structural)]
pub struct Bet {
    pub tournament: usize,
    pub round: usize,
    pub team: usize,
    pub user: u64,
    pub amount: u64,
    pub created_at: i64,
    pub is_settled: bool,
    pub is_winner: bool,
}

} // verus!
