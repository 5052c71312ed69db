//! The engine's error taxonomy.
//!
//! Every operation checks all of its preconditions before any state mutation
//! or fund movement; on failure the whole operation is rejected with one of
//! these errors and no partial effect.

use vstd::prelude::*;

verus! {

/// Why a tournament operation was rejected.
///
/// State violations (`TournamentNotActive`, `RoundNotActive`,
/// `RoundNotCompleted`, `BetAlreadySettled`) mean a transition's precondition
/// on entity state is unmet; association mismatches (`TeamNotInRound`,
/// `BetNotInRound`, `InvalidTeam`) mean the referenced entities do not form a
/// valid parent/child chain; `InvalidTournamentAuthority` means the caller is
/// not the entity's designated controller; `InsufficientTokenBalance` means a
/// spendable balance is below the requested amount; `AccountAlreadyInUse`
/// means a record with the same derived key already exists, so a duplicate
/// creation attempt fails outright rather than overwriting.
#[derive(Clone, Copy, Debug, PartialEq, Eq, Structural)]
pub enum TournamentError {
    TournamentNotActive,
    RoundNotActive,
    RoundNotCompleted,
    BetNotInRound,
    TournamentNotClosed,
    BetAlreadySettled,
    InvalidTokenAccount,
    InvalidTournamentAuthority,
    InsufficientTokenBalance,
    TeamEliminated,
    TeamNotInRound,
    InvalidTeam,
    AccountAlreadyInUse,
}

impl TournamentError {
    /// A human-readable description of the error.
    pub fn message(&self) -> &'static str {
        match self {
            TournamentError::TournamentNotActive => "Tournament is not active",
            TournamentError::RoundNotActive => "Round is not active",
            TournamentError::RoundNotCompleted => "Round is not completed",
            TournamentError::BetNotInRound => "Bet is not in this round",
            TournamentError::TournamentNotClosed => "Tournament is not closed",
            TournamentError::BetAlreadySettled => "Bet is already settled",
            TournamentError::InvalidTokenAccount => "Invalid token account",
            TournamentError::InvalidTournamentAuthority => "Invalid tournament authority",
            TournamentError::InsufficientTokenBalance => "Insufficient token balance",
            TournamentError::TeamEliminated => "Team is already eliminated",
            TournamentError::TeamNotInRound => "Team is not in this round",
            TournamentError::InvalidTeam => "Invalid team",
            TournamentError::AccountAlreadyInUse => "Account is already in use",
        }
    }
}

} // verus!
