//! The tournament lifecycle and settlement state machine.
//!
//! A [`BettingSystem`] holds the arena of records — the singleton
//! configuration, tournaments, rounds, teams and bets — and drives every
//! state transition. Operations that move funds take the custody [`Ledger`]
//! alongside and state exactly which balances change. The coupling invariant
//! [`BettingSystem::consistent`] ties each tournament's escrow balances to the
//! stakes its bets have placed and not yet recovered; every operation
//! preserves it.

use vstd::prelude::*;

use crate::addr::Addr;
use crate::addr::Authority;
use crate::addr::derive_authority;
use crate::addr::spec_controls;
use crate::addr::verify_authority;
use crate::amounts::escrowed_in;
use crate::amounts::lemma_amounts_absent;
use crate::amounts::lemma_amounts_push;
use crate::amounts::lemma_amounts_update;
use crate::amounts::lemma_escrowed_covers;
use crate::entities::Bet;
use crate::entities::State;
use crate::entities::TOURNAMENT_TAG;
use crate::entities::Team;
use crate::entities::Tournament;
use crate::entities::TournamentRound;
use crate::errors::TournamentError;
use crate::ledger::Ledger;

verus! {

/// An operation that leaves the configuration, the tournament records and the
/// bet records alone cannot disturb any escrow: consistency with every ledger
/// carries over.
proof fn lemma_consistent_same_escrows(pre: BettingSystem, post: BettingSystem)
    requires
        post.spec_state() == pre.spec_state(),
        post.spec_tournaments() == pre.spec_tournaments(),
        post.spec_bets() == pre.spec_bets(),
    ensures
        forall|l: Ledger| pre.consistent(l) ==> #[trigger] post.consistent(l),
{
    assert forall|l: Ledger| pre.consistent(l) implies #[trigger] post.consistent(l) by {
        if post.spec_state() is Some {
            let st = post.spec_state()->0;
            assert forall|t: int|
                0 <= t < post.spec_tournaments().len() implies #[trigger] post.escrow_ok(
                l,
                st,
                t,
            ) by {
                assert(pre.escrow_ok(l, st, t));
            }
        }
    }
}

/// The entity store and state machine: all records the system reads and
/// mutates, with arena-style storage and child-to-parent index references.
pub struct BettingSystem {
    state: Option<State>,
    tournaments: Vec<Tournament>,
    rounds: Vec<TournamentRound>,
    teams: Vec<Team>,
    bets: Vec<Bet>,
}

impl BettingSystem {
    /// The singleton configuration, once initialized.
    pub closed spec fn spec_state(self) -> Option<State> {
        self.state
    }

    /// All tournament records, indexed by creation order.
    pub closed spec fn spec_tournaments(self) -> Seq<Tournament> {
        self.tournaments@
    }

    /// All round records.
    pub closed spec fn spec_rounds(self) -> Seq<TournamentRound> {
        self.rounds@
    }

    /// All team records.
    pub closed spec fn spec_teams(self) -> Seq<Team> {
        self.teams@
    }

    /// All bet records.
    pub closed spec fn spec_bets(self) -> Seq<Bet> {
        self.bets@
    }

    /// A round's parent reference is valid, and completion excludes activity.
    pub open spec fn round_wf(self, r: TournamentRound) -> bool {
        &&& r.tournament < self.spec_tournaments().len()
        &&& (r.is_completed ==> !r.is_active)
    }

    /// A team's parent references are valid and agree, and a winner's round
    /// has completed.
    pub open spec fn team_wf(self, m: Team) -> bool {
        &&& m.round < self.spec_rounds().len()
        &&& m.tournament == self.spec_rounds()[m.round as int].tournament
        &&& (m.is_winner ==> self.spec_rounds()[m.round as int].is_completed)
    }

    /// A bet's parent references are valid and form one chain, its amount is
    /// positive, and it can only have won once settled.
    pub open spec fn bet_wf(self, b: Bet) -> bool {
        &&& b.tournament < self.spec_tournaments().len()
        &&& b.round < self.spec_rounds().len()
        &&& b.team < self.spec_teams().len()
        &&& self.spec_teams()[b.team as int].round == b.round
        &&& self.spec_rounds()[b.round as int].tournament == b.tournament
        &&& b.amount > 0
        &&& (b.is_winner ==> b.is_settled)
    }

    /// Whether some tournament already belongs to this organizer (record keys
    /// are derived from the organizer, so each organizer owns at most one).
    pub open spec fn has_tournament_for(self, organizer: u64) -> bool {
        exists|k: int|
            0 <= k < self.spec_tournaments().len() && (#[trigger] self.spec_tournaments()[k]).authority
                == organizer
    }

    /// Whether tournament `t` already has a round with this ordinal.
    pub open spec fn has_round(self, t: int, round_number: u8) -> bool {
        exists|k: int|
            0 <= k < self.spec_rounds().len() && (#[trigger] self.spec_rounds()[k]).tournament as int
                == t && self.spec_rounds()[k].round_number == round_number
    }

    /// Whether round `r` already has a team with this name.
    pub open spec fn has_team(self, r: int, name: Seq<char>) -> bool {
        exists|k: int|
            0 <= k < self.spec_teams().len() && (#[trigger] self.spec_teams()[k]).round as int == r
                && self.spec_teams()[k].name@ == name
    }

    /// Well-formedness of the entity store: the configured mints are three
    /// different tokens, records exist only after initialization, organizers
    /// own at most one tournament each, parent references are valid, at most
    /// one team per round is the winner and only once its round completed,
    /// record keys — (tournament, ordinal) for rounds, (round, name) for
    /// teams — are unique, and every bet is well-formed.
    pub open spec fn wf(self) -> bool {
        &&& (self.spec_state() matches Some(st) ==> st.mints_distinct())
        &&& (self.spec_tournaments().len() > 0 ==> self.spec_state() is Some)
        &&& (forall|i: int, j: int|
            0 <= i < j < self.spec_tournaments().len() ==> (#[trigger] self.spec_tournaments()[i]).authority
                != (#[trigger] self.spec_tournaments()[j]).authority)
        &&& (forall|r: int|
            0 <= r < self.spec_rounds().len() ==> self.round_wf(#[trigger] self.spec_rounds()[r]))
        &&& (forall|i: int|
            0 <= i < self.spec_teams().len() ==> self.team_wf(#[trigger] self.spec_teams()[i]))
        &&& (forall|i: int, j: int|
            0 <= i < self.spec_teams().len() && 0 <= j < self.spec_teams().len() && i != j
                && (#[trigger] self.spec_teams()[i]).round == (#[trigger] self.spec_teams()[j]).round
                && self.spec_teams()[i].is_winner ==> !self.spec_teams()[j].is_winner)
        &&& (forall|i: int|
            0 <= i < self.spec_bets().len() ==> self.bet_wf(#[trigger] self.spec_bets()[i]))
        &&& (forall|i: int, j: int|
            0 <= i < j < self.spec_rounds().len() ==> !((#[trigger] self.spec_rounds()[i]).tournament
                == (#[trigger] self.spec_rounds()[j]).tournament && self.spec_rounds()[i].round_number
                == self.spec_rounds()[j].round_number))
        &&& (forall|i: int, j: int|
            0 <= i < j < self.spec_teams().len() ==> !((#[trigger] self.spec_teams()[i]).round
                == (#[trigger] self.spec_teams()[j]).round && self.spec_teams()[i].name@
                == self.spec_teams()[j].name@))
    }

    /// Tournament `t`'s escrow balances are exactly what the records call for:
    /// while active, its betting-token escrow holds the stakes still owed
    /// (unsettled plus forfeited bets), a collateralized tournament's
    /// collateral escrow holds the locked stake, and the escrows it does not
    /// use are empty; once closed, all its escrows have been swept empty.
    pub open spec fn escrow_ok(self, l: Ledger, st: State, t: int) -> bool
        recommends
            0 <= t < self.spec_tournaments().len(),
    {
        let tour = self.spec_tournaments()[t];
        let a = tour.spec_addr();
        if tour.is_active {
            &&& l.spec_balance(a, tour.spec_betting_mint(st)) == escrowed_in(self.spec_bets(), t)
            &&& (tour.is_staked ==> l.spec_balance(a, st.matchp_mint) == tour.stake_amount
                && l.spec_balance(a, st.wanzi_mint) == 0)
            &&& (!tour.is_staked ==> l.spec_balance(a, st.vote_mint) == 0 && l.spec_balance(
                a,
                st.matchp_mint,
            ) == 0)
        } else {
            &&& l.spec_balance(a, st.wanzi_mint) == 0
            &&& l.spec_balance(a, st.matchp_mint) == 0
            &&& l.spec_balance(a, st.vote_mint) == 0
        }
    }

    /// The coupling invariant between the entity store and the custody
    /// ledger: every tournament's escrows are in order.
    pub open spec fn consistent(self, l: Ledger) -> bool {
        self.spec_state() matches Some(st) ==> forall|t: int|
            0 <= t < self.spec_tournaments().len() ==> #[trigger] self.escrow_ok(l, st, t)
    }

    /// An empty system: no configuration and no records, consistent with any
    /// ledger.
    pub fn new() -> (s: BettingSystem)
        ensures
            s.wf(),
            s.spec_state() is None,
            s.spec_tournaments().len() == 0,
            s.spec_rounds().len() == 0,
            s.spec_teams().len() == 0,
            s.spec_bets().len() == 0,
            forall|l: Ledger| #[trigger] s.consistent(l),
    {
        BettingSystem {
            state: None,
            tournaments: Vec::new(),
            rounds: Vec::new(),
            teams: Vec::new(),
            bets: Vec::new(),
        }
    }

    /// The singleton configuration, if initialized.
    pub fn get_state(&self) -> (s: Option<State>)
        ensures
            s == self.spec_state(),
    {
        self.state
    }

    /// How many tournaments exist.
    pub fn tournament_count(&self) -> (n: usize)
        ensures
            n == self.spec_tournaments().len(),
    {
        self.tournaments.len()
    }

    /// How many rounds exist.
    pub fn round_count(&self) -> (n: usize)
        ensures
            n == self.spec_rounds().len(),
    {
        self.rounds.len()
    }

    /// How many teams exist.
    pub fn team_count(&self) -> (n: usize)
        ensures
            n == self.spec_teams().len(),
    {
        self.teams.len()
    }

    /// How many bets exist.
    pub fn bet_count(&self) -> (n: usize)
        ensures
            n == self.spec_bets().len(),
    {
        self.bets.len()
    }

    /// The tournament record at `i`, if any.
    pub fn get_tournament(&self, i: usize) -> (t: Option<&Tournament>)
        ensures
            match t {
                Some(t) => i < self.spec_tournaments().len() && *t == self.spec_tournaments()[i as int],
                None => i >= self.spec_tournaments().len(),
            },
    {
        if i < self.tournaments.len() {
            Some(&self.tournaments[i])
        } else {
            None
        }
    }

    /// The round record at `i`, if any.
    pub fn get_round(&self, i: usize) -> (r: Option<&TournamentRound>)
        ensures
            match r {
                Some(r) => i < self.spec_rounds().len() && *r == self.spec_rounds()[i as int],
                None => i >= self.spec_rounds().len(),
            },
    {
        if i < self.rounds.len() {
            Some(&self.rounds[i])
        } else {
            None
        }
    }

    /// The team record at `i`, if any.
    pub fn get_team(&self, i: usize) -> (t: Option<&Team>)
        ensures
            match t {
                Some(t) => i < self.spec_teams().len() && *t == self.spec_teams()[i as int],
                None => i >= self.spec_teams().len(),
            },
    {
        if i < self.teams.len() {
            Some(&self.teams[i])
        } else {
            None
        }
    }

    /// The bet record at `i`, if any.
    pub fn get_bet(&self, i: usize) -> (b: Option<Bet>)
        ensures
            match b {
                Some(b) => i < self.spec_bets().len() && b == self.spec_bets()[i as int],
                None => i >= self.spec_bets().len(),
            },
    {
        if i < self.bets.len() {
            Some(self.bets[i])
        } else {
            None
        }
    }

    /// Whether any tournament record belongs to `organizer`.
    fn tournament_exists_for(&self, organizer: u64) -> (b: bool)
        ensures
            b == self.has_tournament_for(organizer),
    {
        let mut i: usize = 0;
        while i < self.tournaments.len()
            invariant
                i <= self.tournaments@.len(),
                forall|k: int|
                    0 <= k < i ==> (#[trigger] self.tournaments@[k]).authority != organizer,
            decreases self.tournaments@.len() - i,
        {
            if self.tournaments[i].authority == organizer {
                proof {
                    assert(self.spec_tournaments()[i as int].authority == organizer);
                }
                return true;
            }
            i += 1;
        }
        false
    }

    /// Whether tournament `t` already has a round with this ordinal.
    fn round_exists(&self, t: usize, round_number: u8) -> (b: bool)
        ensures
            b == self.has_round(t as int, round_number),
    {
        let mut i: usize = 0;
        while i < self.rounds.len()
            invariant
                i <= self.rounds@.len(),
                forall|k: int|
                    0 <= k < i ==> !((#[trigger] self.rounds@[k]).tournament == t
                        && self.rounds@[k].round_number == round_number),
            decreases self.rounds@.len() - i,
        {
            if self.rounds[i].tournament == t && self.rounds[i].round_number == round_number {
                proof {
                    assert(self.spec_rounds()[i as int].tournament == t);
                }
                return true;
            }
            i += 1;
        }
        false
    }

    /// Whether round `r` already has a team with this name.
    fn team_exists(&self, r: usize, name: &String) -> (b: bool)
        ensures
            b == self.has_team(r as int, name@),
    {
        let mut i: usize = 0;
        while i < self.teams.len()
            invariant
                i <= self.teams@.len(),
                forall|k: int|
                    0 <= k < i ==> !((#[trigger] self.teams@[k]).round == r
                        && self.teams@[k].name@ == name@),
            decreases self.teams@.len() - i,
        {
            if self.teams[i].round == r && self.teams[i].name == *name {
                proof {
                    assert(self.spec_teams()[i as int].round == r);
                }
                return true;
            }
            i += 1;
        }
        false
    }

    /// Creates the singleton configuration: the administrator, the three
    /// token mints and the distribution-service id. Fails with
    /// `AccountAlreadyInUse` if the configuration already exists, and with
    /// `InvalidTokenAccount` if the three mints are not three different
    /// tokens.
    pub fn initialize(
        &mut self,
        authority: u64,
        wanzi_mint: u64,
        matchp_mint: u64,
        vote_mint: u64,
        token_faucet_program_id: u64,
    ) -> (r: Result<(), TournamentError>)
        requires
            old(self).wf(),
        ensures
            final(self).wf(),
            old(self).spec_state() is Some ==> r == Err::<(), TournamentError>(
                TournamentError::AccountAlreadyInUse,
            ),
            old(self).spec_state() is None && !(wanzi_mint != matchp_mint && wanzi_mint != vote_mint
                && matchp_mint != vote_mint) ==> r == Err::<(), TournamentError>(
                TournamentError::InvalidTokenAccount,
            ),
            r is Ok <==> old(self).spec_state() is None && wanzi_mint != matchp_mint && wanzi_mint
                != vote_mint && matchp_mint != vote_mint,
            r is Err ==> *final(self) == *old(self),
            r is Ok ==> final(self).spec_state() == Some(
                (State { authority, wanzi_mint, matchp_mint, vote_mint, token_faucet_program_id }),
            ),
            final(self).spec_tournaments() == old(self).spec_tournaments(),
            final(self).spec_rounds() == old(self).spec_rounds(),
            final(self).spec_teams() == old(self).spec_teams(),
            final(self).spec_bets() == old(self).spec_bets(),
            r is Ok ==> forall|l: Ledger| #[trigger] final(self).consistent(l),
    {
        if self.state.is_some() {
            return Err(TournamentError::AccountAlreadyInUse);
        }
        if wanzi_mint == matchp_mint || wanzi_mint == vote_mint || matchp_mint == vote_mint {
            return Err(TournamentError::InvalidTokenAccount);
        }
        self.state = Some(
            State { authority, wanzi_mint, matchp_mint, vote_mint, token_faucet_program_id },
        );
        proof {
            assert(self.spec_tournaments() == old(self).spec_tournaments());
            assert(self.spec_rounds() == old(self).spec_rounds());
            assert(self.spec_teams() == old(self).spec_teams());
            assert(self.spec_bets() == old(self).spec_bets());
        }
        Ok(())
    }

    /// Updates the distribution-service id recorded in the configuration.
    /// Only the administrator may do so; nothing else changes.
    pub fn update_token_faucet_address(
        &mut self,
        authority: u64,
        new_token_faucet_program_id: u64,
    ) -> (r: Result<(), TournamentError>)
        requires
            old(self).wf(),
            old(self).spec_state() is Some,
        ensures
            final(self).wf(),
            r is Ok <==> authority == old(self).spec_state()->0.authority,
            r is Err ==> r == Err::<(), TournamentError>(
                TournamentError::InvalidTournamentAuthority,
            ) && *final(self) == *old(self),
            r is Ok ==> final(self).spec_state() == Some(
                (State {
                    token_faucet_program_id: new_token_faucet_program_id,
                    ..old(self).spec_state()->0
                }),
            ),
            final(self).spec_tournaments() == old(self).spec_tournaments(),
            final(self).spec_rounds() == old(self).spec_rounds(),
            final(self).spec_teams() == old(self).spec_teams(),
            final(self).spec_bets() == old(self).spec_bets(),
            forall|l: Ledger|
                old(self).consistent(l) ==> #[trigger] final(self).consistent(l),
    {
        let st = self.state.unwrap();
        if st.authority != authority {
            return Err(TournamentError::InvalidTournamentAuthority);
        }
        self.state = Some(State { token_faucet_program_id: new_token_faucet_program_id, ..st });
        proof {
            assert(self.spec_tournaments() == old(self).spec_tournaments());
            assert(self.spec_rounds() == old(self).spec_rounds());
            assert(self.spec_teams() == old(self).spec_teams());
            assert(self.spec_bets() == old(self).spec_bets());
            assert forall|l: Ledger|
                old(self).consistent(l) implies #[trigger] self.consistent(l) by {
                let stf = self.spec_state()->0;
                assert forall|t: int|
                    0 <= t < self.spec_tournaments().len() implies #[trigger] self.escrow_ok(
                    l,
                    stf,
                    t,
                ) by {
                    assert(old(self).escrow_ok(l, st, t));
                }
            }
        }
        Ok(())
    }

    /// Creates a new round of `tournament` with the given name and ordinal,
    /// initially active and not completed. Only the tournament's organizer may
    /// do so, only while the tournament is active, and at most once per
    /// ordinal: a duplicate creation attempt fails outright.
    pub fn create_tournament_round(
        &mut self,
        authority: u64,
        tournament: usize,
        name: String,
        round_number: u8,
        now: i64,
    ) -> (r: Result<usize, TournamentError>)
        requires
            old(self).wf(),
            tournament < old(self).spec_tournaments().len(),
        ensures
            final(self).wf(),
            final(self).spec_state() == old(self).spec_state(),
            final(self).spec_tournaments() == old(self).spec_tournaments(),
            final(self).spec_teams() == old(self).spec_teams(),
            final(self).spec_bets() == old(self).spec_bets(),
            ({
                let tour = old(self).spec_tournaments()[tournament as int];
                &&& (authority != tour.authority ==> r == Err::<usize, TournamentError>(
                    TournamentError::InvalidTournamentAuthority,
                ))
                &&& (authority == tour.authority && !tour.is_active ==> r == Err::<
                    usize,
                    TournamentError,
                >(TournamentError::TournamentNotActive))
                &&& (authority == tour.authority && tour.is_active && old(self).has_round(
                    tournament as int,
                    round_number,
                ) ==> r == Err::<usize, TournamentError>(TournamentError::AccountAlreadyInUse))
                &&& (r is Ok <==> authority == tour.authority && tour.is_active && !old(
                    self,
                ).has_round(tournament as int, round_number))
            }),
            r is Err ==> *final(self) == *old(self),
            r is Ok ==> r == Ok::<usize, TournamentError>(old(self).spec_rounds().len() as usize),
            r is Ok ==> final(self).spec_rounds() == old(self).spec_rounds().push(
                (TournamentRound {
                    tournament,
                    name,
                    round_number,
                    is_active: true,
                    is_completed: false,
                    created_at: now,
                }),
            ),
            forall|l: Ledger| old(self).consistent(l) ==> #[trigger] final(self).consistent(l),
    {
        if self.tournaments[tournament].authority != authority {
            return Err(TournamentError::InvalidTournamentAuthority);
        }
        if !self.tournaments[tournament].is_active {
            return Err(TournamentError::TournamentNotActive);
        }
        if self.round_exists(tournament, round_number) {
            return Err(TournamentError::AccountAlreadyInUse);
        }
        let idx = self.rounds.len();
        self.rounds.push(
            TournamentRound {
                tournament,
                name,
                round_number,
                is_active: true,
                is_completed: false,
                created_at: now,
            },
        );
        proof {
            assert(self.spec_state() == old(self).spec_state());
            assert(self.spec_tournaments() == old(self).spec_tournaments());
            assert(self.spec_teams() == old(self).spec_teams());
            assert(self.spec_bets() == old(self).spec_bets());
            assert(self.spec_rounds() =~= old(self).spec_rounds().push(
                self.spec_rounds().last(),
            ));
            lemma_consistent_same_escrows(*old(self), *self);
        }
        Ok(idx)
    }

    /// Creates a team competing in `round`, initially neither winner nor
    /// eliminated. Only the organizer of the round's tournament may do so,
    /// only while both the tournament and the round are active, and at most
    /// once per name within a round.
    pub fn create_team(&mut self, authority: u64, round: usize, name: String) -> (r: Result<
        usize,
        TournamentError,
    >)
        requires
            old(self).wf(),
            round < old(self).spec_rounds().len(),
        ensures
            final(self).wf(),
            final(self).spec_state() == old(self).spec_state(),
            final(self).spec_tournaments() == old(self).spec_tournaments(),
            final(self).spec_rounds() == old(self).spec_rounds(),
            final(self).spec_bets() == old(self).spec_bets(),
            ({
                let rd = old(self).spec_rounds()[round as int];
                let tour = old(self).spec_tournaments()[rd.tournament as int];
                &&& (authority != tour.authority ==> r == Err::<usize, TournamentError>(
                    TournamentError::InvalidTournamentAuthority,
                ))
                &&& (authority == tour.authority && !tour.is_active ==> r == Err::<
                    usize,
                    TournamentError,
                >(TournamentError::TournamentNotActive))
                &&& (authority == tour.authority && tour.is_active && !rd.is_active ==> r == Err::<
                    usize,
                    TournamentError,
                >(TournamentError::RoundNotActive))
                &&& (authority == tour.authority && tour.is_active && rd.is_active && old(
                    self,
                ).has_team(round as int, name@) ==> r == Err::<usize, TournamentError>(
                    TournamentError::AccountAlreadyInUse,
                ))
                &&& (r is Ok <==> authority == tour.authority && tour.is_active && rd.is_active
                    && !old(self).has_team(round as int, name@))
                &&& (r is Ok ==> final(self).spec_teams() == old(self).spec_teams().push(
                    (Team {
                        tournament: rd.tournament,
                        round,
                        name,
                        is_winner: false,
                        is_eliminated: false,
                    }),
                ))
            }),
            r is Err ==> *final(self) == *old(self),
            r is Ok ==> r == Ok::<usize, TournamentError>(old(self).spec_teams().len() as usize),
            forall|l: Ledger| old(self).consistent(l) ==> #[trigger] final(self).consistent(l),
    {
        let t_idx = self.rounds[round].tournament;
        if self.tournaments[t_idx].authority != authority {
            return Err(TournamentError::InvalidTournamentAuthority);
        }
        if !self.tournaments[t_idx].is_active {
            return Err(TournamentError::TournamentNotActive);
        }
        if !self.rounds[round].is_active {
            return Err(TournamentError::RoundNotActive);
        }
        if self.team_exists(round, &name) {
            return Err(TournamentError::AccountAlreadyInUse);
        }
        let idx = self.teams.len();
        self.teams.push(
            Team { tournament: t_idx, round, name, is_winner: false, is_eliminated: false },
        );
        proof {
            assert(self.spec_state() == old(self).spec_state());
            assert(self.spec_tournaments() == old(self).spec_tournaments());
            assert(self.spec_rounds() == old(self).spec_rounds());
            assert(self.spec_bets() == old(self).spec_bets());
            assert(self.spec_teams() =~= old(self).spec_teams().push(self.spec_teams().last()));
            lemma_consistent_same_escrows(*old(self), *self);
        }
        Ok(idx)
    }

    /// Marks `team` eliminated, terminally stopping further betting on it
    /// without closing its round. Only the organizer of the team's tournament
    /// may do so, while the tournament and the team's round are active.
    pub fn eliminate_team(&mut self, authority: u64, team: usize) -> (r: Result<
        (),
        TournamentError,
    >)
        requires
            old(self).wf(),
            team < old(self).spec_teams().len(),
        ensures
            final(self).wf(),
            final(self).spec_state() == old(self).spec_state(),
            final(self).spec_tournaments() == old(self).spec_tournaments(),
            final(self).spec_rounds() == old(self).spec_rounds(),
            final(self).spec_bets() == old(self).spec_bets(),
            ({
                let tm = old(self).spec_teams()[team as int];
                let tour = old(self).spec_tournaments()[tm.tournament as int];
                let rd = old(self).spec_rounds()[tm.round as int];
                &&& (authority != tour.authority ==> r == Err::<(), TournamentError>(
                    TournamentError::InvalidTournamentAuthority,
                ))
                &&& (authority == tour.authority && !tour.is_active ==> r == Err::<
                    (),
                    TournamentError,
                >(TournamentError::TournamentNotActive))
                &&& (authority == tour.authority && tour.is_active && !rd.is_active ==> r == Err::<
                    (),
                    TournamentError,
                >(TournamentError::RoundNotActive))
                &&& (r is Ok <==> authority == tour.authority && tour.is_active && rd.is_active)
                &&& (r is Ok ==> final(self).spec_teams() == old(self).spec_teams().update(
                    team as int,
                    (Team { is_eliminated: true, ..tm }),
                ))
            }),
            r is Err ==> *final(self) == *old(self),
            forall|l: Ledger| old(self).consistent(l) ==> #[trigger] final(self).consistent(l),
    {
        let t_idx = self.teams[team].tournament;
        if self.tournaments[t_idx].authority != authority {
            return Err(TournamentError::InvalidTournamentAuthority);
        }
        if !self.tournaments[t_idx].is_active {
            return Err(TournamentError::TournamentNotActive);
        }
        let r_idx = self.teams[team].round;
        if !self.rounds[r_idx].is_active {
            return Err(TournamentError::RoundNotActive);
        }
        let name = self.teams[team].name.clone();
        let is_winner = self.teams[team].is_winner;
        self.teams[team] = Team {
            tournament: t_idx,
            round: r_idx,
            name,
            is_winner,
            is_eliminated: true,
        };
        proof {
            assert(self.spec_state() == old(self).spec_state());
            assert(self.spec_tournaments() == old(self).spec_tournaments());
            assert(self.spec_rounds() == old(self).spec_rounds());
            assert(self.spec_bets() == old(self).spec_bets());
            assert(self.spec_teams() =~= old(self).spec_teams().update(
                team as int,
                (Team { is_eliminated: true, ..old(self).spec_teams()[team as int] }),
            ));
            lemma_consistent_same_escrows(*old(self), *self);
        }
        Ok(())
    }

    /// Completes `round`, naming `winner_team` its winner: the round leaves
    /// the active state terminally and the team is marked the round's one
    /// winner. Only the organizer of the round's tournament may do so, while
    /// the tournament and the round are active, and the named team must
    /// compete in this round. No operation reopens a completed round or
    /// revokes a winner designation.
    pub fn complete_round(&mut self, authority: u64, round: usize, winner_team: usize) -> (r:
        Result<(), TournamentError>)
        requires
            old(self).wf(),
            round < old(self).spec_rounds().len(),
            winner_team < old(self).spec_teams().len(),
        ensures
            final(self).wf(),
            final(self).spec_state() == old(self).spec_state(),
            final(self).spec_tournaments() == old(self).spec_tournaments(),
            final(self).spec_bets() == old(self).spec_bets(),
            ({
                let rd = old(self).spec_rounds()[round as int];
                let tour = old(self).spec_tournaments()[rd.tournament as int];
                let wt = old(self).spec_teams()[winner_team as int];
                &&& (authority != tour.authority ==> r == Err::<(), TournamentError>(
                    TournamentError::InvalidTournamentAuthority,
                ))
                &&& (authority == tour.authority && !tour.is_active ==> r == Err::<
                    (),
                    TournamentError,
                >(TournamentError::TournamentNotActive))
                &&& (authority == tour.authority && tour.is_active && !rd.is_active ==> r == Err::<
                    (),
                    TournamentError,
                >(TournamentError::RoundNotActive))
                &&& (authority == tour.authority && tour.is_active && rd.is_active && wt.round
                    != round ==> r == Err::<(), TournamentError>(TournamentError::TeamNotInRound))
                &&& (r is Ok <==> authority == tour.authority && tour.is_active && rd.is_active
                    && wt.round == round)
                &&& (r is Ok ==> final(self).spec_rounds() == old(self).spec_rounds().update(
                    round as int,
                    (TournamentRound { is_active: false, is_completed: true, ..rd }),
                ))
                &&& (r is Ok ==> final(self).spec_teams() == old(self).spec_teams().update(
                    winner_team as int,
                    (Team { is_winner: true, ..wt }),
                ))
            }),
            r is Err ==> *final(self) == *old(self),
            forall|l: Ledger| old(self).consistent(l) ==> #[trigger] final(self).consistent(l),
    {
        let t_idx = self.rounds[round].tournament;
        if self.tournaments[t_idx].authority != authority {
            return Err(TournamentError::InvalidTournamentAuthority);
        }
        if !self.tournaments[t_idx].is_active {
            return Err(TournamentError::TournamentNotActive);
        }
        if !self.rounds[round].is_active {
            return Err(TournamentError::RoundNotActive);
        }
        if self.teams[winner_team].round != round {
            return Err(TournamentError::TeamNotInRound);
        }
        proof {
            // while the round is still active, no team of this round has won
            assert forall|m: int|
                0 <= m < self.spec_teams().len() && (#[trigger] self.spec_teams()[m]).round
                    == round implies !self.spec_teams()[m].is_winner by {
                assert(self.team_wf(self.spec_teams()[m]));
                assert(self.round_wf(self.spec_rounds()[round as int]));
            }
        }
        let r_name = self.rounds[round].name.clone();
        let r_number = self.rounds[round].round_number;
        let r_created = self.rounds[round].created_at;
        self.rounds[round] = TournamentRound {
            tournament: t_idx,
            name: r_name,
            round_number: r_number,
            is_active: false,
            is_completed: true,
            created_at: r_created,
        };
        let w_tournament = self.teams[winner_team].tournament;
        let w_round = self.teams[winner_team].round;
        let w_name = self.teams[winner_team].name.clone();
        let w_eliminated = self.teams[winner_team].is_eliminated;
        self.teams[winner_team] = Team {
            tournament: w_tournament,
            round: w_round,
            name: w_name,
            is_winner: true,
            is_eliminated: w_eliminated,
        };
        proof {
            assert(self.spec_state() == old(self).spec_state());
            assert(self.spec_tournaments() == old(self).spec_tournaments());
            assert(self.spec_bets() == old(self).spec_bets());
            assert(self.spec_rounds() =~= old(self).spec_rounds().update(
                round as int,
                (TournamentRound {
                    is_active: false,
                    is_completed: true,
                    ..old(self).spec_rounds()[round as int]
                }),
            ));
            assert(self.spec_teams() =~= old(self).spec_teams().update(
                winner_team as int,
                (Team { is_winner: true, ..old(self).spec_teams()[winner_team as int] }),
            ));
            lemma_consistent_same_escrows(*old(self), *self);
        }
        Ok(())
    }

    /// Creates a tournament for `authority`, active and named `name`. With a
    /// positive `stake_amount` the organizer's collateral moves into the new
    /// tournament's collateral escrow, the same amount of the accounting token
    /// is minted to the organizer (their claim to reclaim the collateral), and
    /// the tournament is permanently collateralized; with zero it is
    /// permanently wagering-token-denominated. Each organizer owns at most one
    /// tournament (its record key derives from the organizer), the new escrow
    /// accounts must be empty, and collateralizing requires the organizer's
    /// collateral balance to cover the stake and `vote_mint_authority` to
    /// control issuance of the accounting token.
    pub fn create_tournament(
        &mut self,
        ledger: &mut Ledger,
        authority: u64,
        name: String,
        stake_amount: u64,
        vote_mint_authority: &Authority,
        now: i64,
    ) -> (r: Result<usize, TournamentError>)
        requires
            old(self).wf(),
            old(self).spec_state() is Some,
            old(ledger).wf(),
            old(self).consistent(*old(ledger)),
        ensures
            final(self).wf(),
            final(ledger).wf(),
            final(self).consistent(*final(ledger)),
            final(self).spec_state() == old(self).spec_state(),
            final(self).spec_rounds() == old(self).spec_rounds(),
            final(self).spec_teams() == old(self).spec_teams(),
            final(self).spec_bets() == old(self).spec_bets(),
            r is Err ==> *final(self) == *old(self) && *final(ledger) == *old(ledger),
            ({
                let st = old(self).spec_state()->0;
                let a = Addr::Derived(TOURNAMENT_TAG, authority, 255);
                let dup = old(self).has_tournament_for(authority);
                let dirty = old(ledger).spec_balance(a, st.wanzi_mint) != 0 || old(
                    ledger,
                ).spec_balance(a, st.matchp_mint) != 0 || old(ledger).spec_balance(a, st.vote_mint)
                    != 0;
                let funded = old(ledger).spec_balance(Addr::Key(authority), st.matchp_mint)
                    >= stake_amount;
                let mintable = old(ledger).spec_mint_authority(st.vote_mint) matches Some(ma)
                    && spec_controls(*vote_mint_authority, ma) && old(ledger).spec_supply(
                    st.vote_mint,
                ) + stake_amount <= u64::MAX;
                &&& (dup ==> r == Err::<usize, TournamentError>(
                    TournamentError::AccountAlreadyInUse,
                ))
                &&& (!dup && dirty ==> r == Err::<usize, TournamentError>(
                    TournamentError::InvalidTokenAccount,
                ))
                &&& (!dup && !dirty && stake_amount > 0 && !funded ==> r == Err::<
                    usize,
                    TournamentError,
                >(TournamentError::InsufficientTokenBalance))
                &&& (!dup && !dirty && stake_amount > 0 && funded && !mintable ==> r == Err::<
                    usize,
                    TournamentError,
                >(TournamentError::InvalidTokenAccount))
                &&& (r is Ok <==> !dup && !dirty && (stake_amount == 0 || (funded && mintable)))
                &&& (r is Ok ==> r == Ok::<usize, TournamentError>(
                    old(self).spec_tournaments().len() as usize,
                ))
                &&& (r is Ok ==> final(self).spec_tournaments() == old(
                    self,
                ).spec_tournaments().push(
                    (Tournament {
                        authority,
                        name,
                        stake_amount,
                        is_active: true,
                        is_staked: stake_amount > 0,
                        created_at: now,
                        bump: 255,
                    }),
                ))
                &&& (r is Ok && stake_amount == 0 ==> *final(ledger) == *old(ledger))
                &&& (r is Ok && stake_amount > 0 ==> {
                    &&& final(ledger).spec_balance(Addr::Key(authority), st.matchp_mint) == old(
                        ledger,
                    ).spec_balance(Addr::Key(authority), st.matchp_mint) - stake_amount
                    &&& final(ledger).spec_balance(a, st.matchp_mint) == stake_amount
                    &&& final(ledger).spec_balance(Addr::Key(authority), st.vote_mint) == old(
                        ledger,
                    ).spec_balance(Addr::Key(authority), st.vote_mint) + stake_amount
                    &&& final(ledger).spec_supply(st.vote_mint) == old(ledger).spec_supply(
                        st.vote_mint,
                    ) + stake_amount
                    &&& forall|h: Addr, m: u64|
                        !(h == Addr::Key(authority) && m == st.matchp_mint) && !(h == a && m
                            == st.matchp_mint) && !(h == Addr::Key(authority) && m == st.vote_mint)
                            ==> final(ledger).spec_balance(h, m) == old(ledger).spec_balance(h, m)
                    &&& forall|m: u64|
                        m != st.vote_mint ==> final(ledger).spec_supply(m) == old(
                            ledger,
                        ).spec_supply(m)
                })
            }),
            forall|m: u64|
                final(ledger).spec_mint_authority(m) == old(ledger).spec_mint_authority(m),
    {
        let st = self.state.unwrap();
        if self.tournament_exists_for(authority) {
            return Err(TournamentError::AccountAlreadyInUse);
        }
        let a = Addr::Derived(TOURNAMENT_TAG, authority, 255);
        let b_w = ledger.balance_of(a, st.wanzi_mint);
        let b_m = ledger.balance_of(a, st.matchp_mint);
        let b_v = ledger.balance_of(a, st.vote_mint);
        if b_w != 0 || b_m != 0 || b_v != 0 {
            return Err(TournamentError::InvalidTokenAccount);
        }
        if stake_amount > 0 {
            if ledger.balance_of(Addr::Key(authority), st.matchp_mint) < stake_amount {
                return Err(TournamentError::InsufficientTokenBalance);
            }
            let mint_ok = match ledger.mint_authority_of(st.vote_mint) {
                Some(ma) => verify_authority(vote_mint_authority, &ma),
                None => false,
            };
            let supply = ledger.supply_of(st.vote_mint);
            if !mint_ok || stake_amount > u64::MAX - supply {
                return Err(TournamentError::InvalidTokenAccount);
            }
            let tr = ledger.transfer(
                st.matchp_mint,
                Addr::Key(authority),
                a,
                &Authority::Signature(authority),
                stake_amount,
            );
            proof {
                assert(tr is Ok);
            }
            let mr = ledger.mint_to(st.vote_mint, Addr::Key(authority), vote_mint_authority,
                stake_amount);
            proof {
                assert(mr is Ok);
            }
        }
        let idx = self.tournaments.len();
        self.tournaments.push(
            Tournament {
                authority,
                name,
                stake_amount,
                is_active: true,
                is_staked: stake_amount > 0,
                created_at: now,
                bump: 255,
            },
        );
        proof {
            assert(self.spec_state() == old(self).spec_state());
            assert(self.spec_rounds() == old(self).spec_rounds());
            assert(self.spec_teams() == old(self).spec_teams());
            assert(self.spec_bets() == old(self).spec_bets());
            assert(self.spec_tournaments() =~= old(self).spec_tournaments().push(
                self.spec_tournaments().last(),
            ));
            let t_new = idx as int;
            assert forall|t: int|
                0 <= t < self.spec_tournaments().len() implies #[trigger] self.escrow_ok(
                *ledger,
                st,
                t,
            ) by {
                if t == t_new {
                    lemma_amounts_absent(self.spec_bets(), t_new);
                } else {
                    assert(old(self).escrow_ok(*old(ledger), st, t));
                    assert(self.spec_tournaments()[t].authority != authority);
                }
            }
        }
        Ok(idx)
    }

    /// Places a bet of `amount` by `user` on `team` in `round`: the stake
    /// moves from the bettor into the tournament's betting-token escrow (the
    /// accounting token if the tournament is collateralized, else the wagering
    /// token) and an unsettled bet record is created — atomically, so a
    /// rejected bet debits nothing and leaves no record. Requires the
    /// tournament and round to be active, the team to compete in the round and
    /// not be eliminated, and the bettor's balance to cover the stake.
    pub fn place_bet(
        &mut self,
        ledger: &mut Ledger,
        user: u64,
        round: usize,
        team: usize,
        amount: u64,
        now: i64,
    ) -> (r: Result<usize, TournamentError>)
        requires
            old(self).wf(),
            old(self).spec_state() is Some,
            round < old(self).spec_rounds().len(),
            team < old(self).spec_teams().len(),
            amount > 0,
            old(ledger).wf(),
            old(self).consistent(*old(ledger)),
        ensures
            final(self).wf(),
            final(ledger).wf(),
            final(self).consistent(*final(ledger)),
            final(self).spec_state() == old(self).spec_state(),
            final(self).spec_tournaments() == old(self).spec_tournaments(),
            final(self).spec_rounds() == old(self).spec_rounds(),
            final(self).spec_teams() == old(self).spec_teams(),
            r is Err ==> *final(self) == *old(self) && *final(ledger) == *old(ledger),
            ({
                let st = old(self).spec_state()->0;
                let rd = old(self).spec_rounds()[round as int];
                let tour = old(self).spec_tournaments()[rd.tournament as int];
                let tm = old(self).spec_teams()[team as int];
                let mint = tour.spec_betting_mint(st);
                let a = tour.spec_addr();
                let funded = old(ledger).spec_balance(Addr::Key(user), mint) >= amount;
                &&& (!tour.is_active ==> r == Err::<usize, TournamentError>(
                    TournamentError::TournamentNotActive,
                ))
                &&& (tour.is_active && !rd.is_active ==> r == Err::<usize, TournamentError>(
                    TournamentError::RoundNotActive,
                ))
                &&& (tour.is_active && rd.is_active && tm.round != round ==> r == Err::<
                    usize,
                    TournamentError,
                >(TournamentError::TeamNotInRound))
                &&& (tour.is_active && rd.is_active && tm.round == round && tm.is_eliminated ==> r
                    == Err::<usize, TournamentError>(TournamentError::TeamEliminated))
                &&& (tour.is_active && rd.is_active && tm.round == round && !tm.is_eliminated
                    && !funded ==> r == Err::<usize, TournamentError>(
                    TournamentError::InsufficientTokenBalance,
                ))
                &&& (r is Ok <==> tour.is_active && rd.is_active && tm.round == round
                    && !tm.is_eliminated && funded)
                &&& (r is Ok ==> r == Ok::<usize, TournamentError>(
                    old(self).spec_bets().len() as usize,
                ))
                &&& (r is Ok ==> final(self).spec_bets() == old(self).spec_bets().push(
                    (Bet {
                        tournament: rd.tournament,
                        round,
                        team,
                        user,
                        amount,
                        created_at: now,
                        is_settled: false,
                        is_winner: false,
                    }),
                ))
                &&& (r is Ok ==> {
                    &&& final(ledger).spec_balance(Addr::Key(user), mint) == old(
                        ledger,
                    ).spec_balance(Addr::Key(user), mint) - amount
                    &&& final(ledger).spec_balance(a, mint) == old(ledger).spec_balance(a, mint)
                        + amount
                    &&& forall|h: Addr, m: u64|
                        !(h == Addr::Key(user) && m == mint) && !(h == a && m == mint)
                            ==> final(ledger).spec_balance(h, m) == old(ledger).spec_balance(h, m)
                })
            }),
            forall|m: u64| final(ledger).spec_supply(m) == old(ledger).spec_supply(m),
            forall|m: u64|
                final(ledger).spec_mint_authority(m) == old(ledger).spec_mint_authority(m),
    {
        let t_idx = self.rounds[round].tournament;
        if !self.tournaments[t_idx].is_active {
            return Err(TournamentError::TournamentNotActive);
        }
        if !self.rounds[round].is_active {
            return Err(TournamentError::RoundNotActive);
        }
        if self.teams[team].round != round {
            return Err(TournamentError::TeamNotInRound);
        }
        if self.teams[team].is_eliminated {
            return Err(TournamentError::TeamEliminated);
        }
        let st = self.state.unwrap();
        let mint = self.tournaments[t_idx].betting_mint(&st);
        let a = self.tournaments[t_idx].addr();
        if ledger.balance_of(Addr::Key(user), mint) < amount {
            return Err(TournamentError::InsufficientTokenBalance);
        }
        let tr = ledger.transfer(mint, Addr::Key(user), a, &Authority::Signature(user), amount);
        proof {
            assert(tr is Ok);
        }
        let idx = self.bets.len();
        self.bets.push(
            Bet {
                tournament: t_idx,
                round,
                team,
                user,
                amount,
                created_at: now,
                is_settled: false,
                is_winner: false,
            },
        );
        proof {
            assert(self.spec_state() == old(self).spec_state());
            assert(self.spec_tournaments() == old(self).spec_tournaments());
            assert(self.spec_rounds() == old(self).spec_rounds());
            assert(self.spec_teams() == old(self).spec_teams());
            assert(self.spec_bets() =~= old(self).spec_bets().push(self.spec_bets().last()));
            let b = self.spec_bets().last();
            assert forall|t: int|
                0 <= t < self.spec_tournaments().len() implies #[trigger] self.escrow_ok(
                *ledger,
                st,
                t,
            ) by {
                assert(old(self).escrow_ok(*old(ledger), st, t));
                lemma_amounts_push(old(self).spec_bets(), b, t);
                if t != t_idx as int {
                    assert(self.spec_tournaments()[t].authority != self.spec_tournaments()[t_idx as int].authority);
                }
            }
        }
        Ok(idx)
    }

    /// Settles `bet` against `round`'s recorded outcome, exactly once per bet.
    /// The bet won if and only if it backed the round's designated winner; a
    /// winning bet recovers exactly its own staked amount from the
    /// tournament's escrow, paid to the bettor under the tournament's derived
    /// authority, while a losing bet is marked settled with no transfer and
    /// its stake stays in escrow for the closure sweep. Requires the round to
    /// be completed, the bet to be unsettled and to belong to the round, and
    /// `winner_team` to be the round's winner. A winning bet on a tournament
    /// whose escrow was already swept at closure fails with
    /// `InsufficientTokenBalance` and changes nothing.
    pub fn settle_bet(
        &mut self,
        ledger: &mut Ledger,
        round: usize,
        winner_team: usize,
        bet: usize,
    ) -> (r: Result<(), TournamentError>)
        requires
            old(self).wf(),
            old(self).spec_state() is Some,
            round < old(self).spec_rounds().len(),
            winner_team < old(self).spec_teams().len(),
            bet < old(self).spec_bets().len(),
            old(ledger).wf(),
            old(self).consistent(*old(ledger)),
        ensures
            final(self).wf(),
            final(ledger).wf(),
            final(self).consistent(*final(ledger)),
            final(self).spec_state() == old(self).spec_state(),
            final(self).spec_tournaments() == old(self).spec_tournaments(),
            final(self).spec_rounds() == old(self).spec_rounds(),
            final(self).spec_teams() == old(self).spec_teams(),
            r is Err ==> *final(self) == *old(self) && *final(ledger) == *old(ledger),
            ({
                let st = old(self).spec_state()->0;
                let rd = old(self).spec_rounds()[round as int];
                let b = old(self).spec_bets()[bet as int];
                let wt = old(self).spec_teams()[winner_team as int];
                let tour = old(self).spec_tournaments()[b.tournament as int];
                let mint = tour.spec_betting_mint(st);
                let a = tour.spec_addr();
                let win = b.team == winner_team;
                let checks = rd.is_completed && !b.is_settled && b.round == round && wt.round
                    == round && wt.is_winner;
                &&& (!rd.is_completed ==> r == Err::<(), TournamentError>(
                    TournamentError::RoundNotCompleted,
                ))
                &&& (rd.is_completed && b.is_settled ==> r == Err::<(), TournamentError>(
                    TournamentError::BetAlreadySettled,
                ))
                &&& (rd.is_completed && !b.is_settled && b.round != round ==> r == Err::<
                    (),
                    TournamentError,
                >(TournamentError::BetNotInRound))
                &&& (rd.is_completed && !b.is_settled && b.round == round && wt.round != round
                    ==> r == Err::<(), TournamentError>(TournamentError::TeamNotInRound))
                &&& (rd.is_completed && !b.is_settled && b.round == round && wt.round == round
                    && !wt.is_winner ==> r == Err::<(), TournamentError>(
                    TournamentError::InvalidTeam,
                ))
                &&& (checks && win && !tour.is_active ==> r == Err::<(), TournamentError>(
                    TournamentError::InsufficientTokenBalance,
                ))
                &&& (r is Ok <==> checks && (!win || tour.is_active))
                &&& (r is Ok ==> final(self).spec_bets() == old(self).spec_bets().update(
                    bet as int,
                    (Bet { is_settled: true, is_winner: win, ..b }),
                ))
                &&& (r is Ok && !win ==> *final(ledger) == *old(ledger))
                &&& (r is Ok && win ==> {
                    &&& final(ledger).spec_balance(a, mint) == old(ledger).spec_balance(a, mint)
                        - b.amount
                    &&& final(ledger).spec_balance(Addr::Key(b.user), mint) == old(
                        ledger,
                    ).spec_balance(Addr::Key(b.user), mint) + b.amount
                    &&& forall|h: Addr, m: u64|
                        !(h == a && m == mint) && !(h == Addr::Key(b.user) && m == mint)
                            ==> final(ledger).spec_balance(h, m) == old(ledger).spec_balance(h, m)
                })
            }),
            forall|m: u64| final(ledger).spec_supply(m) == old(ledger).spec_supply(m),
            forall|m: u64|
                final(ledger).spec_mint_authority(m) == old(ledger).spec_mint_authority(m),
    {
        if !self.rounds[round].is_completed {
            return Err(TournamentError::RoundNotCompleted);
        }
        let b = self.bets[bet];
        if b.is_settled {
            return Err(TournamentError::BetAlreadySettled);
        }
        if b.round != round {
            return Err(TournamentError::BetNotInRound);
        }
        if self.teams[winner_team].round != round {
            return Err(TournamentError::TeamNotInRound);
        }
        if !self.teams[winner_team].is_winner {
            return Err(TournamentError::InvalidTeam);
        }
        let win = b.team == winner_team;
        let st = self.state.unwrap();
        let t_idx = b.tournament;
        if win {
            let a = self.tournaments[t_idx].addr();
            let mint = self.tournaments[t_idx].betting_mint(&st);
            let pa = Authority::Derived(
                derive_authority(
                    TOURNAMENT_TAG,
                    self.tournaments[t_idx].authority,
                    self.tournaments[t_idx].bump,
                ),
            );
            proof {
                assert(self.escrow_ok(*ledger, st, t_idx as int));
                if self.spec_tournaments()[t_idx as int].is_active {
                    lemma_escrowed_covers(self.spec_bets(), bet as int, t_idx as int);
                }
            }
            let tr = ledger.transfer(mint, a, Addr::Key(b.user), &pa, b.amount);
            if tr.is_err() {
                // the tournament has closed and its escrow was already swept
                proof {
                    assert(!self.spec_tournaments()[t_idx as int].is_active);
                }
                return Err(TournamentError::InsufficientTokenBalance);
            }
            self.bets[bet] = Bet { is_settled: true, is_winner: true, ..b };
            proof {
                assert(self.spec_state() == old(self).spec_state());
                assert(self.spec_tournaments() == old(self).spec_tournaments());
                assert(self.spec_rounds() == old(self).spec_rounds());
                assert(self.spec_teams() == old(self).spec_teams());
                assert(self.spec_bets() =~= old(self).spec_bets().update(
                    bet as int,
                    (Bet { is_settled: true, is_winner: true, ..b }),
                ));
                assert forall|t: int|
                    0 <= t < self.spec_tournaments().len() implies #[trigger] self.escrow_ok(
                    *ledger,
                    st,
                    t,
                ) by {
                    assert(old(self).escrow_ok(*old(ledger), st, t));
                    lemma_amounts_update(
                        old(self).spec_bets(),
                        bet as int,
                        (Bet { is_settled: true, is_winner: true, ..b }),
                        t,
                    );
                    if t != t_idx as int {
                        assert(self.spec_tournaments()[t].authority
                            != self.spec_tournaments()[t_idx as int].authority);
                    }
                }
            }
            Ok(())
        } else {
            self.bets[bet] = Bet { is_settled: true, is_winner: false, ..b };
            proof {
                assert(self.spec_state() == old(self).spec_state());
                assert(self.spec_tournaments() == old(self).spec_tournaments());
                assert(self.spec_rounds() == old(self).spec_rounds());
                assert(self.spec_teams() == old(self).spec_teams());
                assert(self.spec_bets() =~= old(self).spec_bets().update(
                    bet as int,
                    (Bet { is_settled: true, is_winner: false, ..b }),
                ));
                assert forall|t: int|
                    0 <= t < self.spec_tournaments().len() implies #[trigger] self.escrow_ok(
                    *ledger,
                    st,
                    t,
                ) by {
                    assert(old(self).escrow_ok(*old(ledger), st, t));
                    lemma_amounts_update(
                        old(self).spec_bets(),
                        bet as int,
                        (Bet { is_settled: true, is_winner: false, ..b }),
                        t,
                    );
                }
            }
            Ok(())
        }
    }

    /// Closes `tournament`, terminally: only its organizer may do so, and only
    /// while it is active, so a second attempt fails with
    /// `TournamentNotActive` and no second sweep occurs. The sweep runs under
    /// the tournament's derived authority: a collateralized tournament burns
    /// its whole accounting-token escrow (the stakes never paid out) and
    /// returns the locked collateral to the organizer; a plain tournament
    /// transfers its whole wagering-token escrow — the forfeited stakes — to
    /// the organizer, the residual claimant.
    pub fn close_tournament(&mut self, ledger: &mut Ledger, authority: u64, tournament: usize) -> (r:
        Result<(), TournamentError>)
        requires
            old(self).wf(),
            old(self).spec_state() is Some,
            tournament < old(self).spec_tournaments().len(),
            old(ledger).wf(),
            old(self).consistent(*old(ledger)),
        ensures
            final(self).wf(),
            final(ledger).wf(),
            final(self).consistent(*final(ledger)),
            final(self).spec_state() == old(self).spec_state(),
            final(self).spec_rounds() == old(self).spec_rounds(),
            final(self).spec_teams() == old(self).spec_teams(),
            final(self).spec_bets() == old(self).spec_bets(),
            r is Err ==> *final(self) == *old(self) && *final(ledger) == *old(ledger),
            ({
                let st = old(self).spec_state()->0;
                let tour = old(self).spec_tournaments()[tournament as int];
                let a = tour.spec_addr();
                let owed = escrowed_in(old(self).spec_bets(), tournament as int);
                &&& (authority != tour.authority ==> r == Err::<(), TournamentError>(
                    TournamentError::InvalidTournamentAuthority,
                ))
                &&& (authority == tour.authority && !tour.is_active ==> r == Err::<
                    (),
                    TournamentError,
                >(TournamentError::TournamentNotActive))
                &&& (r is Ok <==> authority == tour.authority && tour.is_active)
                &&& (r is Ok ==> final(self).spec_tournaments() == old(
                    self,
                ).spec_tournaments().update(
                    tournament as int,
                    (Tournament { is_active: false, ..tour }),
                ))
                &&& (r is Ok ==> final(ledger).spec_balance(a, st.wanzi_mint) == 0
                    && final(ledger).spec_balance(a, st.matchp_mint) == 0
                    && final(ledger).spec_balance(a, st.vote_mint) == 0)
                &&& (r is Ok && tour.is_staked ==> {
                    &&& final(ledger).spec_supply(st.vote_mint) == old(ledger).spec_supply(
                        st.vote_mint,
                    ) - owed
                    &&& final(ledger).spec_balance(Addr::Key(authority), st.matchp_mint) == old(
                        ledger,
                    ).spec_balance(Addr::Key(authority), st.matchp_mint) + tour.stake_amount
                    &&& forall|h: Addr, m: u64|
                        !(h == a && m == st.vote_mint) && !(h == a && m == st.matchp_mint) && !(h
                            == Addr::Key(authority) && m == st.matchp_mint)
                            ==> final(ledger).spec_balance(h, m) == old(ledger).spec_balance(h, m)
                    &&& forall|m: u64|
                        m != st.vote_mint ==> final(ledger).spec_supply(m) == old(
                            ledger,
                        ).spec_supply(m)
                })
                &&& (r is Ok && !tour.is_staked ==> {
                    &&& final(ledger).spec_balance(Addr::Key(authority), st.wanzi_mint) == old(
                        ledger,
                    ).spec_balance(Addr::Key(authority), st.wanzi_mint) + owed
                    &&& forall|h: Addr, m: u64|
                        !(h == a && m == st.wanzi_mint) && !(h == Addr::Key(authority) && m
                            == st.wanzi_mint)
                            ==> final(ledger).spec_balance(h, m) == old(ledger).spec_balance(h, m)
                    &&& forall|m: u64| final(ledger).spec_supply(m) == old(ledger).spec_supply(m)
                })
            }),
            forall|m: u64|
                final(ledger).spec_mint_authority(m) == old(ledger).spec_mint_authority(m),
    {
        if self.tournaments[tournament].authority != authority {
            return Err(TournamentError::InvalidTournamentAuthority);
        }
        if !self.tournaments[tournament].is_active {
            return Err(TournamentError::TournamentNotActive);
        }
        let st = self.state.unwrap();
        let a = self.tournaments[tournament].addr();
        let pa = Authority::Derived(
            derive_authority(TOURNAMENT_TAG, authority, self.tournaments[tournament].bump),
        );
        let staked = self.tournaments[tournament].is_staked;
        let stake_amount = self.tournaments[tournament].stake_amount;
        proof {
            assert(self.escrow_ok(*ledger, st, tournament as int));
        }
        if staked {
            // burn every accounting token left in escrow, then return the
            // collateral to the organizer
            let vote_bal = ledger.balance_of(a, st.vote_mint);
            let br = ledger.burn(st.vote_mint, a, &pa, vote_bal);
            proof {
                assert(br is Ok);
            }
            let tr = ledger.transfer(
                st.matchp_mint,
                a,
                Addr::Key(authority),
                &pa,
                stake_amount,
            );
            proof {
                assert(tr is Ok);
            }
        } else {
            // sweep the whole wagering-token escrow back to the organizer
            let wanzi_bal = ledger.balance_of(a, st.wanzi_mint);
            let tr = ledger.transfer(st.wanzi_mint, a, Addr::Key(authority), &pa, wanzi_bal);
            proof {
                assert(tr is Ok);
            }
        }
        let t_name = self.tournaments[tournament].name.clone();
        let t_created = self.tournaments[tournament].created_at;
        let t_bump = self.tournaments[tournament].bump;
        self.tournaments[tournament] = Tournament {
            authority,
            name: t_name,
            stake_amount,
            is_active: false,
            is_staked: staked,
            created_at: t_created,
            bump: t_bump,
        };
        proof {
            assert(self.spec_state() == old(self).spec_state());
            assert(self.spec_rounds() == old(self).spec_rounds());
            assert(self.spec_teams() == old(self).spec_teams());
            assert(self.spec_bets() == old(self).spec_bets());
            assert(self.spec_tournaments() =~= old(self).spec_tournaments().update(
                tournament as int,
                (Tournament {
                    is_active: false,
                    ..old(self).spec_tournaments()[tournament as int]
                }),
            ));
            assert forall|t: int|
                0 <= t < self.spec_tournaments().len() implies #[trigger] self.escrow_ok(
                *ledger,
                st,
                t,
            ) by {
                assert(old(self).escrow_ok(*old(ledger), st, t));
                if t != tournament as int {
                    assert(self.spec_tournaments()[t].authority
                        != self.spec_tournaments()[tournament as int].authority);
                }
            }
        }
        Ok(())
    }
}

} // verus!
