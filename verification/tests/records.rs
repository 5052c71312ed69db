use tournament_betting::addr::Addr;
use tournament_betting::addr::Authority;
use tournament_betting::engine::BettingSystem;
use tournament_betting::entities::TOURNAMENT_TAG;
use tournament_betting::errors::TournamentError;
use tournament_betting::faucet::Faucet;
use tournament_betting::ledger::Ledger;

fn setup() -> (Ledger, BettingSystem, Faucet) {
    let mut ledger = Ledger::new();
    ledger.create_mint(10, Addr::Key(1)).unwrap();
    ledger.create_mint(11, Addr::Key(1)).unwrap();
    ledger.create_mint(12, Addr::Key(1)).unwrap();
    let faucet = Faucet::initialize(1, 10, 11);
    faucet.mint_tokens(&mut ledger);
    let mut sys = BettingSystem::new();
    sys.initialize(1, 10, 11, 12, 99).unwrap();
    (ledger, sys, faucet)
}

#[test]
fn initialization_happens_once() {
    let (_ledger, mut sys, _faucet) = setup();
    let res = sys.initialize(2, 20, 21, 22, 99);
    assert_eq!(res, Err(TournamentError::AccountAlreadyInUse));
    let st = sys.get_state().unwrap();
    assert_eq!(st.authority, 1);
    assert_eq!(st.wanzi_mint, 10);
}

#[test]
fn initialization_rejects_equal_mints() {
    let mut sys = BettingSystem::new();
    let res = sys.initialize(1, 10, 10, 12, 99);
    assert_eq!(res, Err(TournamentError::InvalidTokenAccount));
    assert!(sys.get_state().is_none());
}

#[test]
fn faucet_address_updates_are_admin_only() {
    let (_ledger, mut sys, _faucet) = setup();
    let res = sys.update_token_faucet_address(2, 123);
    assert_eq!(res, Err(TournamentError::InvalidTournamentAuthority));
    sys.update_token_faucet_address(1, 123).unwrap();
    assert_eq!(sys.get_state().unwrap().token_faucet_program_id, 123);
}

#[test]
fn one_tournament_per_organizer() {
    let (mut ledger, mut sys, _faucet) = setup();
    sys.create_tournament(&mut ledger, 100, String::from("Cup"), 0, &Authority::Signature(1), 1)
        .unwrap();
    let res = sys.create_tournament(
        &mut ledger,
        100,
        String::from("Another"),
        0,
        &Authority::Signature(1),
        2,
    );
    assert_eq!(res, Err(TournamentError::AccountAlreadyInUse));
    assert_eq!(sys.tournament_count(), 1);
}

#[test]
fn tournament_rejects_prefunded_escrow() {
    let (mut ledger, mut sys, mut faucet) = setup();
    faucet.claim_tokens(&mut ledger, 1, 2).unwrap();
    // someone seeds the would-be escrow address before the record exists
    let escrow = Addr::Derived(TOURNAMENT_TAG, 100, 255);
    ledger
        .transfer(10, Addr::Key(2), escrow, &Authority::Signature(2), 5)
        .unwrap();
    let res = sys.create_tournament(
        &mut ledger,
        100,
        String::from("Cup"),
        0,
        &Authority::Signature(1),
        1,
    );
    assert_eq!(res, Err(TournamentError::InvalidTokenAccount));
    assert_eq!(sys.tournament_count(), 0);
}

#[test]
fn collateral_requires_funds_and_mint_authority() {
    let (mut ledger, mut sys, mut faucet) = setup();
    // organizer 100 has no collateral token yet
    let res = sys.create_tournament(
        &mut ledger,
        100,
        String::from("Staked"),
        1000,
        &Authority::Signature(1),
        1,
    );
    assert_eq!(res, Err(TournamentError::InsufficientTokenBalance));

    faucet.claim_tokens(&mut ledger, 1, 100).unwrap();
    // a caller who does not hold the accounting token's issuing authority
    // cannot collateralize
    let res = sys.create_tournament(
        &mut ledger,
        100,
        String::from("Staked"),
        1000,
        &Authority::Signature(100),
        1,
    );
    assert_eq!(res, Err(TournamentError::InvalidTokenAccount));
    assert_eq!(sys.tournament_count(), 0);

    sys.create_tournament(&mut ledger, 100, String::from("Staked"), 1000, &Authority::Signature(1), 1)
        .unwrap();
    assert_eq!(sys.tournament_count(), 1);
}

#[test]
fn round_creation_is_guarded() {
    let (mut ledger, mut sys, _faucet) = setup();
    let t = sys
        .create_tournament(&mut ledger, 100, String::from("Cup"), 0, &Authority::Signature(1), 1)
        .unwrap();
    // only the organizer creates rounds
    let res = sys.create_tournament_round(2, t, String::from("Final"), 0, 2);
    assert_eq!(res, Err(TournamentError::InvalidTournamentAuthority));
    sys.create_tournament_round(100, t, String::from("Final"), 0, 2).unwrap();
    // one round per ordinal
    let res = sys.create_tournament_round(100, t, String::from("Replay"), 0, 3);
    assert_eq!(res, Err(TournamentError::AccountAlreadyInUse));
    // none after closure
    sys.close_tournament(&mut ledger, 100, t).unwrap();
    let res = sys.create_tournament_round(100, t, String::from("Late"), 1, 4);
    assert_eq!(res, Err(TournamentError::TournamentNotActive));
}

#[test]
fn team_names_are_unique_per_round() {
    let (mut ledger, mut sys, _faucet) = setup();
    let t = sys
        .create_tournament(&mut ledger, 100, String::from("Cup"), 0, &Authority::Signature(1), 1)
        .unwrap();
    let r0 = sys
        .create_tournament_round(100, t, String::from("Semi"), 0, 2)
        .unwrap();
    let r1 = sys
        .create_tournament_round(100, t, String::from("Final"), 1, 3)
        .unwrap();
    sys.create_team(100, r0, String::from("Red")).unwrap();
    let res = sys.create_team(100, r0, String::from("Red"));
    assert_eq!(res, Err(TournamentError::AccountAlreadyInUse));
    // the same name in another round is a different key
    sys.create_team(100, r1, String::from("Red")).unwrap();
    let res = sys.create_team(2, r1, String::from("Blue"));
    assert_eq!(res, Err(TournamentError::InvalidTournamentAuthority));
}

#[test]
fn eliminated_teams_take_no_bets() {
    let (mut ledger, mut sys, mut faucet) = setup();
    faucet.claim_tokens(&mut ledger, 1, 200).unwrap();
    let t = sys
        .create_tournament(&mut ledger, 100, String::from("Cup"), 0, &Authority::Signature(1), 1)
        .unwrap();
    let r = sys
        .create_tournament_round(100, t, String::from("Final"), 0, 2)
        .unwrap();
    let red = sys.create_team(100, r, String::from("Red")).unwrap();
    let res = sys.eliminate_team(2, red);
    assert_eq!(res, Err(TournamentError::InvalidTournamentAuthority));
    sys.eliminate_team(100, red).unwrap();
    assert!(sys.get_team(red).unwrap().is_eliminated);
    let res = sys.place_bet(&mut ledger, 200, r, red, 10, 3);
    assert_eq!(res, Err(TournamentError::TeamEliminated));
    assert_eq!(sys.bet_count(), 0);
}

#[test]
fn bets_are_checked_against_round_and_team() {
    let (mut ledger, mut sys, mut faucet) = setup();
    faucet.claim_tokens(&mut ledger, 1, 200).unwrap();
    let t = sys
        .create_tournament(&mut ledger, 100, String::from("Cup"), 0, &Authority::Signature(1), 1)
        .unwrap();
    let r0 = sys
        .create_tournament_round(100, t, String::from("Semi"), 0, 2)
        .unwrap();
    let r1 = sys
        .create_tournament_round(100, t, String::from("Final"), 1, 3)
        .unwrap();
    let red = sys.create_team(100, r0, String::from("Red")).unwrap();
    let blue = sys.create_team(100, r1, String::from("Blue")).unwrap();
    // a bet must name a team competing in the named round
    let res = sys.place_bet(&mut ledger, 200, r1, red, 10, 4);
    assert_eq!(res, Err(TournamentError::TeamNotInRound));
    // completing a round with a team from another round fails
    let res = sys.complete_round(100, r0, blue);
    assert_eq!(res, Err(TournamentError::TeamNotInRound));
    // a bet on a completed round's teams fails
    sys.complete_round(100, r0, red).unwrap();
    let res = sys.place_bet(&mut ledger, 200, r0, red, 10, 5);
    assert_eq!(res, Err(TournamentError::RoundNotActive));
    // a bet after closure fails on the tournament check
    sys.close_tournament(&mut ledger, 100, t).unwrap();
    let res = sys.place_bet(&mut ledger, 200, r1, blue, 10, 6);
    assert_eq!(res, Err(TournamentError::TournamentNotActive));
}

#[test]
fn closing_is_organizer_only() {
    let (mut ledger, mut sys, _faucet) = setup();
    let t = sys
        .create_tournament(&mut ledger, 100, String::from("Cup"), 0, &Authority::Signature(1), 1)
        .unwrap();
    let res = sys.close_tournament(&mut ledger, 2, t);
    assert_eq!(res, Err(TournamentError::InvalidTournamentAuthority));
    assert!(sys.get_tournament(t).unwrap().is_active);
}

#[test]
fn error_messages_match_the_taxonomy() {
    assert_eq!(TournamentError::TournamentNotActive.message(), "Tournament is not active");
    assert_eq!(TournamentError::RoundNotActive.message(), "Round is not active");
    assert_eq!(TournamentError::RoundNotCompleted.message(), "Round is not completed");
    assert_eq!(TournamentError::BetNotInRound.message(), "Bet is not in this round");
    assert_eq!(TournamentError::BetAlreadySettled.message(), "Bet is already settled");
    assert_eq!(TournamentError::InsufficientTokenBalance.message(), "Insufficient token balance");
    assert_eq!(TournamentError::TeamEliminated.message(), "Team is already eliminated");
    assert_eq!(TournamentError::TeamNotInRound.message(), "Team is not in this round");
    assert_eq!(TournamentError::InvalidTeam.message(), "Invalid team");
    assert_eq!(
        TournamentError::InvalidTournamentAuthority.message(),
        "Invalid tournament authority"
    );
}
