use tournament_betting::addr::Addr;
use tournament_betting::addr::Authority;
use tournament_betting::engine::BettingSystem;
use tournament_betting::errors::TournamentError;
use tournament_betting::faucet::Faucet;
use tournament_betting::ledger::Ledger;

// Addresses used throughout: admin key 1 holds all three mint authorities,
// organizer key 100, bettors 200 and 201. Mints: wanzi 10, matchp 11, vote 12.

fn setup() -> (Ledger, BettingSystem, Faucet) {
    let mut ledger = Ledger::new();
    ledger.create_mint(10, Addr::Key(1)).unwrap();
    ledger.create_mint(11, Addr::Key(1)).unwrap();
    ledger.create_mint(12, Addr::Key(1)).unwrap();
    let faucet = Faucet::initialize(1, 10, 11);
    faucet.mint_tokens(&mut ledger);
    let mut sys = BettingSystem::new();
    sys.initialize(1, 10, 11, 12, 99).unwrap();
    (ledger, sys, faucet)
}

#[test]
fn scenario_non_collateralized_cup() {
    let (mut ledger, mut sys, mut faucet) = setup();
    faucet.claim_tokens(&mut ledger, 1, 200).unwrap();
    faucet.claim_tokens(&mut ledger, 1, 201).unwrap();

    // organizer creates the tournament "Cup" with collateral 0
    let t = sys
        .create_tournament(&mut ledger, 100, String::from("Cup"), 0, &Authority::Signature(1), 50)
        .unwrap();
    let tour = sys.get_tournament(t).unwrap();
    assert!(tour.is_active);
    assert!(!tour.is_staked);
    assert_eq!(tour.stake_amount, 0);
    let escrow = sys.get_tournament(t).unwrap().addr();

    // round 0 "Final" with teams "Red" and "Blue"
    let r = sys
        .create_tournament_round(100, t, String::from("Final"), 0, 51)
        .unwrap();
    let red = sys.create_team(100, r, String::from("Red")).unwrap();
    let blue = sys.create_team(100, r, String::from("Blue")).unwrap();

    // two bets in the wagering token
    let b1 = sys.place_bet(&mut ledger, 200, r, red, 100, 52).unwrap();
    let b2 = sys.place_bet(&mut ledger, 201, r, blue, 50, 53).unwrap();
    assert_eq!(ledger.balance_of(escrow, 10), 150);
    assert_eq!(ledger.balance_of(Addr::Key(200), 10), 100_000_000_000 - 100);
    assert_eq!(ledger.balance_of(Addr::Key(201), 10), 100_000_000_000 - 50);

    // organizer completes the round naming "Red" winner
    sys.complete_round(100, r, red).unwrap();
    assert!(sys.get_team(red).unwrap().is_winner);
    assert!(!sys.get_team(blue).unwrap().is_winner);
    assert!(sys.get_round(r).unwrap().is_completed);

    // settling bettor1's bet pays 100 back and marks it a winner
    sys.settle_bet(&mut ledger, r, red, b1).unwrap();
    assert_eq!(ledger.balance_of(Addr::Key(200), 10), 100_000_000_000);
    let bet1 = sys.get_bet(b1).unwrap();
    assert!(bet1.is_settled);
    assert!(bet1.is_winner);

    // settling bettor2's bet pays nothing and marks it a loser
    sys.settle_bet(&mut ledger, r, red, b2).unwrap();
    assert_eq!(ledger.balance_of(Addr::Key(201), 10), 100_000_000_000 - 50);
    let bet2 = sys.get_bet(b2).unwrap();
    assert!(bet2.is_settled);
    assert!(!bet2.is_winner);
    assert_eq!(ledger.balance_of(escrow, 10), 50);

    // closing sweeps the forfeited 50 to the organizer
    sys.close_tournament(&mut ledger, 100, t).unwrap();
    assert_eq!(ledger.balance_of(Addr::Key(100), 10), 50);
    assert_eq!(ledger.balance_of(escrow, 10), 0);
    assert!(!sys.get_tournament(t).unwrap().is_active);
}

#[test]
fn scenario_collateralized_tournament() {
    let (mut ledger, mut sys, mut faucet) = setup();
    faucet.claim_tokens(&mut ledger, 1, 100).unwrap();

    // organizer locks 1000 matchp and receives 1000 vote
    let t = sys
        .create_tournament(
            &mut ledger,
            100,
            String::from("Staked"),
            1000,
            &Authority::Signature(1),
            60,
        )
        .unwrap();
    let tour = sys.get_tournament(t).unwrap();
    assert!(tour.is_staked);
    let escrow = sys.get_tournament(t).unwrap().addr();
    assert_eq!(ledger.balance_of(Addr::Key(100), 11), 100_000_000_000 - 1000);
    assert_eq!(ledger.balance_of(escrow, 11), 1000);
    assert_eq!(ledger.balance_of(Addr::Key(100), 12), 1000);

    let r = sys
        .create_tournament_round(100, t, String::from("Semi"), 0, 61)
        .unwrap();
    let team = sys.create_team(100, r, String::from("Ace")).unwrap();

    // a bet above the bettor's accounting-token balance fails and leaves no
    // bet record
    let bets_before = sys.bet_count();
    let res = sys.place_bet(&mut ledger, 200, r, team, 5, 62);
    assert_eq!(res, Err(TournamentError::InsufficientTokenBalance));
    assert_eq!(sys.bet_count(), bets_before);
    assert_eq!(ledger.balance_of(escrow, 12), 0);
}

#[test]
fn scenario_completed_round_rejects_changes() {
    let (mut ledger, mut sys, mut faucet) = setup();
    faucet.claim_tokens(&mut ledger, 1, 200).unwrap();

    let t = sys
        .create_tournament(&mut ledger, 100, String::from("Cup"), 0, &Authority::Signature(1), 70)
        .unwrap();
    let r = sys
        .create_tournament_round(100, t, String::from("Final"), 0, 71)
        .unwrap();
    let red = sys.create_team(100, r, String::from("Red")).unwrap();
    let blue = sys.create_team(100, r, String::from("Blue")).unwrap();
    sys.complete_round(100, r, red).unwrap();

    // creating a team on a completed round fails
    let res = sys.create_team(100, r, String::from("Green"));
    assert_eq!(res, Err(TournamentError::RoundNotActive));

    // completing the round a second time fails too
    let res = sys.complete_round(100, r, blue);
    assert_eq!(res, Err(TournamentError::RoundNotActive));
    assert!(!sys.get_team(blue).unwrap().is_winner);
}
