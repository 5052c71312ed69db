use tournament_betting::addr::Addr;
use tournament_betting::addr::Authority;
use tournament_betting::engine::BettingSystem;
use tournament_betting::errors::TournamentError;
use tournament_betting::faucet::Faucet;
use tournament_betting::ledger::Ledger;

// A tournament with one completed round: "Ace" won, "Joker" lost. Bettor 200
// staked 100 on the winner, bettor 201 staked 40 on the loser.
fn played_out(
    stake: u64,
) -> (Ledger, BettingSystem, usize, usize, usize, usize, usize, usize) {
    let mut ledger = Ledger::new();
    ledger.create_mint(10, Addr::Key(1)).unwrap();
    ledger.create_mint(11, Addr::Key(1)).unwrap();
    ledger.create_mint(12, Addr::Key(1)).unwrap();
    let mut faucet = Faucet::initialize(1, 10, 11);
    faucet.mint_tokens(&mut ledger);
    faucet.claim_tokens(&mut ledger, 1, 100).unwrap();
    faucet.claim_tokens(&mut ledger, 1, 200).unwrap();
    faucet.claim_tokens(&mut ledger, 1, 201).unwrap();
    let mut sys = BettingSystem::new();
    sys.initialize(1, 10, 11, 12, 99).unwrap();
    let t = sys
        .create_tournament(&mut ledger, 100, String::from("Cup"), stake, &Authority::Signature(1), 1)
        .unwrap();
    if stake > 0 {
        // the organizer passes accounting tokens on so both bettors can wager
        ledger
            .transfer(12, Addr::Key(100), Addr::Key(200), &Authority::Signature(100), 200)
            .unwrap();
        ledger
            .transfer(12, Addr::Key(100), Addr::Key(201), &Authority::Signature(100), 200)
            .unwrap();
    }
    let r = sys
        .create_tournament_round(100, t, String::from("Final"), 0, 2)
        .unwrap();
    let ace = sys.create_team(100, r, String::from("Ace")).unwrap();
    let joker = sys.create_team(100, r, String::from("Joker")).unwrap();
    let b_win = sys.place_bet(&mut ledger, 200, r, ace, 100, 3).unwrap();
    let b_lose = sys.place_bet(&mut ledger, 201, r, joker, 40, 4).unwrap();
    sys.complete_round(100, r, ace).unwrap();
    (ledger, sys, t, r, ace, b_win, b_lose, joker)
}

#[test]
fn settling_twice_fails_and_pays_once() {
    let (mut ledger, mut sys, _t, r, ace, b_win, _b_lose, _joker) = played_out(0);
    sys.settle_bet(&mut ledger, r, ace, b_win).unwrap();
    let paid = ledger.balance_of(Addr::Key(200), 10);
    assert_eq!(paid, 100_000_000_000);

    // the second settlement fails and performs no transfer
    let res = sys.settle_bet(&mut ledger, r, ace, b_win);
    assert_eq!(res, Err(TournamentError::BetAlreadySettled));
    assert_eq!(ledger.balance_of(Addr::Key(200), 10), paid);
    assert!(sys.get_bet(b_win).unwrap().is_settled);
}

#[test]
fn one_winner_per_round() {
    let (_ledger, sys, _t, _r, ace, _b_win, _b_lose, joker) = played_out(0);
    assert!(sys.get_team(ace).unwrap().is_winner);
    assert!(!sys.get_team(joker).unwrap().is_winner);
    let mut winners = 0;
    for i in 0..sys.team_count() {
        if sys.get_team(i).unwrap().is_winner {
            winners += 1;
        }
    }
    assert_eq!(winners, 1);
}

#[test]
fn collateralized_bets_move_the_accounting_token() {
    let (ledger, sys, t, _r, _ace, _b_win, _b_lose, _joker) = played_out(1000);
    let escrow = sys.get_tournament(t).unwrap().addr();
    // both stakes sit in the accounting-token escrow; the wagering-token
    // escrow was never touched
    assert_eq!(ledger.balance_of(escrow, 12), 140);
    assert_eq!(ledger.balance_of(escrow, 10), 0);
    assert_eq!(ledger.balance_of(escrow, 11), 1000);
    // the bettors paid in the accounting token, not the wagering token
    assert_eq!(ledger.balance_of(Addr::Key(200), 12), 100);
    assert_eq!(ledger.balance_of(Addr::Key(200), 10), 100_000_000_000);
}

#[test]
fn conservation_across_a_tournament() {
    let (mut ledger, mut sys, t, r, ace, b_win, b_lose, _joker) = played_out(0);
    let escrow = sys.get_tournament(t).unwrap().addr();
    // placed 140 == escrowed 140, nothing paid yet
    assert_eq!(ledger.balance_of(escrow, 10), 140);
    sys.settle_bet(&mut ledger, r, ace, b_win).unwrap();
    sys.settle_bet(&mut ledger, r, ace, b_lose).unwrap();
    // placed 140 == paid 100 + escrowed 40
    assert_eq!(ledger.balance_of(escrow, 10), 40);
    let organizer_before = ledger.balance_of(Addr::Key(100), 10);
    sys.close_tournament(&mut ledger, 100, t).unwrap();
    // the sweep pays the organizer exactly the forfeited 40
    assert_eq!(ledger.balance_of(Addr::Key(100), 10), organizer_before + 40);
    assert_eq!(ledger.balance_of(escrow, 10), 0);
}

#[test]
fn collateral_returns_and_accounting_tokens_burn_at_close() {
    let (mut ledger, mut sys, t, r, ace, b_win, b_lose, _joker) = played_out(1000);
    let escrow = sys.get_tournament(t).unwrap().addr();
    sys.settle_bet(&mut ledger, r, ace, b_win).unwrap();
    sys.settle_bet(&mut ledger, r, ace, b_lose).unwrap();
    let organizer_matchp = ledger.balance_of(Addr::Key(100), 11);
    let vote_supply = ledger.supply_of(12);
    sys.close_tournament(&mut ledger, 100, t).unwrap();
    // the full collateral comes back and the forfeited 40 accounting tokens
    // are burned out of circulation
    assert_eq!(ledger.balance_of(Addr::Key(100), 11), organizer_matchp + 1000);
    assert_eq!(ledger.supply_of(12), vote_supply - 40);
    assert_eq!(ledger.balance_of(escrow, 11), 0);
    assert_eq!(ledger.balance_of(escrow, 12), 0);
}

#[test]
fn closing_twice_fails_without_a_second_sweep() {
    let (mut ledger, mut sys, t, _r, _ace, _b_win, _b_lose, _joker) = played_out(0);
    sys.close_tournament(&mut ledger, 100, t).unwrap();
    let organizer = ledger.balance_of(Addr::Key(100), 10);
    let res = sys.close_tournament(&mut ledger, 100, t);
    assert_eq!(res, Err(TournamentError::TournamentNotActive));
    assert_eq!(ledger.balance_of(Addr::Key(100), 10), organizer);
}

#[test]
fn winning_bet_cannot_be_paid_after_closure() {
    let (mut ledger, mut sys, t, r, ace, b_win, b_lose, _joker) = played_out(0);
    sys.close_tournament(&mut ledger, 100, t).unwrap();
    // the escrow was swept, so the winner's payout fails and the bet stays
    // unsettled
    let res = sys.settle_bet(&mut ledger, r, ace, b_win);
    assert_eq!(res, Err(TournamentError::InsufficientTokenBalance));
    assert!(!sys.get_bet(b_win).unwrap().is_settled);
    // a losing bet still settles: it moves no funds
    sys.settle_bet(&mut ledger, r, ace, b_lose).unwrap();
    assert!(sys.get_bet(b_lose).unwrap().is_settled);
    assert!(!sys.get_bet(b_lose).unwrap().is_winner);
}

#[test]
fn settlement_requires_a_completed_matching_round() {
    let mut ledger = Ledger::new();
    ledger.create_mint(10, Addr::Key(1)).unwrap();
    ledger.create_mint(11, Addr::Key(1)).unwrap();
    ledger.create_mint(12, Addr::Key(1)).unwrap();
    let mut faucet = Faucet::initialize(1, 10, 11);
    faucet.mint_tokens(&mut ledger);
    faucet.claim_tokens(&mut ledger, 1, 200).unwrap();
    let mut sys = BettingSystem::new();
    sys.initialize(1, 10, 11, 12, 99).unwrap();
    let t = sys
        .create_tournament(&mut ledger, 100, String::from("Cup"), 0, &Authority::Signature(1), 1)
        .unwrap();
    let r0 = sys
        .create_tournament_round(100, t, String::from("Semi"), 0, 2)
        .unwrap();
    let r1 = sys
        .create_tournament_round(100, t, String::from("Final"), 1, 3)
        .unwrap();
    let a0 = sys.create_team(100, r0, String::from("Ace")).unwrap();
    let b0 = sys.create_team(100, r0, String::from("Joker")).unwrap();
    let a1 = sys.create_team(100, r1, String::from("Ace")).unwrap();
    let bet = sys.place_bet(&mut ledger, 200, r0, a0, 10, 4).unwrap();

    // the round has not completed yet
    let res = sys.settle_bet(&mut ledger, r0, a0, bet);
    assert_eq!(res, Err(TournamentError::RoundNotCompleted));

    sys.complete_round(100, r0, a0).unwrap();
    sys.complete_round(100, r1, a1).unwrap();

    // the bet does not belong to the other round
    let res = sys.settle_bet(&mut ledger, r1, a1, bet);
    assert_eq!(res, Err(TournamentError::BetNotInRound));

    // the named winner team must compete in the bet's round
    let res = sys.settle_bet(&mut ledger, r0, a1, bet);
    assert_eq!(res, Err(TournamentError::TeamNotInRound));

    // the named team must actually be the round's winner
    let res = sys.settle_bet(&mut ledger, r0, b0, bet);
    assert_eq!(res, Err(TournamentError::InvalidTeam));

    sys.settle_bet(&mut ledger, r0, a0, bet).unwrap();
    assert!(sys.get_bet(bet).unwrap().is_winner);
}
