use tournament_betting::addr::Addr;
use tournament_betting::addr::Authority;
use tournament_betting::addr::AuthorityProof;
use tournament_betting::addr::derive_authority;
use tournament_betting::addr::verify_authority;
use tournament_betting::ledger::BurnError;
use tournament_betting::ledger::Ledger;
use tournament_betting::ledger::MintError;
use tournament_betting::ledger::TransferError;

fn funded_ledger() -> Ledger {
    let mut ledger = Ledger::new();
    ledger.create_mint(7, Addr::Key(1)).unwrap();
    ledger
        .mint_to(7, Addr::Key(2), &Authority::Signature(1), 500)
        .unwrap();
    ledger
}

#[test]
fn transfer_moves_exactly_the_amount() {
    let mut ledger = funded_ledger();
    ledger
        .transfer(7, Addr::Key(2), Addr::Key(3), &Authority::Signature(2), 120)
        .unwrap();
    assert_eq!(ledger.balance_of(Addr::Key(2), 7), 380);
    assert_eq!(ledger.balance_of(Addr::Key(3), 7), 120);
    assert_eq!(ledger.supply_of(7), 500);
}

#[test]
fn transfer_fails_on_insufficient_funds() {
    let mut ledger = funded_ledger();
    let res = ledger.transfer(7, Addr::Key(2), Addr::Key(3), &Authority::Signature(2), 501);
    assert_eq!(res, Err(TransferError::InsufficientFunds));
    assert_eq!(ledger.balance_of(Addr::Key(2), 7), 500);
    assert_eq!(ledger.balance_of(Addr::Key(3), 7), 0);
}

#[test]
fn transfer_requires_the_holder_signature() {
    let mut ledger = funded_ledger();
    let res = ledger.transfer(7, Addr::Key(2), Addr::Key(3), &Authority::Signature(3), 10);
    assert_eq!(res, Err(TransferError::NotAuthorized));
    assert_eq!(ledger.balance_of(Addr::Key(2), 7), 500);
}

#[test]
fn derived_accounts_cannot_be_spent_with_a_signature() {
    let mut ledger = funded_ledger();
    let escrow = Addr::Derived(1, 9, 255);
    ledger
        .transfer(7, Addr::Key(2), escrow, &Authority::Signature(2), 200)
        .unwrap();
    // no signature moves funds out of a derived address
    let res = ledger.transfer(7, escrow, Addr::Key(2), &Authority::Signature(9), 200);
    assert_eq!(res, Err(TransferError::NotAuthorized));
    // only the recomputed derivation does
    let proof = derive_authority(1, 9, 255);
    ledger
        .transfer(7, escrow, Addr::Key(2), &Authority::Derived(proof), 200)
        .unwrap();
    assert_eq!(ledger.balance_of(Addr::Key(2), 7), 500);
    assert_eq!(ledger.balance_of(escrow, 7), 0);
}

#[test]
fn authority_verification_recomputes_the_derivation() {
    let proof = derive_authority(4, 11, 7);
    assert_eq!(proof, AuthorityProof { tag: 4, entity: 11, seed: 7 });
    assert!(verify_authority(&Authority::Derived(proof), &Addr::Derived(4, 11, 7)));
    assert!(!verify_authority(&Authority::Derived(proof), &Addr::Derived(4, 11, 8)));
    assert!(!verify_authority(&Authority::Derived(proof), &Addr::Key(11)));
    assert!(verify_authority(&Authority::Signature(5), &Addr::Key(5)));
    assert!(!verify_authority(&Authority::Signature(5), &Addr::Derived(4, 5, 0)));
}

#[test]
fn self_transfer_changes_nothing() {
    let mut ledger = funded_ledger();
    ledger
        .transfer(7, Addr::Key(2), Addr::Key(2), &Authority::Signature(2), 100)
        .unwrap();
    assert_eq!(ledger.balance_of(Addr::Key(2), 7), 500);
    assert_eq!(ledger.supply_of(7), 500);
}

#[test]
fn minting_requires_the_registered_mint() {
    let mut ledger = funded_ledger();
    let res = ledger.mint_to(8, Addr::Key(2), &Authority::Signature(1), 10);
    assert_eq!(res, Err(MintError::UnknownMint));
}

#[test]
fn minting_requires_the_issuing_authority() {
    let mut ledger = funded_ledger();
    let res = ledger.mint_to(7, Addr::Key(2), &Authority::Signature(2), 10);
    assert_eq!(res, Err(MintError::NotAuthorized));
    assert_eq!(ledger.supply_of(7), 500);
}

#[test]
fn minting_cannot_overflow_the_supply() {
    let mut ledger = funded_ledger();
    let res = ledger.mint_to(7, Addr::Key(2), &Authority::Signature(1), u64::MAX - 499);
    assert_eq!(res, Err(MintError::SupplyOverflow));
    assert_eq!(ledger.supply_of(7), 500);
    ledger
        .mint_to(7, Addr::Key(2), &Authority::Signature(1), u64::MAX - 500)
        .unwrap();
    assert_eq!(ledger.supply_of(7), u64::MAX);
}

#[test]
fn duplicate_mint_registration_fails() {
    let mut ledger = funded_ledger();
    let res = ledger.create_mint(7, Addr::Key(2));
    assert_eq!(res, Err(MintError::MintAlreadyExists));
}

#[test]
fn burning_shrinks_balance_and_supply() {
    let mut ledger = funded_ledger();
    ledger
        .burn(7, Addr::Key(2), &Authority::Signature(2), 60)
        .unwrap();
    assert_eq!(ledger.balance_of(Addr::Key(2), 7), 440);
    assert_eq!(ledger.supply_of(7), 440);
}

#[test]
fn burning_more_than_held_fails() {
    let mut ledger = funded_ledger();
    let res = ledger.burn(7, Addr::Key(2), &Authority::Signature(2), 501);
    assert_eq!(res, Err(BurnError::InsufficientFunds));
    let res = ledger.burn(7, Addr::Key(2), &Authority::Signature(1), 1);
    assert_eq!(res, Err(BurnError::NotAuthorized));
    assert_eq!(ledger.supply_of(7), 500);
}
