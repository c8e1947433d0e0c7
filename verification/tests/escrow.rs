use anchor_escrow::addr::derive_holding;
use anchor_escrow::addr::derive_record;
use anchor_escrow::addr::Address;
use anchor_escrow::errors::EscrowError;
use anchor_escrow::ledger::Ledger;

const ASSET_A: u64 = 1;
const ASSET_B: u64 = 2;

fn ident(tag: u8) -> Address {
    Address::new([tag; 32])
}

#[test]
fn derive_record_is_deterministic() {
    let maker = ident(1);
    let first = derive_record(&maker, 5).expect("derivation succeeds");
    let second = derive_record(&maker, 5).expect("derivation succeeds");
    assert_eq!(first.0.bytes, second.0.bytes);
    assert_eq!(first.1, second.1);
}

#[test]
fn derive_record_distinguishes_seeds_and_makers() {
    let maker = ident(1);
    let other = ident(2);
    let a = derive_record(&maker, 5).expect("derivation succeeds");
    let b = derive_record(&maker, 6).expect("derivation succeeds");
    let c = derive_record(&other, 5).expect("derivation succeeds");
    assert_ne!(a.0.bytes, b.0.bytes);
    assert_ne!(a.0.bytes, c.0.bytes);
    // the derivation really mixes its inputs: it does not echo the maker
    assert_ne!(a.0.bytes, maker.bytes);
}

#[test]
fn derive_holding_follows_record() {
    let maker = ident(1);
    let record = derive_record(&maker, 5).expect("derivation succeeds").0;
    let h1 = derive_holding(&record).expect("derivation succeeds");
    let h2 = derive_holding(&record).expect("derivation succeeds");
    assert_eq!(h1.bytes, h2.bytes);
    assert_ne!(h1.bytes, record.bytes);
}

#[test]
fn make_funds_holding_account() {
    let maker = ident(1);
    let mut ledger = Ledger::new();
    ledger.mint(&maker, ASSET_A, 100);
    let record = ledger.make(&maker, 1, ASSET_A, ASSET_B, 100, 50).unwrap();
    assert!(ledger.has_record(&record));
    assert!(ledger.has_holding(&record));
    assert_eq!(ledger.holding_amount(&record), 100);
    assert_eq!(ledger.balance_of(&maker, ASSET_A), 0);
}

#[test]
fn make_then_take_settles_the_swap() {
    let maker = ident(1);
    let taker = ident(2);
    let mut ledger = Ledger::new();
    ledger.mint(&maker, ASSET_A, 100);
    ledger.mint(&taker, ASSET_B, 50);
    let record = ledger.make(&maker, 1, ASSET_A, ASSET_B, 100, 50).unwrap();
    ledger.take(&taker, &record).unwrap();
    assert_eq!(ledger.balance_of(&maker, ASSET_B), 50);
    assert_eq!(ledger.balance_of(&maker, ASSET_A), 0);
    assert_eq!(ledger.balance_of(&taker, ASSET_A), 100);
    assert_eq!(ledger.balance_of(&taker, ASSET_B), 0);
    assert!(!ledger.has_record(&record));
    assert!(!ledger.has_holding(&record));
}

#[test]
fn make_then_refund_restores_the_maker() {
    let maker = ident(1);
    let mut ledger = Ledger::new();
    ledger.mint(&maker, ASSET_A, 10);
    let record = ledger.make(&maker, 7, ASSET_A, ASSET_B, 10, 4).unwrap();
    assert_eq!(ledger.balance_of(&maker, ASSET_A), 0);
    ledger.refund(&maker, &record).unwrap();
    assert_eq!(ledger.balance_of(&maker, ASSET_A), 10);
    assert!(!ledger.has_record(&record));
    assert!(!ledger.has_holding(&record));
}

#[test]
fn second_refund_finds_nothing() {
    let maker = ident(1);
    let mut ledger = Ledger::new();
    ledger.mint(&maker, ASSET_A, 10);
    let record = ledger.make(&maker, 7, ASSET_A, ASSET_B, 10, 4).unwrap();
    ledger.refund(&maker, &record).unwrap();
    assert_eq!(ledger.refund(&maker, &record), Err(EscrowError::StateNotFoundError));
    assert_eq!(ledger.balance_of(&maker, ASSET_A), 10);
}

#[test]
fn second_take_finds_nothing() {
    let maker = ident(1);
    let taker = ident(2);
    let mut ledger = Ledger::new();
    ledger.mint(&maker, ASSET_A, 100);
    ledger.mint(&taker, ASSET_B, 50);
    let record = ledger.make(&maker, 1, ASSET_A, ASSET_B, 100, 50).unwrap();
    ledger.take(&taker, &record).unwrap();
    assert_eq!(ledger.take(&taker, &record), Err(EscrowError::StateNotFoundError));
    assert_eq!(ledger.refund(&maker, &record), Err(EscrowError::StateNotFoundError));
}

#[test]
fn take_with_short_funds_changes_nothing() {
    let maker = ident(1);
    let taker = ident(2);
    let mut ledger = Ledger::new();
    ledger.mint(&maker, ASSET_A, 100);
    ledger.mint(&taker, ASSET_B, 49);
    let record = ledger.make(&maker, 1, ASSET_A, ASSET_B, 100, 50).unwrap();
    assert_eq!(ledger.take(&taker, &record), Err(EscrowError::InsufficientBalanceError));
    assert_eq!(ledger.balance_of(&taker, ASSET_B), 49);
    assert_eq!(ledger.balance_of(&maker, ASSET_B), 0);
    assert_eq!(ledger.balance_of(&taker, ASSET_A), 0);
    assert!(ledger.has_record(&record));
    assert_eq!(ledger.holding_amount(&record), 100);
}

#[test]
fn refund_by_stranger_changes_nothing() {
    let maker = ident(1);
    let stranger = ident(3);
    let mut ledger = Ledger::new();
    ledger.mint(&maker, ASSET_A, 10);
    let record = ledger.make(&maker, 7, ASSET_A, ASSET_B, 10, 4).unwrap();
    assert_eq!(ledger.refund(&stranger, &record), Err(EscrowError::AuthorizationError));
    assert!(ledger.has_record(&record));
    assert_eq!(ledger.holding_amount(&record), 10);
    assert_eq!(ledger.balance_of(&maker, ASSET_A), 0);
}

#[test]
fn reused_seed_collides() {
    let maker = ident(1);
    let mut ledger = Ledger::new();
    ledger.mint(&maker, ASSET_A, 100);
    ledger.make(&maker, 1, ASSET_A, ASSET_B, 60, 50).unwrap();
    let second = ledger.make(&maker, 1, ASSET_A, ASSET_B, 40, 50);
    assert_eq!(second.unwrap_err(), EscrowError::AddressCollisionError);
    assert_eq!(ledger.balance_of(&maker, ASSET_A), 40);
}

#[test]
fn make_with_short_funds_creates_nothing() {
    let maker = ident(1);
    let mut ledger = Ledger::new();
    ledger.mint(&maker, ASSET_A, 99);
    let r = ledger.make(&maker, 1, ASSET_A, ASSET_B, 100, 50);
    assert_eq!(r.unwrap_err(), EscrowError::InsufficientBalanceError);
    assert_eq!(ledger.balance_of(&maker, ASSET_A), 99);
    let record = derive_record(&maker, 1).expect("derivation succeeds").0;
    assert!(!ledger.has_record(&record));
    assert!(!ledger.has_holding(&record));
}

#[test]
fn zero_receive_is_a_valid_give_away() {
    let maker = ident(1);
    let taker = ident(2);
    let mut ledger = Ledger::new();
    ledger.mint(&maker, ASSET_A, 25);
    let record = ledger.make(&maker, 3, ASSET_A, ASSET_B, 25, 0).unwrap();
    ledger.take(&taker, &record).unwrap();
    assert_eq!(ledger.balance_of(&taker, ASSET_A), 25);
    assert_eq!(ledger.balance_of(&maker, ASSET_B), 0);
    assert!(!ledger.has_record(&record));
}
