use ridesharing_backend::identity::Identity;
use ridesharing_backend::ledger::{
    buy_tokens, get_balance, pay_for_ride, Ledger, LedgerError, TOTAL_SUPPLY,
};

fn ident(b: &[u8]) -> Identity {
    Identity::from_bytes(b.to_vec())
}

#[test]
fn mint_credits_balance_and_supply() {
    let mut l = Ledger::new();
    let a = ident(&[1]);
    assert_eq!(l.mint(&a, 100), Ok(()));
    assert_eq!(get_balance(&l, &a), 100);
    assert_eq!(l.issued_supply, 100);
    assert_eq!(l.mint(&a, 50), Ok(()));
    assert_eq!(get_balance(&l, &a), 150);
    assert_eq!(l.issued_supply, 150);
}

#[test]
fn mint_respects_supply_cap() {
    let mut l = Ledger::new();
    let a = ident(&[1]);
    assert_eq!(l.mint(&a, TOTAL_SUPPLY), Ok(()));
    assert_eq!(l.mint(&a, 1), Err(LedgerError::SupplyExceeded));
    assert_eq!(get_balance(&l, &a), TOTAL_SUPPLY);
    assert_eq!(l.issued_supply, TOTAL_SUPPLY);
}

#[test]
fn anonymous_sentinel_matches_the_anonymous_principal() {
    assert_eq!(
        Identity::anonymous().bytes,
        candid::Principal::anonymous().as_slice().to_vec()
    );
}

#[test]
fn mint_rejects_anonymous() {
    let mut l = Ledger::new();
    let anon = Identity::anonymous();
    assert!(anon.is_anonymous());
    assert_eq!(anon.bytes, vec![4u8]);
    assert_eq!(l.mint(&anon, 10), Err(LedgerError::RejectedAnonymous));
    assert_eq!(get_balance(&l, &anon), 0);
    assert_eq!(l.issued_supply, 0);
}

#[test]
fn anonymous_buy_tokens_rejected_balance_stays_zero() {
    let mut l = Ledger::new();
    let anon = Identity::anonymous();
    let msg = buy_tokens(&mut l, &anon, 25);
    assert_eq!(msg, "❌ Error: Cannot mint tokens for anonymous principal.");
    assert_eq!(get_balance(&l, &anon), 0);
    assert_eq!(l.issued_supply, 0);
}

#[test]
fn buy_tokens_messages() {
    let mut l = Ledger::new();
    let a = ident(&[1]);
    assert_eq!(buy_tokens(&mut l, &a, 42), "✅ Minted 42 RDT to your wallet!");
    assert_eq!(get_balance(&l, &a), 42);
    let over = buy_tokens(&mut l, &a, TOTAL_SUPPLY);
    assert_eq!(over, "❌ Purchase failed: Exceeds total supply.");
    assert_eq!(get_balance(&l, &a), 42);
}

#[test]
fn transfer_conserves_balances() {
    let mut l = Ledger::new();
    let a = ident(&[1]);
    let b = ident(&[2]);
    assert_eq!(l.mint(&a, 50), Ok(()));
    assert_eq!(l.transfer(&a, &b, 20), Ok(()));
    assert_eq!(get_balance(&l, &a), 30);
    assert_eq!(get_balance(&l, &b), 20);
    assert_eq!(l.issued_supply, 50);
}

#[test]
fn transfer_insufficient_balance_changes_nothing() {
    let mut l = Ledger::new();
    let a = ident(&[1]);
    let b = ident(&[2]);
    assert_eq!(l.mint(&a, 5), Ok(()));
    assert_eq!(l.transfer(&a, &b, 6), Err(LedgerError::InsufficientBalance));
    assert_eq!(get_balance(&l, &a), 5);
    assert_eq!(get_balance(&l, &b), 0);
}

#[test]
fn transfer_rejects_anonymous_sender() {
    let mut l = Ledger::new();
    let anon = Identity::anonymous();
    let b = ident(&[2]);
    assert_eq!(l.transfer(&anon, &b, 0), Err(LedgerError::RejectedAnonymous));
    assert_eq!(get_balance(&l, &b), 0);
}

#[test]
fn pay_for_ride_messages() {
    let mut l = Ledger::new();
    let a = ident(&[1]);
    let d = ident(&[2]);
    let broke = pay_for_ride(&mut l, &a, &d, 10);
    assert_eq!(broke, "❌ Payment failed: Insufficient balance. You have 0 RDT.");
    assert_eq!(l.mint(&a, 30), Ok(()));
    let paid = pay_for_ride(&mut l, &a, &d, 10);
    assert_eq!(paid, "✅ Successfully paid 10 RDT to driver!");
    assert_eq!(get_balance(&l, &a), 20);
    assert_eq!(get_balance(&l, &d), 10);
    let anon = Identity::anonymous();
    let refused = pay_for_ride(&mut l, &anon, &d, 1);
    assert_eq!(refused, "❌ Error: Anonymous principals cannot make payments.");
    assert_eq!(get_balance(&l, &d), 10);
}

#[test]
fn paying_yourself_changes_nothing() {
    let mut l = Ledger::new();
    let a = ident(&[1]);
    assert_eq!(l.mint(&a, 10), Ok(()));
    assert_eq!(l.transfer(&a, &a, 7), Ok(()));
    assert_eq!(get_balance(&l, &a), 10);
    assert_eq!(l.issued_supply, 10);
}

#[test]
fn zero_amounts_are_accepted() {
    let mut l = Ledger::new();
    let a = ident(&[1]);
    let b = ident(&[2]);
    assert_eq!(buy_tokens(&mut l, &a, 0), "✅ Minted 0 RDT to your wallet!");
    assert_eq!(l.transfer(&a, &b, 0), Ok(()));
    assert_eq!(get_balance(&l, &a), 0);
    assert_eq!(get_balance(&l, &b), 0);
    assert_eq!(l.issued_supply, 0);
}
