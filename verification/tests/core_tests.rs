use restaking_ledger::errors::Error;
use restaking_ledger::identity::{require_non_null, IdentityRegistry, NULL_ID};
use restaking_ledger::token_whitelist::{TokenWhitelistModule, EGLD_TOKEN_ID};
use restaking_ledger::unique_payments::{Payment, UniquePayments};

fn pay(token_id: u64, nonce: u64, amount: u64) -> Payment {
    Payment { token_id, nonce, amount }
}

#[test]
fn add_merges_amounts_for_equal_keys() {
    let mut b = UniquePayments::new();
    b.add_payment(pay(7, 0, 40));
    b.add_payment(pay(7, 0, 60));
    b.add_payment(pay(8, 1, 5));
    assert_eq!(b.get_amount(7, 0), 100);
    assert_eq!(b.get_amount(8, 1), 5);
    // Dedup invariant: two adds under one key leave a single entry.
    let entries = b.into_payments();
    assert_eq!(entries.len(), 2);
}

#[test]
fn deduct_deletes_entry_at_exactly_zero() {
    let mut b = UniquePayments::new();
    b.add_payment(pay(7, 0, 40));
    assert!(b.deduct_payment(&pay(7, 0, 40)).is_ok());
    assert_eq!(b.get_amount(7, 0), 0);
    assert!(b.is_empty());
}

#[test]
fn deduct_fails_when_insufficient_and_changes_nothing() {
    let mut b = UniquePayments::new();
    b.add_payment(pay(7, 0, 40));
    assert_eq!(b.deduct_payment(&pay(7, 0, 41)), Err(Error::InsufficientBalance));
    assert_eq!(b.deduct_payment(&pay(9, 0, 1)), Err(Error::InsufficientBalance));
    assert_eq!(b.get_amount(7, 0), 40);
}

#[test]
fn merge_conserves_every_amount() {
    let mut a = UniquePayments::new();
    a.add_payment(pay(1, 0, 10));
    a.add_payment(pay(2, 0, 20));
    let mut b = UniquePayments::new();
    b.add_payment(pay(2, 0, 5));
    b.add_payment(pay(3, 0, 7));
    a.merge_with(b);
    assert_eq!(a.get_amount(1, 0), 10);
    assert_eq!(a.get_amount(2, 0), 25);
    assert_eq!(a.get_amount(3, 0), 7);
}

#[test]
fn new_from_payments_merges_duplicates_and_drops_zeros() {
    let b = UniquePayments::new_from_payments(vec![
        pay(1, 0, 3),
        pay(1, 0, 4),
        pay(2, 0, 0),
        pay(2, 0, 9),
    ]);
    assert_eq!(b.get_amount(1, 0), 7);
    assert_eq!(b.get_amount(2, 0), 9);
    assert_eq!(b.into_payments().len(), 2);
}

#[test]
fn registry_interns_monotonically_and_never_reuses() {
    let mut reg = IdentityRegistry::new();
    assert_eq!(reg.get_id(1000), NULL_ID);
    let a = reg.get_id_or_insert(1000);
    let b = reg.get_id_or_insert(2000);
    assert_eq!(a, 1);
    assert_eq!(b, 2);
    assert_eq!(reg.get_id_or_insert(1000), 1);
    assert_eq!(reg.remove_by_address(1000), 1);
    assert_eq!(reg.get_id(1000), NULL_ID);
    // A new address never receives a retired handle.
    let c = reg.get_id_or_insert(3000);
    assert_eq!(c, 3);
    assert_eq!(reg.insert_new(2000), Err(Error::AlreadyRegistered));
    assert_eq!(reg.get_id_non_zero(4000), Err(Error::UnknownAddress));
    assert_eq!(require_non_null(NULL_ID), Err(Error::UnknownAddress));
    assert!(require_non_null(c).is_ok());
}

#[test]
fn whitelist_add_remove_and_errors() {
    let mut wl = TokenWhitelistModule::new();
    assert!(wl.add_token_to_whitelist(5, 2, None).is_ok());
    assert_eq!(wl.add_token_to_whitelist(5, 2, None), Err(Error::AlreadyWhitelisted));
    assert!(wl.is_token_whitelisted(5));
    assert_eq!(wl.remove_token_from_whitelist(6), Err(Error::UnknownToken));
    assert!(wl.remove_token_from_whitelist(5).is_ok());
    assert!(!wl.is_token_whitelisted(5));
    assert_eq!(wl.require_token_in_whitelist(5), Err(Error::TokenNotWhitelisted));
}

#[test]
fn valuation_uses_rate_and_decimals() {
    let mut wl = TokenWhitelistModule::new();
    // One whole token (18 decimals) stakes for 5 base units.
    assert!(wl.add_token_to_whitelist(5, 5, None).is_ok());
    assert_eq!(wl.get_token_decimals(5), 18);
    // 2 * 10^18 smallest units, at rate 5 per whole token: value 10.
    assert_eq!(wl.get_total_staked_egld(5, 2_000_000_000_000_000_000), 10);
    // The base asset is valued 1:1, whitelisted or not.
    assert_eq!(wl.get_total_staked_egld(EGLD_TOKEN_ID, 123), 123);
    // A token without pricing data values to zero.
    assert_eq!(wl.get_total_staked_egld(9, 1_000_000), 0);
}

#[test]
fn valuation_with_huge_decimal_count_floors_to_zero() {
    let mut wl = TokenWhitelistModule::new();
    // A divisor beyond any representable product floors everything away.
    assert!(wl.add_token_to_whitelist(5, u64::MAX, Some(50)).is_ok());
    assert_eq!(wl.get_total_staked_egld(5, u64::MAX), 0);
}

#[test]
fn balance_holds_the_largest_amount() {
    let mut b = UniquePayments::new();
    b.add_payment(pay(1, 0, u64::MAX));
    assert_eq!(b.get_amount(1, 0), u64::MAX);
    assert!(b.deduct_payment(&pay(1, 0, u64::MAX)).is_ok());
    assert!(b.is_empty());
}

#[test]
fn valuation_respects_custom_decimals() {
    let mut wl = TokenWhitelistModule::new();
    assert!(wl.add_token_to_whitelist(5, 3, Some(2)).is_ok());
    assert_eq!(wl.get_token_decimals(5), 2);
    // 400 smallest units at 2 decimals = 4 whole tokens, rate 3: value 12.
    assert_eq!(wl.get_total_staked_egld(5, 400), 12);
    // Flooring: 450 units -> floor(3 * 450 / 100) = 13.
    assert_eq!(wl.get_total_staked_egld(5, 450), 13);
}
