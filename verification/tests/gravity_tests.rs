use restaking_ledger::common_actions::{AddDelegationArgs, RemoveDelegationArgs, TargetAccount};
use restaking_ledger::errors::Error;
use restaking_ledger::gravity::{
    require_non_empty_args, CallDelegationModule, GravityRestaking, MAX_SHARD_ID,
};
use restaking_ledger::token_whitelist::{TokenWhitelistModule, EGLD_TOKEN_ID};
use restaking_ledger::unbond::{UnbondInfo, UnbondModule};
use restaking_ledger::unique_payments::{Payment, UniquePayments};

fn pay(token_id: u64, nonce: u64, amount: u64) -> Payment {
    Payment { token_id, nonce, amount }
}

fn egld(amount: u64) -> Payment {
    pay(EGLD_TOKEN_ID, 0, amount)
}

fn wl_with_egld() -> TokenWhitelistModule {
    let mut wl = TokenWhitelistModule::new();
    wl.add_token_to_whitelist(EGLD_TOKEN_ID, 1, None).unwrap();
    wl
}

#[test]
fn cap_is_enforced_atomically() {
    let mut t = TargetAccount::new();
    let ok = t.add_delegation(AddDelegationArgs {
        payments_to_add: vec![egld(60)],
        total_amount: 60,
        caller_id: 1,
        opt_max_delegation: Some(80),
    });
    assert!(ok.is_ok());
    assert_eq!(t.get_total_delegated(), 60);
    assert!(t.has_delegator(1));
    // A breaching addition is rejected and changes nothing.
    let over = t.add_delegation(AddDelegationArgs {
        payments_to_add: vec![egld(30)],
        total_amount: 30,
        caller_id: 1,
        opt_max_delegation: Some(80),
    });
    assert_eq!(over, Err(Error::CapExceeded));
    assert_eq!(t.get_total_delegated(), 60);
    assert_eq!(t.get_edge_total(1), 60);
    // Filling up to the cap exactly is allowed.
    let fill = t.add_delegation(AddDelegationArgs {
        payments_to_add: vec![egld(20)],
        total_amount: 20,
        caller_id: 2,
        opt_max_delegation: Some(80),
    });
    assert!(fill.is_ok());
    assert_eq!(t.get_total_delegated(), 80);
}

#[test]
fn remove_delegation_errors() {
    let wl = wl_with_egld();
    let mut t = TargetAccount::new();
    assert_eq!(
        t.remove_delegation(&wl, RemoveDelegationArgs { tokens: vec![egld(1)], caller_id: 9 })
            .unwrap_err(),
        Error::NothingDelegated
    );
    t.add_delegation(AddDelegationArgs {
        payments_to_add: vec![egld(10)],
        total_amount: 10,
        caller_id: 9,
        opt_max_delegation: None,
    })
    .unwrap();
    assert_eq!(
        t.remove_delegation(&wl, RemoveDelegationArgs { tokens: vec![egld(0)], caller_id: 9 })
            .unwrap_err(),
        Error::ZeroAmount
    );
    assert_eq!(
        t.remove_delegation(&wl, RemoveDelegationArgs { tokens: vec![egld(11)], caller_id: 9 })
            .unwrap_err(),
        Error::OverRevoke
    );
    assert_eq!(t.get_total_delegated(), 10);
    let out = t
        .remove_delegation(&wl, RemoveDelegationArgs { tokens: vec![egld(10)], caller_id: 9 })
        .unwrap();
    assert_eq!(out.get_amount(EGLD_TOKEN_ID, 0), 10);
    assert_eq!(t.get_total_delegated(), 0);
    assert!(!t.has_delegator(9));
}

#[test]
fn unbond_buckets_merge_per_epoch_and_release_exactly() {
    let mut q = UnbondModule::new(10);
    let mut a = UniquePayments::new();
    a.add_payment(egld(30));
    q.add_unbond_tokens(4, a, 100);  // matures at 110
    let mut b = UniquePayments::new();
    b.add_payment(egld(12));
    q.add_unbond_tokens(4, b, 100);  // merged into the same bucket
    let mut c = UniquePayments::new();
    c.add_payment(egld(5));
    q.add_unbond_tokens(4, c, 101);  // its own bucket at 111

    // Nothing has matured yet.
    let none = q.unbond_tokens_common(4, 109);
    assert!(none.is_empty());
    // At 110 exactly the first (merged) bucket is released.
    let first = q.unbond_tokens_common(4, 110);
    assert_eq!(first.get_amount(EGLD_TOKEN_ID, 0), 42);
    // A second release at the same epoch finds nothing.
    let again = q.unbond_tokens_common(4, 110);
    assert!(again.is_empty());
    // The later bucket is untouched until its own epoch.
    let last = q.unbond_tokens_common(4, 111);
    assert_eq!(last.get_amount(EGLD_TOKEN_ID, 0), 5);
}

#[test]
fn unbond_info_merges_only_equal_epochs() {
    let mut a = UniquePayments::new();
    a.add_payment(egld(3));
    let one = UnbondInfo::new(a, 7);
    let mut b = UniquePayments::new();
    b.add_payment(egld(4));
    let two = UnbondInfo::new(b, 8);
    assert!(!one.can_merge_with(&two));
    let mut c = UniquePayments::new();
    c.add_payment(egld(5));
    let three = UnbondInfo::new(c, 7);
    assert!(one.can_merge_with(&three));
    let mut merged = one;
    merged.merge_with(three);
    assert_eq!(merged.tokens.get_amount(EGLD_TOKEN_ID, 0), 8);
    assert_eq!(merged.unbond_epoch, 7);
}

#[test]
fn delegator_scenario_end_to_end() {
    // Delegator D deposits 100 base units, delegates 60 to validator V
    // under a cap of 80, is refused 30 more, revokes the 60, and can
    // only withdraw them after the unbond delay.
    let d: u64 = 0xD;
    let v: u64 = 0xF1;
    let unbond_epochs: u64 = 10;
    let epoch_now: u64 = 100;

    let mut g = GravityRestaking::init(unbond_epochs);
    g.whitelist.add_token_to_whitelist(EGLD_TOKEN_ID, 1, None).unwrap();
    g.validators.register(v, b"genesis".to_vec()).unwrap();
    g.validators.set_max_delegation(v, 80).unwrap();

    g.deposit(d, vec![egld(100)]).unwrap();

    g.delegate_to_validator(d, v, vec![egld(60)]).unwrap();
    assert_eq!(g.validators.get_total_delegated_amount(v).unwrap(), 60);

    let refused = g.delegate_to_validator(d, v, vec![egld(30)]);
    assert_eq!(refused, Err(Error::CapExceeded));
    assert_eq!(g.validators.get_total_delegated_amount(v).unwrap(), 60);
    // The refused delegation deducted nothing from the free balance.
    let (egld_back, others) = g.withdraw(d, vec![egld(40)]).unwrap();
    assert_eq!(egld_back, 40);
    assert!(others.is_empty());

    g.revoke_delegation_from_validator(d, v, vec![egld(60)], epoch_now).unwrap();
    assert_eq!(g.validators.get_total_delegated_amount(v).unwrap(), 0);

    // Before maturity the release is empty; at maturity the 60 come out.
    let early = g.unbond_tokens_caller(d, epoch_now + unbond_epochs - 1).unwrap();
    assert!(early.is_empty());
    let due = g.unbond_tokens_caller(d, epoch_now + unbond_epochs).unwrap();
    assert_eq!(due.len(), 1);
    assert_eq!(due[0].amount, 60);
    assert_eq!(due[0].token_id, EGLD_TOKEN_ID);
}

#[test]
fn deposit_and_withdraw_errors() {
    let mut g = GravityRestaking::init(5);
    assert_eq!(g.deposit(1, vec![]), Err(Error::EmptyArgs));
    assert_eq!(g.deposit(1, vec![pay(3, 0, 5)]), Err(Error::TokenNotWhitelisted));
    assert_eq!(g.withdraw(1, vec![]), Err(Error::EmptyArgs));
    assert_eq!(g.withdraw(1, vec![egld(1)]), Err(Error::UnknownAddress));
    assert_eq!(g.withdraw_all(1), Err(Error::UnknownAddress));

    g.whitelist.add_token_to_whitelist(EGLD_TOKEN_ID, 1, None).unwrap();
    g.deposit(1, vec![egld(10)]).unwrap();
    assert_eq!(g.withdraw(1, vec![egld(0)]), Err(Error::ZeroAmount));
    assert_eq!(g.withdraw(1, vec![egld(11)]), Err(Error::InsufficientBalance));
    let (e, rest) = g.withdraw_all(1).unwrap();
    assert_eq!(e, 10);
    assert!(rest.is_empty());
    assert_eq!(g.withdraw_all(1), Err(Error::NothingToWithdraw));
}

#[test]
fn withdraw_separates_base_asset_from_tokens() {
    let mut g = GravityRestaking::init(5);
    g.whitelist.add_token_to_whitelist(EGLD_TOKEN_ID, 1, None).unwrap();
    g.whitelist.add_token_to_whitelist(7, 3, Some(0)).unwrap();
    g.deposit(2, vec![egld(50), pay(7, 0, 20)]).unwrap();
    let (e, rest) = g.withdraw(2, vec![pay(7, 0, 5), egld(30)]).unwrap();
    assert_eq!(e, 30);
    assert_eq!(rest.len(), 1);
    assert_eq!(rest[0], pay(7, 0, 5));
}

#[test]
fn validator_registration_and_keys() {
    let mut g = GravityRestaking::init(5);
    let v: u64 = 77;
    assert_eq!(g.validators.register(v, vec![]), Err(Error::EmptyName));
    g.validators.register(v, b"alpha".to_vec()).unwrap();
    assert_eq!(g.validators.register(v, b"beta".to_vec()), Err(Error::AlreadyRegistered));
    assert_eq!(g.validators.register(78, b"alpha".to_vec()), Err(Error::NameAlreadyTaken));

    assert_eq!(g.validators.set_up_fee(v, 10_001), Err(Error::InvalidFee));
    g.validators.set_up_fee(v, 250).unwrap();
    assert_eq!(g.validators.set_up_fee(99, 250), Err(Error::UnknownAddress));

    g.validators.add_keys(v, vec![vec![1u8; 96], vec![2u8; 96]]).unwrap();
    assert_eq!(
        g.validators.add_keys(v, vec![vec![1u8; 96]]),
        Err(Error::KeyAlreadyKnown)
    );
    assert_eq!(
        g.validators.remove_keys(v, vec![vec![9u8; 96]]),
        Err(Error::KeyNotFound)
    );
    g.validators.remove_keys(v, vec![vec![1u8; 96]]).unwrap();
    let config = g.validators.get_validator_config(v).unwrap();
    assert_eq!(config.bls_keys.len(), 1);
    assert_eq!(config.fee, 250);
}

#[test]
fn sovereign_registration_and_cap() {
    let mut g = GravityRestaking::init(5);
    let s: u64 = 500;
    g.sovereigns.register_sov(s, b"chain".to_vec(), b"a chain".to_vec()).unwrap();
    assert_eq!(
        g.sovereigns.register_sov(501, b"chain".to_vec(), b"other".to_vec()),
        Err(Error::NameAlreadyTaken)
    );
    g.sovereigns.set_max_restaking_cap(s, 1000).unwrap();
    let info = g.sovereigns.get_sov_info(s).unwrap();
    assert_eq!(info.opt_max_restaking_cap, Some(1000));

    // Delegating against the sovereign cap.
    g.whitelist.add_token_to_whitelist(EGLD_TOKEN_ID, 1, None).unwrap();
    g.deposit(9, vec![egld(2000)]).unwrap();
    assert_eq!(
        g.delegate_for_sovereign_chain(9, b"nochain".to_vec(), vec![egld(10)]),
        Err(Error::UnknownAddress)
    );
    g.delegate_for_sovereign_chain(9, b"chain".to_vec(), vec![egld(900)]).unwrap();
    assert_eq!(
        g.delegate_for_sovereign_chain(9, b"chain".to_vec(), vec![egld(200)]),
        Err(Error::CapExceeded)
    );
    // The cap can never fall below the current commitment.
    assert_eq!(g.sovereigns.set_max_restaking_cap(s, 899), Err(Error::CapBelowCurrent));
    g.revoke_delegation_from_sovereign_chain(9, b"chain".to_vec(), vec![egld(900)], 50).unwrap();
    // After unregistering, the handle is gone and the name is free.
    g.sovereigns.unregister(s).unwrap();
    assert_eq!(g.sovereigns.unregister(s), Err(Error::UnknownAddress));
    g.sovereigns.register_sov(502, b"chain".to_vec(), b"again".to_vec()).unwrap();
}

#[test]
fn own_delegation_and_security_funds() {
    let mut g = GravityRestaking::init(5);
    g.whitelist.add_token_to_whitelist(EGLD_TOKEN_ID, 1, None).unwrap();
    let v: u64 = 41;
    g.validators.register(v, b"self-staker".to_vec()).unwrap();
    g.add_own_delegation(v, vec![egld(70)]).unwrap();
    assert_eq!(g.validators.get_total_delegated_amount(v).unwrap(), 70);

    let s: u64 = 42;
    g.sovereigns.register_sov(s, b"own-chain".to_vec(), b"x".to_vec()).unwrap();
    g.add_own_security_funds(s, vec![egld(30)]).unwrap();
    assert_eq!(g.add_own_security_funds(43, vec![egld(1)]), Err(Error::UnknownAddress));
}

#[test]
fn move_stake_gate_and_callback() {
    let mut g = GravityRestaking::init(5);
    assert_eq!(g.move_stake_to_re_staking(3), Err(Error::InvalidDelegationAddress));
    assert!(g.move_stake_to_re_staking(MAX_SHARD_ID).is_ok());
    // A failed remote move books nothing.
    g.move_stake_callback(11, 500, false);
    assert_eq!(g.withdraw_all(11), Err(Error::UnknownAddress));
    // A successful one credits the base asset without a whitelist check.
    g.move_stake_callback(11, 500, true);
    let (e, rest) = g.withdraw_all(11).unwrap();
    assert_eq!(e, 500);
    assert!(rest.is_empty());
}

#[test]
fn unbond_redeposit_requires_whitelisted_assets() {
    let mut g = GravityRestaking::init(0);
    g.whitelist.add_token_to_whitelist(7, 3, Some(0)).unwrap();
    g.deposit(5, vec![pay(7, 0, 10)]).unwrap();
    let v: u64 = 90;
    g.validators.register(v, b"val".to_vec()).unwrap();
    g.delegate_to_validator(5, v, vec![pay(7, 0, 10)]).unwrap();
    g.revoke_delegation_from_validator(5, v, vec![pay(7, 0, 10)], 1).unwrap();
    // Delist the token while it waits in the unbond queue.
    g.whitelist.remove_token_from_whitelist(7).unwrap();
    assert_eq!(
        g.unbond_tokens_gravity_restaking(5, 1),
        Err(Error::TokenNotWhitelisted)
    );
    // The direct route still hands the assets out.
    let out = g.unbond_tokens_caller(5, 1).unwrap();
    assert_eq!(out.len(), 1);
    assert_eq!(out[0].amount, 10);
}

#[test]
fn unbond_redeposit_returns_assets_to_balance() {
    let mut g = GravityRestaking::init(0);
    g.whitelist.add_token_to_whitelist(EGLD_TOKEN_ID, 1, None).unwrap();
    g.deposit(6, vec![egld(25)]).unwrap();
    let v: u64 = 91;
    g.validators.register(v, b"val2".to_vec()).unwrap();
    g.delegate_to_validator(6, v, vec![egld(25)]).unwrap();
    g.revoke_delegation_from_validator(6, v, vec![egld(25)], 3).unwrap();
    g.unbond_tokens_gravity_restaking(6, 3).unwrap();
    let (e, _) = g.withdraw_all(6).unwrap();
    assert_eq!(e, 25);
}

#[test]
fn non_empty_args_gate() {
    assert_eq!(require_non_empty_args(&vec![]), Err(Error::EmptyArgs));
    assert!(require_non_empty_args(&vec![egld(1)]).is_ok());
}
