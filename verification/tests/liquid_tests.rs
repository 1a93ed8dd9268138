use restaking_ledger::config::{State, UnstakeTokenAttributes, MIN_EGLD_TO_DELEGATE};
use restaking_ledger::delegation::ClaimStatusType;
use restaking_ledger::errors::Error;
use restaking_ledger::liquid_staking::{
    get_gas_for_async_call, AddLiquidityOutcome, LiquidStaking, OperationCompletionStatus,
    UnbondAction, WithdrawOutcome,
};

const GAS: u64 = 100_000_000;

fn staking_with_contracts(apys: &[(u64, u64)]) -> LiquidStaking {
    // apys: (address, apy) pairs whitelisted in order, each with a large cap.
    let mut ls = LiquidStaking::init(10);
    ls.config.set_state_active();
    for (address, apy) in apys {
        ls.delegation
            .whitelist_delegation_contract(*address, 1, 0, 10_000_000_000_000_000_000, 4, *apy)
            .unwrap();
    }
    ls
}

#[test]
fn directory_keeps_descending_yield_order() {
    let ls = staking_with_contracts(&[(100, 10), (200, 20), (300, 15), (400, 20)]);
    let apys: Vec<u64> = ls.delegation.entries.iter().map(|e| e.data.apy).collect();
    // Non-increasing order after the whole insertion sequence; an equal
    // yield goes in front of the earlier equal entry.
    assert_eq!(apys, vec![20, 20, 15, 10]);
    assert_eq!(ls.delegation.entries[0].address, 400);
    assert_eq!(ls.delegation.entries[1].address, 200);
}

#[test]
fn directory_reorder_on_yield_change() {
    let mut ls = staking_with_contracts(&[(100, 10), (200, 20)]);
    // Raising 100's yield moves it to the front.
    ls.delegation
        .change_delegation_contract_params(1, 100, 0, 1_000_000_000, 4, 30)
        .unwrap();
    let addrs: Vec<u64> = ls.delegation.entries.iter().map(|e| e.address).collect();
    assert_eq!(addrs, vec![100, 200]);
    // Only the admin may change parameters.
    assert_eq!(
        ls.delegation.change_delegation_contract_params(2, 100, 0, 10, 4, 30),
        Err(Error::OnlyAdmin)
    );
    assert_eq!(
        ls.delegation.change_delegation_contract_params(1, 999, 0, 10, 4, 30),
        Err(Error::UnknownTarget)
    );
    assert_eq!(
        ls.delegation.change_delegation_contract_params(1, 100, 11, 10, 4, 30),
        Err(Error::CapacityExceeded)
    );
}

#[test]
fn directory_whitelist_errors() {
    let mut ls = LiquidStaking::init(1);
    ls.delegation.update_max_delegation_addresses_number(0);
    ls.delegation.whitelist_delegation_contract(1, 1, 0, 10, 1, 5).unwrap();
    // The pre-insert count check allows one entry above the maximum.
    assert_eq!(
        ls.delegation.whitelist_delegation_contract(2, 1, 0, 10, 1, 5),
        Err(Error::DirectoryFull)
    );
    ls.delegation.update_max_delegation_addresses_number(10);
    assert_eq!(
        ls.delegation.whitelist_delegation_contract(1, 1, 0, 10, 1, 5),
        Err(Error::AlreadyWhitelisted)
    );
    assert_eq!(
        ls.delegation.whitelist_delegation_contract(3, 1, 11, 10, 1, 5),
        Err(Error::CapacityExceeded)
    );
}

#[test]
fn demote_moves_entry_to_tail() {
    let mut ls = staking_with_contracts(&[(100, 10), (200, 20), (300, 15)]);
    ls.delegation.move_delegation_contract_to_back(200).unwrap();
    let addrs: Vec<u64> = ls.delegation.entries.iter().map(|e| e.address).collect();
    assert_eq!(addrs, vec![300, 100, 200]);
    assert_eq!(
        ls.delegation.move_delegation_contract_to_back(999),
        Err(Error::UnknownTarget)
    );
}

#[test]
fn selection_is_greedy_best_yield_first() {
    let mut ls = LiquidStaking::init(1);
    ls.delegation.whitelist_delegation_contract(100, 1, 90, 100, 1, 10).unwrap();
    ls.delegation.whitelist_delegation_contract(200, 1, 0, 100, 1, 20).unwrap();
    // 200 leads with room 100; 100 has room 10 only.
    assert_eq!(ls.delegation.get_delegation_contract_for_delegate(50), Ok(200));
    assert_eq!(ls.delegation.get_delegation_contract_for_delegate(101), Err(Error::NoEligibleTarget));
    // Undelegation looks at this ledger's own staked tally.
    assert_eq!(ls.delegation.get_delegation_contract_for_undelegate(1), Err(Error::NoEligibleTarget));
}

#[test]
fn sweep_full_budget_completes_in_one_invocation() {
    let mut ls = staking_with_contracts(&[(100, 10), (200, 20), (300, 15)]);
    let (status, claims) = ls.claim_rewards(11, 1000, 0, 100).unwrap();
    assert_eq!(status, OperationCompletionStatus::Completed);
    assert_eq!(claims, vec![200, 300, 100]);
    assert_eq!(ls.delegation.get_delegation_status(), ClaimStatusType::Finished);
    assert_eq!(ls.delegation.claim_status.last_claim_block, 1000);
}

#[test]
fn sweep_resumes_exactly_where_it_stopped() {
    // The same directory, swept under a budget of two nodes per
    // invocation, claims the same contracts in the same order with none
    // repeated and none skipped.
    let mut ls = staking_with_contracts(&[(100, 10), (200, 20), (300, 15)]);
    let (s1, c1) = ls.claim_rewards(11, 1000, 0, 2).unwrap();
    assert_eq!(s1, OperationCompletionStatus::InterruptedBeforeOutOfGas);
    assert_eq!(c1, vec![200, 300]);
    assert_eq!(ls.delegation.get_delegation_status(), ClaimStatusType::Insufficient);
    let (s2, c2) = ls.claim_rewards(11, 1001, 0, 2).unwrap();
    assert_eq!(s2, OperationCompletionStatus::Completed);
    assert_eq!(c2, vec![100]);
    assert_eq!(ls.delegation.get_delegation_status(), ClaimStatusType::Finished);
    let mut combined = c1.clone();
    combined.extend(c2);
    assert_eq!(combined, vec![200, 300, 100]);
}

#[test]
fn sweep_gates() {
    let mut ls = LiquidStaking::init(10);
    assert_eq!(ls.claim_rewards(11, 1, 0, 5), Err(Error::NotActive));
    ls.config.set_state_active();
    assert_eq!(ls.claim_rewards(11, 1, 0, 5), Err(Error::NoDelegationContracts));
    ls.delegation.whitelist_delegation_contract(100, 1, 0, 10, 1, 5).unwrap();
    // Claiming in the init epoch is refused: the epoch must move on.
    assert_eq!(ls.claim_rewards(10, 1, 0, 5), Err(Error::PreconditionFailed));
    ls.claim_rewards(11, 1, 0, 5).unwrap();
    // A finished cycle cannot be claimed again before redelegation or
    // recomputation marks it insufficient.
    assert_eq!(ls.claim_rewards(12, 2, 0, 5), Err(Error::PreconditionFailed));
}

#[test]
fn recompute_and_delegate_rewards_cycle() {
    let mut ls = staking_with_contracts(&[(100, 10)]);
    ls.claim_rewards(11, 1000, 0, 5).unwrap();
    // Too soon after the sweep.
    assert_eq!(ls.recompute_token_reserve(1005, 0), Err(Error::PreconditionFailed));
    // Rewards below the minimum leave the cycle insufficient.
    ls.recompute_token_reserve(1010, 5).unwrap();
    assert_eq!(ls.config.rewards_reserve, 5);
    assert_eq!(ls.delegation.get_delegation_status(), ClaimStatusType::Insufficient);
    assert_eq!(ls.delegate_rewards(GAS), Err(Error::PreconditionFailed));

    // A new cycle with enough balance becomes delegable.
    ls.claim_rewards(12, 2000, 5, 5).unwrap();
    ls.recompute_token_reserve(2010, MIN_EGLD_TO_DELEGATE + 5).unwrap();
    assert_eq!(ls.delegation.get_delegation_status(), ClaimStatusType::Delegable);
    let (contract, amount, _gas) = ls.delegate_rewards(GAS).unwrap();
    assert_eq!(contract, 100);
    assert_eq!(amount, MIN_EGLD_TO_DELEGATE + 5);
    assert_eq!(ls.config.rewards_reserve, 0);

    // A failing remote call restores the reserve and demotes the target.
    ls.delegate_rewards_callback(contract, amount, false);
    assert_eq!(ls.config.rewards_reserve, amount);
    assert_eq!(ls.delegation.get_delegation_status(), ClaimStatusType::Delegable);
    // A successful one books the stake and redelegates.
    let (contract2, amount2, _gas2) = ls.delegate_rewards(GAS).unwrap();
    ls.delegate_rewards_callback(contract2, amount2, true);
    assert_eq!(ls.delegation.get_delegation_status(), ClaimStatusType::Redelegated);
    assert_eq!(ls.config.virtual_egld_reserve, amount2);
    assert_eq!(
        ls.delegation.get_delegation_contract_staked_amount(contract2),
        amount2
    );
}

#[test]
fn add_liquidity_flow() {
    let mut ls = staking_with_contracts(&[(100, 10)]);
    assert_eq!(ls.add_liquidity(1, GAS), Err(Error::BadPaymentAmount));
    assert_eq!(ls.add_liquidity(MIN_EGLD_TO_DELEGATE, 1), Err(Error::InsufficientComputeBudget));
    let (contract, gas) = ls.add_liquidity(MIN_EGLD_TO_DELEGATE, GAS).unwrap();
    assert_eq!(contract, 100);
    assert!(gas > 0);
    // First deposit mints one-to-one.
    let minted = ls.add_liquidity_callback(contract, MIN_EGLD_TO_DELEGATE, true);
    assert_eq!(minted, AddLiquidityOutcome::Minted { ls_amount: MIN_EGLD_TO_DELEGATE });
    assert_eq!(ls.config.ls_token_supply, MIN_EGLD_TO_DELEGATE);
    assert_eq!(ls.config.virtual_egld_reserve, MIN_EGLD_TO_DELEGATE);
    assert_eq!(ls.get_ls_value_for_position(MIN_EGLD_TO_DELEGATE), MIN_EGLD_TO_DELEGATE);
    // A failed remote stake refunds and demotes.
    let refunded = ls.add_liquidity_callback(contract, MIN_EGLD_TO_DELEGATE, false);
    assert_eq!(refunded, AddLiquidityOutcome::Refunded);
    assert_eq!(ls.config.ls_token_supply, MIN_EGLD_TO_DELEGATE);
}

#[test]
fn unbond_flow_local_and_remote() {
    let mut ls = staking_with_contracts(&[(100, 10)]);
    let attrs = UnstakeTokenAttributes {
        delegation_contract: 100,
        unstake_epoch: 20,
        unstake_amount: 50,
        unbond_epoch: 30,
    };
    assert_eq!(ls.unbond_tokens(0, 1, attrs, 30, GAS), Err(Error::BadPaymentAmount));
    assert_eq!(ls.unbond_tokens(1, 1, attrs, 29, GAS), Err(Error::UnstakePeriodNotPassed));
    // Nothing unbonded yet: a remote withdraw is requested.
    let action = ls.unbond_tokens(1, 1, attrs, 30, GAS).unwrap();
    match action {
        UnbondAction::RequestWithdraw { delegation_contract, gas_limit } => {
            assert_eq!(delegation_contract, 100);
            assert!(gas_limit > 0);
        },
        _ => panic!("expected a remote withdraw request"),
    }
    // The remote call fails: the position token goes back.
    let outcome = ls.withdraw_tokens_callback(100, 1, 50, 0, false);
    assert_eq!(outcome, WithdrawOutcome::NftReturned);
    // The remote call succeeds but covers the position only partially.
    let partial = ls.withdraw_tokens_callback(100, 1, 50, 20, true);
    assert_eq!(partial, WithdrawOutcome::NftReturned);
    assert_eq!(ls.config.total_withdrawn_egld, 20);
    assert_eq!(ls.delegation.get_delegation_contract_unbonded_amount(100), 20);
    // More funds arrive; now the position settles and pays out.
    ls.delegation.entries[0].data.total_unstaked_from_ls_contract = 50;
    ls.config.unstake_token_supply = 50;
    let settled = ls.withdraw_tokens_callback(100, 1, 50, 30, true);
    assert_eq!(settled, WithdrawOutcome::PaidOut { amount: 50, burn_nonce: 1 });
    assert_eq!(ls.config.total_withdrawn_egld, 0);
    assert_eq!(ls.delegation.get_delegation_contract_unbonded_amount(100), 0);
}

#[test]
fn unbond_settles_locally_when_funds_are_in() {
    let mut ls = staking_with_contracts(&[(100, 10)]);
    ls.delegation.entries[0].data.total_unstaked_from_ls_contract = 60;
    ls.delegation.entries[0].data.total_unbonded_from_ls_contract = 60;
    ls.config.total_withdrawn_egld = 60;
    ls.config.unstake_token_supply = 60;
    let attrs = UnstakeTokenAttributes {
        delegation_contract: 100,
        unstake_epoch: 20,
        unstake_amount: 50,
        unbond_epoch: 30,
    };
    let action = ls.unbond_tokens(1, 9, attrs, 31, GAS).unwrap();
    assert_eq!(action, UnbondAction::PayOut { amount: 50, burn_nonce: 9 });
    assert_eq!(ls.config.total_withdrawn_egld, 10);
    assert_eq!(ls.config.unstake_token_supply, 10);
    assert_eq!(ls.delegation.get_delegation_contract_unbonded_amount(100), 10);
    assert_eq!(ls.delegation.get_delegation_contract_unstaked_amount(100), 10);
}

#[test]
fn gas_gate() {
    assert_eq!(get_gas_for_async_call(1), Err(Error::InsufficientComputeBudget));
    assert_eq!(get_gas_for_async_call(GAS), Ok(GAS - 12_000_000));
}

#[test]
fn state_toggles() {
    let mut ls = LiquidStaking::init(1);
    assert_eq!(ls.config.state, State::Inactive);
    ls.config.set_state_active();
    assert!(ls.config.is_state_active());
    ls.config.set_state_inactive();
    assert!(!ls.config.is_state_active());
}
