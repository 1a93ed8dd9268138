use vstd::prelude::*;

use crate::config::{
    ConfigModule, State, UnstakeTokenAttributes, MAX_DELEGATION_ADDRESSES, MIN_EGLD_TO_DELEGATE,
    MIN_GAS_FOR_ASYNC_CALL, MIN_GAS_FOR_CALLBACK, RECOMPUTE_BLOCK_OFFSET,
};
use crate::delegation::{
    addr_index, check_claim_operation, contains_address, data_of, pos_of_node, select_stake_pos,
    select_unstake_pos, ClaimStatus, ClaimStatusType, DelegationContractData, DelegationModule,
    DirectoryEntry,
};
use crate::errors::Error;
use crate::sovereign::Epoch;

verus! {

/// How a budget-limited sweep invocation ended.
#[derive(Clone, Copy, Debug, PartialEq, Eq, Structural)]
pub enum OperationCompletionStatus {
    Completed,
    InterruptedBeforeOutOfGas,
}

/// What the environment should do after booking an unbond request.
#[derive(Clone, Copy, Debug, PartialEq, Eq, Structural)]
pub enum UnbondAction {
    /// Burn the position token and pay the amount out directly.
    PayOut { amount: u64, burn_nonce: u64 },
    /// Issue an asynchronous withdraw call to the delegation contract.
    RequestWithdraw { delegation_contract: u64, gas_limit: u64 },
}

/// What the environment should do after a withdraw callback.
#[derive(Clone, Copy, Debug, PartialEq, Eq, Structural)]
pub enum WithdrawOutcome {
    /// Burn the position token and pay the amount out.
    PaidOut { amount: u64, burn_nonce: u64 },
    /// Give the position token back to its holder.
    NftReturned,
}

/// What the environment should do after a liquidity-add callback.
#[derive(Clone, Copy, Debug, PartialEq, Eq, Structural)]
pub enum AddLiquidityOutcome {
    /// Mint this many liquid-staking tokens for the depositor.
    Minted { ls_amount: u64 },
    /// The remote stake failed: refund the deposit.
    Refunded,
}

/// The liquid-staking accounting core: scalar reserves and the ordered
/// directory of downstream delegation contracts, with the resumable
/// reward-claim cycle. All transfers and remote calls are the
/// environment's business; methods return the actions to perform.
#[derive(Debug)]
pub struct LiquidStaking {
    pub config: ConfigModule,
    pub delegation: DelegationModule,
}

/// The base value a liquid-staking position is worth under the pool's
/// exchange rate.
pub open spec fn egld_value_of(ls_amount: u64, virtual_egld_reserve: u64, ls_supply: u64) -> int {
    ls_amount * virtual_egld_reserve / (ls_supply as int)
}

/// The liquid tokens minted for a base-asset deposit.
pub open spec fn ls_minted_for(amount: u64, virtual_egld_reserve: u64, ls_supply: u64) -> int {
    if ls_supply == 0 {
        amount as int
    } else {
        amount * ls_supply / (virtual_egld_reserve as int)
    }
}

impl LiquidStaking {
    pub open spec fn wf(self) -> bool {
        self.delegation.wf()
    }

    /// A fresh, inactive contract with an insufficient reserve, ready for
    /// a first claim cycle.
    pub fn init(current_epoch: Epoch) -> (r: Self)
        ensures
            r.wf(),
            r.config.state == State::Inactive,
            r.config.ls_token_supply == 0,
            r.config.virtual_egld_reserve == 0,
            r.config.rewards_reserve == 0,
            r.config.total_withdrawn_egld == 0,
            r.config.unstake_token_supply == 0,
            r.delegation.entries@.len() == 0,
            r.delegation.max_delegation_addresses == MAX_DELEGATION_ADDRESSES,
            r.delegation.claim_status.status == ClaimStatusType::Insufficient,
            r.delegation.claim_status.last_claim_epoch == current_epoch,
            r.delegation.ongoing is None,
    {
        LiquidStaking {
            config: ConfigModule::new(),
            delegation: DelegationModule::new(MAX_DELEGATION_ADDRESSES, current_epoch),
        }
    }

    /// The base value of a liquid-staking position under the current
    /// pool rate.
    pub fn get_ls_value_for_position(&self, ls_token_amount: u64) -> (r: u64)
        requires
            self.config.ls_token_supply > 0,
            egld_value_of(
                ls_token_amount,
                self.config.virtual_egld_reserve,
                self.config.ls_token_supply,
            ) <= u64::MAX,
        ensures
            r == egld_value_of(
                ls_token_amount,
                self.config.virtual_egld_reserve,
                self.config.ls_token_supply,
            ),
    {
        proof {
            assert((ls_token_amount as int) * (self.config.virtual_egld_reserve as int)
                <= u128::MAX) by (nonlinear_arith)
                requires
                    ls_token_amount <= u64::MAX,
                    self.config.virtual_egld_reserve <= u64::MAX,
            ;
        }
        let product: u128 = (ls_token_amount as u128) * (self.config.virtual_egld_reserve as u128);
        let q = product / (self.config.ls_token_supply as u128);
        q as u64
    }

    /// Recomputes the reward reserve once a finished sweep has had time
    /// to settle: any base-asset balance above the cycle's snapshot plus
    /// withdrawals is new reward, and the phase moves to delegable or
    /// insufficient by the minimum-delegation threshold.
    pub fn recompute_token_reserve(&mut self, current_block: u64, egld_balance: u64) -> (r: Result<
        (),
        Error,
    >)
        requires
            old(self).wf(),
            old(self).delegation.claim_status.last_claim_block + RECOMPUTE_BLOCK_OFFSET
                <= u64::MAX,
            old(self).config.rewards_reserve + egld_balance <= u64::MAX,
        ensures
            final(self).wf(),
            r is Err ==> *final(self) == *old(self),
            old(self).config.state != State::Active ==> r == Err::<(), Error>(Error::NotActive),
            old(self).config.state == State::Active && old(self).delegation.claim_status.status
                != ClaimStatusType::Finished ==> r == Err::<(), Error>(Error::PreconditionFailed),
            r is Ok <==> old(self).config.state == State::Active && old(self).delegation.claim_status.status == ClaimStatusType::Finished && current_block >= old(self).delegation.claim_status.last_claim_block + RECOMPUTE_BLOCK_OFFSET,
            r is Ok ==> {
                let rewards = if egld_balance > old(self).config.total_withdrawn_egld + old(self).delegation.claim_status.starting_token_reserve {
                    egld_balance - old(self).config.total_withdrawn_egld - old(self).delegation.claim_status.starting_token_reserve
                } else {
                    0
                };
                let new_reserve = old(self).config.rewards_reserve + rewards;
                &&& final(self).config.rewards_reserve == new_reserve
                &&& final(self).delegation.claim_status.status == (if new_reserve
                    >= MIN_EGLD_TO_DELEGATE {
                    ClaimStatusType::Delegable
                } else {
                    ClaimStatusType::Insufficient
                })
                &&& final(self).delegation.claim_status.last_claim_epoch == old(self).delegation.claim_status.last_claim_epoch
                &&& final(self).delegation.claim_status.last_claim_block == old(self).delegation.claim_status.last_claim_block
                &&& final(self).delegation.claim_status.current_node == old(self).delegation.claim_status.current_node
                &&& final(self).delegation.claim_status.starting_token_reserve == old(self).delegation.claim_status.starting_token_reserve
                &&& final(self).delegation.entries@ == old(self).delegation.entries@
                &&& final(self).delegation.ongoing == old(self).delegation.ongoing
                &&& final(self).delegation.next_node_id == old(self).delegation.next_node_id
                &&& final(self).delegation.max_delegation_addresses == old(self).delegation.max_delegation_addresses
                &&& final(self).config.state == old(self).config.state
                &&& final(self).config.ls_token_supply == old(self).config.ls_token_supply
                &&& final(self).config.virtual_egld_reserve == old(self).config.virtual_egld_reserve
                &&& final(self).config.total_withdrawn_egld == old(self).config.total_withdrawn_egld
                &&& final(self).config.unstake_token_supply == old(self).config.unstake_token_supply
            },
    {
        if !self.config.is_state_active() {
            return Err(Error::NotActive);
        }
        if !(self.delegation.claim_status.status == ClaimStatusType::Finished) {
            return Err(Error::PreconditionFailed);
        }
        if !(current_block >= self.delegation.claim_status.last_claim_block
            + RECOMPUTE_BLOCK_OFFSET) {
            return Err(Error::PreconditionFailed);
        }
        let snapshot = self.delegation.claim_status.starting_token_reserve;
        let withdrawn = self.config.total_withdrawn_egld;
        if egld_balance > withdrawn && egld_balance - withdrawn > snapshot {
            let rewards = egld_balance - withdrawn - snapshot;
            self.config.rewards_reserve = self.config.rewards_reserve + rewards;
        } else {
            proof {
                assert(!(egld_balance > withdrawn + snapshot));
            }
        }
        if self.config.rewards_reserve >= MIN_EGLD_TO_DELEGATE {
            self.delegation.claim_status.status = ClaimStatusType::Delegable;
        } else {
            self.delegation.claim_status.status = ClaimStatusType::Insufficient;
        }
        Ok(())
    }

    /// Starts delegating the accumulated rewards: picks the best-yield
    /// contract with room, zeroes the reserve, and hands back the remote
    /// call to perform. The callback settles or restores the reserve.
    pub fn delegate_rewards(&mut self, gas_left: u64) -> (r: Result<(u64, u64, u64), Error>)
        requires
            old(self).wf(),
        ensures
            final(self).wf(),
            r is Err ==> *final(self) == *old(self),
            old(self).config.state != State::Active ==> r == Err::<(u64, u64, u64), Error>(
                Error::NotActive,
            ),
            old(self).config.state == State::Active && old(self).delegation.claim_status.status
                != ClaimStatusType::Delegable ==> r == Err::<(u64, u64, u64), Error>(
                Error::PreconditionFailed,
            ),
            r is Ok <==> old(self).config.state == State::Active && old(self).delegation.claim_status.status == ClaimStatusType::Delegable && select_stake_pos(
                old(self).delegation.entries@,
                old(self).config.rewards_reserve,
            ) != -1 && gas_left > MIN_GAS_FOR_ASYNC_CALL + MIN_GAS_FOR_CALLBACK,
            r is Ok ==> {
                &&& r.unwrap().0 == old(self).delegation.entries@[select_stake_pos(
                    old(self).delegation.entries@,
                    old(self).config.rewards_reserve,
                )].address
                &&& r.unwrap().1 == old(self).config.rewards_reserve
                &&& r.unwrap().2 == gas_left - MIN_GAS_FOR_CALLBACK
                &&& final(self).config.rewards_reserve == 0
                &&& final(self).config.state == old(self).config.state
                &&& final(self).config.ls_token_supply == old(self).config.ls_token_supply
                &&& final(self).config.virtual_egld_reserve == old(self).config.virtual_egld_reserve
                &&& final(self).config.total_withdrawn_egld == old(self).config.total_withdrawn_egld
                &&& final(self).config.unstake_token_supply == old(self).config.unstake_token_supply
                &&& final(self).delegation.entries@ == old(self).delegation.entries@
                &&& final(self).delegation.claim_status == old(self).delegation.claim_status
                &&& final(self).delegation.ongoing == old(self).delegation.ongoing
                &&& final(self).delegation.next_node_id == old(self).delegation.next_node_id
                &&& final(self).delegation.max_delegation_addresses == old(self).delegation.max_delegation_addresses
            },
    {
        if !self.config.is_state_active() {
            return Err(Error::NotActive);
        }
        if !(self.delegation.claim_status.status == ClaimStatusType::Delegable) {
            return Err(Error::PreconditionFailed);
        }
        let rewards_reserve = self.config.rewards_reserve;
        let delegation_contract = match self.delegation.get_delegation_contract_for_delegate(
            rewards_reserve,
        ) {
            Ok(a) => a,
            Err(e) => {
                return Err(e);
            },
        };
        let gas_for_async_call = match get_gas_for_async_call(gas_left) {
            Ok(g) => g,
            Err(e) => {
                return Err(e);
            },
        };
        self.config.rewards_reserve = 0;
        Ok((delegation_contract, rewards_reserve, gas_for_async_call))
    }

    /// Books the outcome of the reward delegation: on success the stake
    /// lands in the contract's tally, the phase moves to redelegated and
    /// the virtual reserve grows; on failure the reserve is restored and
    /// the failing contract demoted.
    pub fn delegate_rewards_callback(
        &mut self,
        delegation_contract: u64,
        staked_tokens: u64,
        call_succeeded: bool,
    )
        requires
            old(self).wf(),
            contains_address(old(self).delegation.entries@, delegation_contract),
            call_succeeded ==> data_of(
                old(self).delegation.entries@,
                delegation_contract,
            ).total_staked_from_ls_contract + staked_tokens <= u64::MAX,
            call_succeeded ==> old(self).config.virtual_egld_reserve + staked_tokens <= u64::MAX,
        ensures
            final(self).wf(),
            call_succeeded ==> {
                let p = addr_index(old(self).delegation.entries@, delegation_contract);
                &&& final(self).delegation.entries@ == old(self).delegation.entries@.update(
                    p,
                    DirectoryEntry {
                        node_id: old(self).delegation.entries@[p].node_id,
                        address: delegation_contract,
                        data: DelegationContractData {
                            total_staked_from_ls_contract: (old(self).delegation.entries@[p].data.total_staked_from_ls_contract
                                + staked_tokens) as u64,
                            ..old(self).delegation.entries@[p].data
                        },
                    },
                )
                &&& final(self).delegation.claim_status.status == ClaimStatusType::Redelegated
                &&& final(self).config.virtual_egld_reserve == old(self).config.virtual_egld_reserve + staked_tokens
                &&& final(self).config.rewards_reserve == old(self).config.rewards_reserve
                &&& final(self).config.ls_token_supply == old(self).config.ls_token_supply
                &&& final(self).config.total_withdrawn_egld == old(self).config.total_withdrawn_egld
            },
            !call_succeeded ==> {
                let p = addr_index(old(self).delegation.entries@, delegation_contract);
                &&& final(self).config.rewards_reserve == staked_tokens
                &&& final(self).delegation.entries@ == old(self).delegation.entries@.remove(
                    p,
                ).push(old(self).delegation.entries@[p])
                &&& final(self).delegation.claim_status == old(self).delegation.claim_status
                &&& final(self).config.virtual_egld_reserve == old(self).config.virtual_egld_reserve
                &&& final(self).config.ls_token_supply == old(self).config.ls_token_supply
                &&& final(self).config.total_withdrawn_egld == old(self).config.total_withdrawn_egld
            },
    {
        if call_succeeded {
            bump_staked_from_ls(&mut self.delegation, delegation_contract, staked_tokens);
            self.delegation.claim_status.status = ClaimStatusType::Redelegated;
            self.config.virtual_egld_reserve = self.config.virtual_egld_reserve + staked_tokens;
        } else {
            self.config.rewards_reserve = staked_tokens;
            let demote_result = self.delegation.move_delegation_contract_to_back(
                delegation_contract,
            );
            proof {
                assert(demote_result is Ok);
            }
        }
    }

    /// Gate for adding liquidity: the deposit must meet the minimum, a
    /// contract with room must exist, and gas must suffice. Returns the
    /// remote delegation call to perform; nothing changes until its
    /// callback.
    pub fn add_liquidity(&self, payment: u64, gas_left: u64) -> (r: Result<(u64, u64), Error>)
        requires
            self.wf(),
        ensures
            self.config.state != State::Active ==> r == Err::<(u64, u64), Error>(Error::NotActive),
            self.config.state == State::Active && payment < MIN_EGLD_TO_DELEGATE ==> r == Err::<
                (u64, u64),
                Error,
            >(Error::BadPaymentAmount),
            r is Ok <==> self.config.state == State::Active && payment >= MIN_EGLD_TO_DELEGATE
                && select_stake_pos(self.delegation.entries@, payment) != -1 && gas_left
                > MIN_GAS_FOR_ASYNC_CALL + MIN_GAS_FOR_CALLBACK,
            r is Ok ==> r.unwrap().0 == self.delegation.entries@[select_stake_pos(
                self.delegation.entries@,
                payment,
            )].address && r.unwrap().1 == gas_left - MIN_GAS_FOR_CALLBACK,
    {
        if !self.config.is_state_active() {
            return Err(Error::NotActive);
        }
        if payment < MIN_EGLD_TO_DELEGATE {
            return Err(Error::BadPaymentAmount);
        }
        let delegation_contract = match self.delegation.get_delegation_contract_for_delegate(
            payment,
        ) {
            Ok(a) => a,
            Err(e) => {
                return Err(e);
            },
        };
        let gas_for_async_call = match get_gas_for_async_call(gas_left) {
            Ok(g) => g,
            Err(e) => {
                return Err(e);
            },
        };
        Ok((delegation_contract, gas_for_async_call))
    }

    /// Books the outcome of a liquidity deposit: on success the stake
    /// lands in the contract's tally, the pool mints liquid tokens for
    /// the depositor; on failure the deposit is refunded and the
    /// contract demoted.
    pub fn add_liquidity_callback(
        &mut self,
        delegation_contract: u64,
        staked_tokens: u64,
        call_succeeded: bool,
    ) -> (r: AddLiquidityOutcome)
        requires
            old(self).wf(),
            contains_address(old(self).delegation.entries@, delegation_contract),
            call_succeeded ==> data_of(
                old(self).delegation.entries@,
                delegation_contract,
            ).total_staked_from_ls_contract + staked_tokens <= u64::MAX,
            call_succeeded ==> old(self).config.virtual_egld_reserve + staked_tokens <= u64::MAX,
            call_succeeded ==> old(self).config.ls_token_supply > 0 ==> old(self).config.virtual_egld_reserve > 0,
            call_succeeded ==> old(self).config.ls_token_supply + ls_minted_for(
                staked_tokens,
                old(self).config.virtual_egld_reserve,
                old(self).config.ls_token_supply,
            ) <= u64::MAX,
        ensures
            final(self).wf(),
            call_succeeded ==> {
                let p = addr_index(old(self).delegation.entries@, delegation_contract);
                let ls = ls_minted_for(
                    staked_tokens,
                    old(self).config.virtual_egld_reserve,
                    old(self).config.ls_token_supply,
                );
                &&& r == (AddLiquidityOutcome::Minted { ls_amount: ls as u64 })
                &&& final(self).delegation.entries@ == old(self).delegation.entries@.update(
                    p,
                    DirectoryEntry {
                        node_id: old(self).delegation.entries@[p].node_id,
                        address: delegation_contract,
                        data: DelegationContractData {
                            total_staked_from_ls_contract: (old(self).delegation.entries@[p].data.total_staked_from_ls_contract
                                + staked_tokens) as u64,
                            ..old(self).delegation.entries@[p].data
                        },
                    },
                )
                &&& final(self).config.ls_token_supply == old(self).config.ls_token_supply + ls
                &&& final(self).config.virtual_egld_reserve == old(self).config.virtual_egld_reserve + staked_tokens
                &&& final(self).config.rewards_reserve == old(self).config.rewards_reserve
                &&& final(self).config.total_withdrawn_egld == old(self).config.total_withdrawn_egld
                &&& final(self).delegation.claim_status == old(self).delegation.claim_status
            },
            !call_succeeded ==> {
                let p = addr_index(old(self).delegation.entries@, delegation_contract);
                &&& r == AddLiquidityOutcome::Refunded
                &&& final(self).delegation.entries@ == old(self).delegation.entries@.remove(
                    p,
                ).push(old(self).delegation.entries@[p])
                &&& final(self).config == old(self).config
                &&& final(self).delegation.claim_status == old(self).delegation.claim_status
            },
    {
        if call_succeeded {
            bump_staked_from_ls(&mut self.delegation, delegation_contract, staked_tokens);
            let supply = self.config.ls_token_supply;
            let ls_amount: u64 = if supply == 0 {
                staked_tokens
            } else {
                proof {
                    assert((staked_tokens as int) * (supply as int) <= u128::MAX)
                        by (nonlinear_arith)
                        requires
                            staked_tokens <= u64::MAX,
                            supply <= u64::MAX,
                    ;
                    vstd::arithmetic::div_mod::lemma_div_pos_is_pos(
                        (staked_tokens as int) * (supply as int),
                        self.config.virtual_egld_reserve as int,
                    );
                    vstd::arithmetic::mul::lemma_mul_nonnegative(
                        staked_tokens as int,
                        supply as int,
                    );
                }
                let product: u128 = (staked_tokens as u128) * (supply as u128);
                let q = product / (self.config.virtual_egld_reserve as u128);
                q as u64
            };
            self.config.ls_token_supply = self.config.ls_token_supply + ls_amount;
            self.config.virtual_egld_reserve = self.config.virtual_egld_reserve + staked_tokens;
            AddLiquidityOutcome::Minted { ls_amount }
        } else {
            let demote_result = self.delegation.move_delegation_contract_to_back(
                delegation_contract,
            );
            proof {
                assert(demote_result is Ok);
            }
            AddLiquidityOutcome::Refunded
        }
    }

    /// One budget-limited invocation of the reward-claim sweep. The sweep
    /// walks the directory from its checkpoint, emitting one claim call
    /// per contract; when the budget runs out first, the cursor is
    /// persisted and the next invocation resumes exactly there, so no
    /// contract is skipped or claimed twice across a cycle.
    pub fn claim_rewards(
        &mut self,
        current_epoch: Epoch,
        current_block: u64,
        egld_balance: u64,
        max_claims: u64,
    ) -> (r: Result<(OperationCompletionStatus, Vec<u64>), Error>)
        requires
            old(self).wf(),
            match old(self).delegation.ongoing {
                Some(st) => st.status == ClaimStatusType::Pending && pos_of_node(
                    old(self).delegation.entries@,
                    st.current_node,
                ) != -1,
                None => true,
            },
            old(self).delegation.ongoing is None ==> egld_balance >= old(self).config.total_withdrawn_egld,
        ensures
            final(self).wf(),
            r is Err ==> *final(self) == *old(self),
            old(self).config.state != State::Active ==> r == Err::<
                (OperationCompletionStatus, Vec<u64>),
                Error,
            >(Error::NotActive),
            old(self).config.state == State::Active && old(self).delegation.entries@.len() == 0
                ==> r == Err::<(OperationCompletionStatus, Vec<u64>), Error>(
                Error::NoDelegationContracts,
            ),
            r is Ok <==> old(self).config.state == State::Active && old(self).delegation.entries@.len() > 0 && (match old(self).delegation.ongoing {
                Some(st) => st.status == ClaimStatusType::Pending,
                None => true,
            }) && (old(self).delegation.claim_status.status == ClaimStatusType::Redelegated || old(self).delegation.claim_status.status == ClaimStatusType::Insufficient) && current_epoch
                > old(self).delegation.claim_status.last_claim_epoch,
            r is Ok ==> {
                let a = addresses_of(old(self).delegation.entries@);
                let n = a.len() as int;
                let p0 = sweep_start(*old(self));
                let st0 = start_status(*old(self), current_epoch, egld_balance);
                &&& 0 <= p0 < n
                &&& r.unwrap().1@ == sweep_claims(a, p0, max_claims as int)
                &&& (r.unwrap().0 == OperationCompletionStatus::Completed <==> p0 + max_claims
                    >= n)
                &&& (r.unwrap().0 == OperationCompletionStatus::Completed ==> {
                    &&& final(self).delegation.ongoing is None
                    &&& final(self).delegation.claim_status == (ClaimStatus {
                        status: ClaimStatusType::Finished,
                        last_claim_epoch: st0.last_claim_epoch,
                        last_claim_block: current_block,
                        current_node: old(self).delegation.entries@[n - 1].node_id,
                        starting_token_reserve: st0.starting_token_reserve,
                    })
                })
                &&& (r.unwrap().0 == OperationCompletionStatus::InterruptedBeforeOutOfGas ==> {
                    &&& final(self).delegation.claim_status == old(self).delegation.claim_status
                    &&& final(self).delegation.ongoing == Some(
                        ClaimStatus {
                            status: ClaimStatusType::Pending,
                            last_claim_epoch: st0.last_claim_epoch,
                            last_claim_block: st0.last_claim_block,
                            current_node: old(self).delegation.entries@[p0 + max_claims].node_id,
                            starting_token_reserve: st0.starting_token_reserve,
                        },
                    )
                })
                &&& final(self).delegation.entries@ == old(self).delegation.entries@
                &&& final(self).delegation.next_node_id == old(self).delegation.next_node_id
                &&& final(self).delegation.max_delegation_addresses == old(self).delegation.max_delegation_addresses
                &&& final(self).config == old(self).config
            },
    {
        if !self.config.is_state_active() {
            return Err(Error::NotActive);
        }
        if self.delegation.entries.len() == 0 {
            return Err(Error::NoDelegationContracts);
        }
        let mut current = match self.delegation.ongoing {
            Some(st) => st,
            None => ClaimStatus::default(),
        };
        match check_claim_operation(&current, &self.delegation.claim_status, current_epoch) {
            Ok(()) => {},
            Err(e) => {
                return Err(e);
            },
        }
        if current.status == ClaimStatusType::NotStarted {
            current.status = ClaimStatusType::Pending;
            current.last_claim_epoch = current_epoch;
            current.current_node = self.delegation.entries[0].node_id;
            current.starting_token_reserve = egld_balance - self.config.total_withdrawn_egld;
            proof {
                crate::delegation::lemma_pos_of_node_at(self.delegation.entries@, 0);
            }
        }
        let p0 = match find_node(&self.delegation.entries, current.current_node) {
            Some(p) => p,
            None => {
                proof {
                    crate::delegation::lemma_pos_of_node(
                        self.delegation.entries@,
                        current.current_node,
                    );
                }
                assert(false);
                return Err(Error::PreconditionFailed);
            },
        };
        let ghost a = addresses_of(self.delegation.entries@);
        let n = self.delegation.entries.len();
        let mut claims: Vec<u64> = Vec::new();
        let mut cnt: usize = 0;
        let mut completed = false;
        proof {
            assert(claims@ =~= a.subrange(p0 as int, p0 as int));
        }
        while (cnt as u64) < max_claims && !completed
            invariant
                self.wf(),
                *self == *old(self),
                a == addresses_of(self.delegation.entries@),
                n == self.delegation.entries@.len(),
                0 <= p0 < n,
                p0 + cnt <= n,
                cnt as u64 <= max_claims,
                claims@ == a.subrange(p0 as int, p0 + cnt),
                !completed ==> p0 + cnt < n,
                completed ==> p0 + cnt == n,
                !completed && p0 + cnt < n ==> current.current_node
                    == self.delegation.entries@[p0 + cnt].node_id,
                completed ==> current.current_node == self.delegation.entries@[n - 1].node_id,
                current.status == ClaimStatusType::Pending,
                current.last_claim_epoch == start_status(
                    *old(self),
                    current_epoch,
                    egld_balance,
                ).last_claim_epoch,
                current.last_claim_block == start_status(
                    *old(self),
                    current_epoch,
                    egld_balance,
                ).last_claim_block,
                current.starting_token_reserve == start_status(
                    *old(self),
                    current_epoch,
                    egld_balance,
                ).starting_token_reserve,
            decreases n - (p0 + cnt), (if completed { 0int } else { 1int }),
        {
            let pos = p0 + cnt;
            claims.push(self.delegation.entries[pos].address);
            proof {
                assert(a.subrange(p0 as int, pos + 1) =~= a.subrange(p0 as int, pos as int).push(
                    a[pos as int],
                ));
            }
            cnt = cnt + 1;
            if pos + 1 == n {
                completed = true;
            } else {
                current.current_node = self.delegation.entries[pos + 1].node_id;
            }
        }
        proof {
            if completed {
                assert(claims@ =~= sweep_claims(a, p0 as int, max_claims as int));
            } else {
                assert(cnt as u64 == max_claims);
                assert(claims@ =~= sweep_claims(a, p0 as int, max_claims as int));
            }
        }
        if completed {
            self.delegation.claim_status = ClaimStatus {
                status: ClaimStatusType::Finished,
                last_claim_epoch: current.last_claim_epoch,
                last_claim_block: current_block,
                current_node: current.current_node,
                starting_token_reserve: current.starting_token_reserve,
            };
            self.delegation.ongoing = None;
            Ok((OperationCompletionStatus::Completed, claims))
        } else {
            self.delegation.ongoing = Some(current);
            Ok((OperationCompletionStatus::InterruptedBeforeOutOfGas, claims))
        }
    }

    /// Books an unbond request against a matured unstake position: when
    /// enough funds were already withdrawn from the contract, the
    /// position is settled locally; otherwise a remote withdraw call is
    /// requested. Atomic: on failure nothing changes.
    pub fn unbond_tokens(
        &mut self,
        payment_amount: u64,
        payment_nonce: u64,
        attrs: UnstakeTokenAttributes,
        current_epoch: Epoch,
        gas_left: u64,
    ) -> (r: Result<UnbondAction, Error>)
        requires
            old(self).wf(),
            ({
                let data = data_of(old(self).delegation.entries@, attrs.delegation_contract);
                data.total_unbonded_from_ls_contract >= attrs.unstake_amount ==> {
                    &&& data.total_unstaked_from_ls_contract >= attrs.unstake_amount
                    &&& old(self).config.total_withdrawn_egld >= attrs.unstake_amount
                    &&& old(self).config.unstake_token_supply >= attrs.unstake_amount
                }
            }),
        ensures
            final(self).wf(),
            r is Err ==> *final(self) == *old(self),
            old(self).config.state != State::Active ==> r == Err::<UnbondAction, Error>(
                Error::NotActive,
            ),
            old(self).config.state == State::Active && payment_amount == 0 ==> r == Err::<
                UnbondAction,
                Error,
            >(Error::BadPaymentAmount),
            old(self).config.state == State::Active && payment_amount > 0 && current_epoch
                < attrs.unbond_epoch ==> r == Err::<UnbondAction, Error>(
                Error::UnstakePeriodNotPassed,
            ),
            r is Ok <==> old(self).config.state == State::Active && payment_amount > 0
                && current_epoch >= attrs.unbond_epoch && (if data_of(
                old(self).delegation.entries@,
                attrs.delegation_contract,
            ).total_unbonded_from_ls_contract >= attrs.unstake_amount {
                contains_address(old(self).delegation.entries@, attrs.delegation_contract)
            } else {
                gas_left > MIN_GAS_FOR_ASYNC_CALL + MIN_GAS_FOR_CALLBACK
            }),
            r is Ok ==> {
                let data = data_of(old(self).delegation.entries@, attrs.delegation_contract);
                let p = addr_index(old(self).delegation.entries@, attrs.delegation_contract);
                if data.total_unbonded_from_ls_contract >= attrs.unstake_amount {
                    &&& r.unwrap() == (UnbondAction::PayOut {
                        amount: attrs.unstake_amount,
                        burn_nonce: payment_nonce,
                    })
                    &&& final(self).delegation.entries@ == old(self).delegation.entries@.update(
                        p,
                        DirectoryEntry {
                            node_id: old(self).delegation.entries@[p].node_id,
                            address: attrs.delegation_contract,
                            data: DelegationContractData {
                                total_unstaked_from_ls_contract: (
                                data.total_unstaked_from_ls_contract - attrs.unstake_amount) as u64,
                                total_unbonded_from_ls_contract: (
                                data.total_unbonded_from_ls_contract - attrs.unstake_amount) as u64,
                                ..old(self).delegation.entries@[p].data
                            },
                        },
                    )
                    &&& final(self).config.total_withdrawn_egld == old(self).config.total_withdrawn_egld - attrs.unstake_amount
                    &&& final(self).config.unstake_token_supply == old(self).config.unstake_token_supply - attrs.unstake_amount
                    &&& final(self).config.rewards_reserve == old(self).config.rewards_reserve
                    &&& final(self).config.virtual_egld_reserve == old(self).config.virtual_egld_reserve
                    &&& final(self).config.ls_token_supply == old(self).config.ls_token_supply
                    &&& final(self).delegation.claim_status == old(self).delegation.claim_status
                    &&& final(self).delegation.ongoing == old(self).delegation.ongoing
                } else {
                    &&& r.unwrap() == (UnbondAction::RequestWithdraw {
                        delegation_contract: attrs.delegation_contract,
                        gas_limit: (gas_left - MIN_GAS_FOR_CALLBACK) as u64,
                    })
                    &&& gas_left > MIN_GAS_FOR_ASYNC_CALL + MIN_GAS_FOR_CALLBACK
                    &&& *final(self) == *old(self)
                }
            },
            old(self).config.state == State::Active && payment_amount > 0 && current_epoch
                >= attrs.unbond_epoch && data_of(
                old(self).delegation.entries@,
                attrs.delegation_contract,
            ).total_unbonded_from_ls_contract < attrs.unstake_amount && gas_left
                <= MIN_GAS_FOR_ASYNC_CALL + MIN_GAS_FOR_CALLBACK ==> r == Err::<
                UnbondAction,
                Error,
            >(Error::InsufficientComputeBudget),
    {
        if !self.config.is_state_active() {
            return Err(Error::NotActive);
        }
        if payment_amount == 0 {
            return Err(Error::BadPaymentAmount);
        }
        if current_epoch < attrs.unbond_epoch {
            return Err(Error::UnstakePeriodNotPassed);
        }
        let unstake_amount = attrs.unstake_amount;
        let opt_p = crate::delegation::find_address(
            &self.delegation.entries,
            attrs.delegation_contract,
        );
        let unbonded = match opt_p {
            Some(p) => self.delegation.entries[p].data.total_unbonded_from_ls_contract,
            None => 0,
        };
        if unbonded >= unstake_amount {
            let p = match opt_p {
                Some(p) => p,
                None => {
                    // Only reachable for a zero unstake amount against an
                    // unknown contract; the data defaults to zeros then.
                    proof {
                        crate::delegation::lemma_addr_index(
                            self.delegation.entries@,
                            attrs.delegation_contract,
                        );
                    }
                    return Err(Error::UnknownTarget);
                },
            };
            let e = self.delegation.entries[p];
            let updated = DirectoryEntry {
                node_id: e.node_id,
                address: e.address,
                data: DelegationContractData {
                    total_unstaked_from_ls_contract: e.data.total_unstaked_from_ls_contract
                        - unstake_amount,
                    total_unbonded_from_ls_contract: e.data.total_unbonded_from_ls_contract
                        - unstake_amount,
                    ..e.data
                },
            };
            self.delegation.entries.set(p, updated);
            self.config.total_withdrawn_egld = self.config.total_withdrawn_egld - unstake_amount;
            self.config.unstake_token_supply = self.config.unstake_token_supply - unstake_amount;
            Ok(UnbondAction::PayOut { amount: unstake_amount, burn_nonce: payment_nonce })
        } else {
            let gas = match get_gas_for_async_call(gas_left) {
                Ok(g) => g,
                Err(e) => {
                    return Err(e);
                },
            };
            Ok(
                UnbondAction::RequestWithdraw {
                    delegation_contract: attrs.delegation_contract,
                    gas_limit: gas,
                },
            )
        }
    }

    /// Books the outcome of a remote withdraw: withdrawn funds raise the
    /// contract's unbonded tally and the withdrawn total; when the tally
    /// covers the position it is settled and paid out, else (or on
    /// failure) the position token goes back to its holder.
    pub fn withdraw_tokens_callback(
        &mut self,
        delegation_contract: u64,
        unstake_token_nonce: u64,
        unstake_token_amount: u64,
        withdraw_amount: u64,
        call_succeeded: bool,
    ) -> (r: WithdrawOutcome)
        requires
            old(self).wf(),
            contains_address(old(self).delegation.entries@, delegation_contract),
            call_succeeded ==> data_of(
                old(self).delegation.entries@,
                delegation_contract,
            ).total_unbonded_from_ls_contract + withdraw_amount <= u64::MAX,
            call_succeeded ==> old(self).config.total_withdrawn_egld + withdraw_amount
                <= u64::MAX,
            call_succeeded && data_of(
                old(self).delegation.entries@,
                delegation_contract,
            ).total_unbonded_from_ls_contract + withdraw_amount >= unstake_token_amount ==> {
                &&& data_of(
                    old(self).delegation.entries@,
                    delegation_contract,
                ).total_unstaked_from_ls_contract >= unstake_token_amount
                &&& old(self).config.total_withdrawn_egld + withdraw_amount
                    >= unstake_token_amount
                &&& old(self).config.unstake_token_supply >= unstake_token_amount
            },
        ensures
            final(self).wf(),
            !call_succeeded ==> *final(self) == *old(self) && r == WithdrawOutcome::NftReturned,
            call_succeeded ==> {
                let p = addr_index(old(self).delegation.entries@, delegation_contract);
                let data = old(self).delegation.entries@[p].data;
                let new_unbonded = data.total_unbonded_from_ls_contract + withdraw_amount;
                if new_unbonded >= unstake_token_amount {
                    &&& r == (WithdrawOutcome::PaidOut {
                        amount: unstake_token_amount,
                        burn_nonce: unstake_token_nonce,
                    })
                    &&& final(self).delegation.entries@ == old(self).delegation.entries@.update(
                        p,
                        DirectoryEntry {
                            node_id: old(self).delegation.entries@[p].node_id,
                            address: delegation_contract,
                            data: DelegationContractData {
                                total_unstaked_from_ls_contract: (
                                data.total_unstaked_from_ls_contract - unstake_token_amount) as u64,
                                total_unbonded_from_ls_contract: (new_unbonded
                                    - unstake_token_amount) as u64,
                                ..data
                            },
                        },
                    )
                    &&& final(self).config.total_withdrawn_egld == old(self).config.total_withdrawn_egld + withdraw_amount - unstake_token_amount
                    &&& final(self).config.unstake_token_supply == old(self).config.unstake_token_supply - unstake_token_amount
                } else {
                    &&& r == WithdrawOutcome::NftReturned
                    &&& final(self).delegation.entries@ == old(self).delegation.entries@.update(
                        p,
                        DirectoryEntry {
                            node_id: old(self).delegation.entries@[p].node_id,
                            address: delegation_contract,
                            data: DelegationContractData {
                                total_unbonded_from_ls_contract: new_unbonded as u64,
                                ..data
                            },
                        },
                    )
                    &&& final(self).config.total_withdrawn_egld == old(self).config.total_withdrawn_egld + withdraw_amount
                    &&& final(self).config.unstake_token_supply == old(self).config.unstake_token_supply
                }
            },
            call_succeeded ==> final(self).config.rewards_reserve == old(self).config.rewards_reserve && final(self).config.virtual_egld_reserve == old(self).config.virtual_egld_reserve && final(self).config.ls_token_supply == old(self).config.ls_token_supply && final(self).delegation.claim_status == old(self).delegation.claim_status && final(self).delegation.ongoing == old(self).delegation.ongoing,
    {
        if !call_succeeded {
            return WithdrawOutcome::NftReturned;
        }
        let p = match crate::delegation::find_address(
            &self.delegation.entries,
            delegation_contract,
        ) {
            Some(p) => p,
            None => {
                proof {
                    crate::delegation::lemma_addr_index(
                        self.delegation.entries@,
                        delegation_contract,
                    );
                }
                assert(false);
                return WithdrawOutcome::NftReturned;
            },
        };
        if withdraw_amount > 0 {
            let e = self.delegation.entries[p];
            let updated = DirectoryEntry {
                node_id: e.node_id,
                address: e.address,
                data: DelegationContractData {
                    total_unbonded_from_ls_contract: e.data.total_unbonded_from_ls_contract
                        + withdraw_amount,
                    ..e.data
                },
            };
            self.delegation.entries.set(p, updated);
            self.config.total_withdrawn_egld = self.config.total_withdrawn_egld + withdraw_amount;
        }
        let e = self.delegation.entries[p];
        if e.data.total_unbonded_from_ls_contract >= unstake_token_amount {
            let updated = DirectoryEntry {
                node_id: e.node_id,
                address: e.address,
                data: DelegationContractData {
                    total_unstaked_from_ls_contract: e.data.total_unstaked_from_ls_contract
                        - unstake_token_amount,
                    total_unbonded_from_ls_contract: e.data.total_unbonded_from_ls_contract
                        - unstake_token_amount,
                    ..e.data
                },
            };
            self.delegation.entries.set(p, updated);
            self.config.total_withdrawn_egld = self.config.total_withdrawn_egld
                - unstake_token_amount;
            self.config.unstake_token_supply = self.config.unstake_token_supply
                - unstake_token_amount;
            WithdrawOutcome::PaidOut {
                amount: unstake_token_amount,
                burn_nonce: unstake_token_nonce,
            }
        } else {
            WithdrawOutcome::NftReturned
        }
    }
}

/// What every asynchronous-call site shares: the gas budgeting rule.
pub trait CommonModule {
    /// The gas granted to an asynchronous call, leaving room for its
    /// callback; fails when too little is left.
    fn get_gas_for_async_call(&self, gas_left: u64) -> (r: Result<u64, Error>)
        ensures
            r is Ok <==> gas_left > MIN_GAS_FOR_ASYNC_CALL + MIN_GAS_FOR_CALLBACK,
            r is Err ==> r == Err::<u64, Error>(Error::InsufficientComputeBudget),
            r is Ok ==> r.unwrap() == gas_left - MIN_GAS_FOR_CALLBACK,
    ;
}

impl CommonModule for LiquidStaking {
    fn get_gas_for_async_call(&self, gas_left: u64) -> (r: Result<u64, Error>) {
        get_gas_for_async_call(gas_left)
    }
}

/// The gas granted to an asynchronous call, leaving room for its
/// callback; fails when too little is left.
pub fn get_gas_for_async_call(gas_left: u64) -> (r: Result<u64, Error>)
    ensures
        r is Ok <==> gas_left > MIN_GAS_FOR_ASYNC_CALL + MIN_GAS_FOR_CALLBACK,
        r is Err ==> r == Err::<u64, Error>(Error::InsufficientComputeBudget),
        r is Ok ==> r.unwrap() == gas_left - MIN_GAS_FOR_CALLBACK,
{
    if gas_left > MIN_GAS_FOR_ASYNC_CALL + MIN_GAS_FOR_CALLBACK {
        Ok(gas_left - MIN_GAS_FOR_CALLBACK)
    } else {
        Err(Error::InsufficientComputeBudget)
    }
}

/// Adds `delta` to the ledger's staked tally at the contract's entry.
fn bump_staked_from_ls(delegation: &mut DelegationModule, address: u64, delta: u64)
    requires
        old(delegation).wf(),
        contains_address(old(delegation).entries@, address),
        data_of(old(delegation).entries@, address).total_staked_from_ls_contract + delta
            <= u64::MAX,
    ensures
        final(delegation).wf(),
        ({
            let p = addr_index(old(delegation).entries@, address);
            final(delegation).entries@ == old(delegation).entries@.update(
                p,
                DirectoryEntry {
                    node_id: old(delegation).entries@[p].node_id,
                    address,
                    data: DelegationContractData {
                        total_staked_from_ls_contract: (old(
                            delegation,
                        ).entries@[p].data.total_staked_from_ls_contract + delta) as u64,
                        ..old(delegation).entries@[p].data
                    },
                },
            )
        }),
        final(delegation).next_node_id == old(delegation).next_node_id,
        final(delegation).claim_status == old(delegation).claim_status,
        final(delegation).ongoing == old(delegation).ongoing,
        final(delegation).max_delegation_addresses == old(delegation).max_delegation_addresses,
{
    let p = match crate::delegation::find_address(&delegation.entries, address) {
        Some(p) => p,
        None => {
            proof {
                crate::delegation::lemma_addr_index(delegation.entries@, address);
            }
            assert(false);
            0
        },
    };
    let e = delegation.entries[p];
    let updated = DirectoryEntry {
        node_id: e.node_id,
        address: e.address,
        data: DelegationContractData {
            total_staked_from_ls_contract: e.data.total_staked_from_ls_contract + delta,
            ..e.data
        },
    };
    delegation.entries.set(p, updated);
}

/// The addresses of the directory's entries, in order.
pub open spec fn addresses_of(s: Seq<DirectoryEntry>) -> Seq<u64> {
    s.map_values(|e: DirectoryEntry| e.address)
}

/// Where this invocation's sweep starts: the checkpointed cursor, or the
/// head for a fresh cycle.
pub open spec fn sweep_start(g: LiquidStaking) -> int {
    match g.delegation.ongoing {
        Some(st) => pos_of_node(g.delegation.entries@, st.current_node),
        None => 0,
    }
}

/// The cycle fields this invocation runs under: the checkpointed status,
/// or a freshly prepared one.
pub open spec fn start_status(g: LiquidStaking, current_epoch: Epoch, egld_balance: u64) -> ClaimStatus {
    match g.delegation.ongoing {
        Some(st) => st,
        None => ClaimStatus {
            status: ClaimStatusType::Pending,
            last_claim_epoch: current_epoch,
            last_claim_block: 0,
            current_node: 0,
            starting_token_reserve: (egld_balance - g.config.total_withdrawn_egld) as u64,
        },
    }
}

/// The addresses one budget-limited invocation claims from, starting at
/// position `p`: the next `budget` entries, or everything to the tail if
/// the budget reaches it.
pub open spec fn sweep_claims(a: Seq<u64>, p: int, budget: int) -> Seq<u64> {
    a.subrange(p, sweep_next(p, budget, a.len() as int))
}

/// The cursor position after an invocation with this budget.
pub open spec fn sweep_next(p: int, budget: int, len: int) -> int {
    if p + budget > len {
        len
    } else {
        p + budget
    }
}

/// Resumability: splitting a sweep's budget over two invocations claims
/// exactly the same addresses, in the same order, as one invocation with
/// the combined budget — nothing is skipped and nothing is claimed
/// twice. By induction this extends to any number of interruptions.
pub proof fn lemma_sweep_resumable(a: Seq<u64>, p: int, b1: int, b2: int)
    requires
        0 <= p <= a.len(),
        b1 >= 0,
        b2 >= 0,
    ensures
        sweep_claims(a, p, b1) + sweep_claims(a, sweep_next(p, b1, a.len() as int), b2)
            == sweep_claims(a, p, b1 + b2),
        sweep_next(sweep_next(p, b1, a.len() as int), b2, a.len() as int) == sweep_next(
            p,
            b1 + b2,
            a.len() as int,
        ),
{
    let n = a.len() as int;
    let m = sweep_next(p, b1, n);
    assert(sweep_claims(a, p, b1) + sweep_claims(a, m, b2) =~= sweep_claims(a, p, b1 + b2));
}

/// A sweep with enough budget claims every directory address exactly
/// once, from the head to the tail.
pub proof fn lemma_sweep_complete(a: Seq<u64>, budget: int)
    requires
        budget >= a.len(),
    ensures
        sweep_claims(a, 0, budget) == a,
{
    assert(sweep_claims(a, 0, budget) =~= a);
}

/// A sweep never claims one position twice: with distinct directory
/// addresses, the claim list holds distinct addresses.
pub proof fn lemma_sweep_no_repeats(a: Seq<u64>, p: int, budget: int)
    requires
        0 <= p <= a.len(),
        budget >= 0,
        forall|i: int, j: int| 0 <= i < j < a.len() ==> a[i] != a[j],
    ensures
        forall|i: int, j: int|
            0 <= i < j < sweep_claims(a, p, budget).len() ==> sweep_claims(a, p, budget)[i]
                != sweep_claims(a, p, budget)[j],
{
}

/// Finds the node with this handle.
fn find_node(entries: &Vec<DirectoryEntry>, id: u32) -> (r: Option<usize>)
    ensures
        match r {
            Some(p) => p < entries@.len() && entries@[p as int].node_id == id && pos_of_node(
                entries@,
                id,
            ) == p,
            None => pos_of_node(entries@, id) == -1,
        },
{
    let mut i: usize = 0;
    while i < entries.len()
        invariant
            i <= entries.len(),
            forall|j: int| 0 <= j < i ==> (#[trigger] entries@[j]).node_id != id,
        decreases entries.len() - i,
    {
        if entries[i].node_id == id {
            proof {
                crate::delegation::lemma_pos_of_node_at(entries@, i as int);
            }
            return Some(i);
        }
        i += 1;
    }
    proof {
        crate::delegation::lemma_pos_of_node(entries@, id);
        if pos_of_node(entries@, id) != -1 {
            let w = pos_of_node(entries@, id);
            assert(entries@[w].node_id != id);
        }
    }
    None
}

} // verus!
