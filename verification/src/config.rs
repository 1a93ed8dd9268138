use vstd::prelude::*;

verus! {

pub const MAX_PERCENTAGE: u64 = 100_000;

/// Epochs between requesting an unstake and the funds maturing.
pub const UNBOND_PERIOD: u64 = 10;

pub const MAX_DELEGATION_ADDRESSES: usize = 50;

/// The minimum base-asset amount worth delegating in one call.
pub const MIN_EGLD_TO_DELEGATE: u64 = 1_000_000_000_000_000_000;

/// Blocks that must pass after a claim sweep before reserves may be
/// recomputed, so asynchronous reward transfers can land.
pub const RECOMPUTE_BLOCK_OFFSET: u64 = 10;

pub const DEFAULT_GAS_TO_CLAIM_REWARDS: u64 = 6_000_000;

pub const MIN_GAS_FOR_CALLBACK: u64 = 12_000_000;

pub const MIN_GAS_FOR_ASYNC_CALL: u64 = 12_000_000;

#[derive(Clone, Copy, Debug, PartialEq, Eq, Structural)]
pub enum State {
    Inactive,
    Active,
}

/// What an unstake position token certifies: which contract holds the
/// unstaked funds, how much, and when they mature.
#[derive(Clone, Copy, Debug, PartialEq, Eq, Structural)]
pub struct UnstakeTokenAttributes {
    pub delegation_contract: u64,
    pub unstake_epoch: u64,
    pub unstake_amount: u64,
    pub unbond_epoch: u64,
}

/// The liquid-staking contract's scalar configuration and reserves.
#[derive(Clone, Copy, Debug)]
pub struct ConfigModule {
    pub state: State,
    pub ls_token_supply: u64,
    pub virtual_egld_reserve: u64,
    pub rewards_reserve: u64,
    pub total_withdrawn_egld: u64,
    pub unstake_token_supply: u64,
}

impl ConfigModule {
    pub fn new() -> (r: Self)
        ensures
            r.state == State::Inactive,
            r.ls_token_supply == 0,
            r.virtual_egld_reserve == 0,
            r.rewards_reserve == 0,
            r.total_withdrawn_egld == 0,
            r.unstake_token_supply == 0,
    {
        ConfigModule {
            state: State::Inactive,
            ls_token_supply: 0,
            virtual_egld_reserve: 0,
            rewards_reserve: 0,
            total_withdrawn_egld: 0,
            unstake_token_supply: 0,
        }
    }

    /// Owner action: opens the contract for user actions.
    pub fn set_state_active(&mut self)
        ensures
            *final(self) == (ConfigModule { state: State::Active, ..*old(self) }),
    {
        self.state = State::Active;
    }

    /// Owner action: closes the contract for user actions.
    pub fn set_state_inactive(&mut self)
        ensures
            *final(self) == (ConfigModule { state: State::Inactive, ..*old(self) }),
    {
        self.state = State::Inactive;
    }

    pub fn is_state_active(&self) -> (r: bool)
        ensures
            r == (self.state == State::Active),
    {
        self.state == State::Active
    }
}

} // verus!
