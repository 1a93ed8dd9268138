use vstd::prelude::*;

use crate::common_actions::{
    before_add_delegation, edge_tokens, edge_total, values_total, AddDelegationArgs,
    RemoveDelegationArgs,
};
use crate::common_storage::CommonStorageModule;
use crate::errors::Error;
use crate::identity::{absent, slot_of, AddressId};
use crate::sovereign::{Epoch, SovereignModule};
use crate::token_whitelist::{contains_token, TokenWhitelistModule, EGLD_TOKEN_ID};
use crate::unbond::{
    bucket_tokens, buckets_of, keep_later, released_key_amount, released_total,
    released_whitelisted, UnbondModule,
};
use crate::unique_payments::{
    all_positive, key_amount, total_amount, AssetKey, Payment, UniquePayments,
};
use crate::validator::ValidatorModule;

verus! {

/// The metachain's shard id: the highest shard id a 32-bit signed value
/// can hold. A system delegation contract always lives there.
pub const MAX_SHARD_ID: u32 = 2147483647;

/// The restaking ledger: user balances, token pricing, validator and
/// sovereign-chain registries with their delegation accounts, and the
/// epoch-bucketed unbond queue. All host interaction (transfers, clocks,
/// remote calls) happens outside; every method takes and returns plain
/// values.
#[derive(Debug)]
pub struct GravityRestaking {
    pub whitelist: TokenWhitelistModule,
    pub storage: CommonStorageModule,
    pub validators: ValidatorModule,
    pub sovereigns: SovereignModule,
    pub unbond: UnbondModule,
}

/// The balance the ledger holds for `caller` (empty when unregistered).
pub open spec fn user_balance(g: GravityRestaking, caller: u64) -> Seq<Payment> {
    let s = slot_of(g.storage.user_ids@, caller);
    if s == -1 {
        Seq::empty()
    } else {
        g.storage.user_tokens@[s]@
    }
}

impl GravityRestaking {
    pub open spec fn wf(self) -> bool {
        &&& self.whitelist.wf()
        &&& self.storage.wf()
        &&& self.validators.wf()
        &&& self.sovereigns.wf()
        &&& self.unbond.wf()
    }

    /// Everything except the unbond queue and user balances is unchanged
    /// between the two states.
    pub open spec fn same_registries(self, other: GravityRestaking) -> bool {
        &&& self.whitelist == other.whitelist
        &&& self.validators.validator_id == other.validators.validator_id
        &&& self.validators.configs@ == other.validators.configs@
        &&& self.validators.targets@ == other.validators.targets@
        &&& self.sovereigns.sov_id == other.sovereigns.sov_id
        &&& self.sovereigns.infos@ == other.sovereigns.infos@
        &&& self.sovereigns.targets@ == other.sovereigns.targets@
    }

    /// Nothing at all differs between the two states (up to container
    /// views).
    pub open spec fn same_ledger(self, other: GravityRestaking) -> bool {
        &&& self.same_registries(other)
        &&& self.storage.user_ids == other.storage.user_ids
        &&& self.storage.user_tokens@ == other.storage.user_tokens@
        &&& self.unbond.spec_unbond_epochs() == other.unbond.spec_unbond_epochs()
        &&& self.unbond.view_entries() == other.unbond.view_entries()
    }

    /// A fresh ledger with the configured unbond delay.
    pub fn init(unbond_epochs: Epoch) -> (r: Self)
        ensures
            r.wf(),
            r.unbond.spec_unbond_epochs() == unbond_epochs,
            r.storage.user_ids@.len() == 0,
            r.validators.validator_id@.len() == 0,
            r.sovereigns.sov_id@.len() == 0,
            r.whitelist@.len() == 0,
    {
        GravityRestaking {
            whitelist: TokenWhitelistModule::new(),
            storage: CommonStorageModule::new(),
            validators: ValidatorModule::new(),
            sovereigns: SovereignModule::new(),
            unbond: UnbondModule::new(unbond_epochs),
        }
    }

    /// Owner action: sets the unbond delay for newly enqueued assets.
    pub fn set_unbond_epochs(&mut self, unbond_epochs: Epoch)
        requires
            old(self).wf(),
        ensures
            final(self).wf(),
            final(self).unbond.spec_unbond_epochs() == unbond_epochs,
            final(self).same_registries(*old(self)),
            final(self).storage.user_ids == old(self).storage.user_ids,
            final(self).storage.user_tokens@ == old(self).storage.user_tokens@,
            final(self).unbond.view_entries() == old(self).unbond.view_entries(),
    {
        self.unbond.set_unbond_epochs(unbond_epochs);
    }

    /// Books caller-attached assets into the caller's free balance,
    /// registering the caller on first sight. Every asset must be
    /// whitelisted; a failure changes nothing.
    pub fn deposit(&mut self, caller: u64, payments: Vec<Payment>) -> (r: Result<(), Error>)
        requires
            old(self).wf(),
            all_positive(payments@),
            old(self).storage.user_ids@.len() + 1 < u64::MAX,
            total_amount(user_balance(*old(self), caller)) + total_amount(payments@) <= u64::MAX,
        ensures
            final(self).wf(),
            r is Err ==> final(self).same_ledger(*old(self)),
            r is Ok <==> payments@.len() > 0 && (forall|i: int|
                0 <= i < payments@.len() ==> contains_token(
                    old(self).whitelist@,
                    (#[trigger] payments@[i]).token_id,
                )),
            r is Err ==> (r == Err::<(), Error>(Error::EmptyArgs) <==> payments@.len() == 0),
            r is Err && payments@.len() > 0 ==> r == Err::<(), Error>(Error::TokenNotWhitelisted),
            r is Ok ==> {
                &&& forall|k: AssetKey| #[trigger] key_amount(user_balance(*final(self), caller), k)
                    == key_amount(user_balance(*old(self), caller), k) + key_amount(payments@, k)
                &&& final(self).same_registries(*old(self))
                &&& final(self).unbond.view_entries() == old(self).unbond.view_entries()
                &&& final(self).unbond.spec_unbond_epochs() == old(self).unbond.spec_unbond_epochs()
                &&& forall|u: u64| u != caller ==> user_balance(*final(self), u) == user_balance(
                    *old(self),
                    u,
                )
            },
    {
        if payments.len() == 0 {
            return Err(Error::EmptyArgs);
        }
        self.deposit_common(caller, payments)
    }

    /// The deposit bookkeeping shared by deposits and re-deposited unbond
    /// releases: whitelist check, handle allocation, balance merge.
    pub fn deposit_common(&mut self, caller: u64, payments: Vec<Payment>) -> (r: Result<(), Error>)
        requires
            old(self).wf(),
            all_positive(payments@),
            old(self).storage.user_ids@.len() + 1 < u64::MAX,
            total_amount(user_balance(*old(self), caller)) + total_amount(payments@) <= u64::MAX,
        ensures
            final(self).wf(),
            r is Err ==> final(self).same_ledger(*old(self)) && r == Err::<(), Error>(
                Error::TokenNotWhitelisted,
            ),
            r is Ok <==> forall|i: int|
                0 <= i < payments@.len() ==> contains_token(
                    old(self).whitelist@,
                    (#[trigger] payments@[i]).token_id,
                ),
            r is Ok ==> {
                &&& forall|k: AssetKey| #[trigger] key_amount(user_balance(*final(self), caller), k)
                    == key_amount(user_balance(*old(self), caller), k) + key_amount(payments@, k)
                &&& final(self).same_registries(*old(self))
                &&& final(self).unbond.view_entries() == old(self).unbond.view_entries()
                &&& final(self).unbond.spec_unbond_epochs() == old(self).unbond.spec_unbond_epochs()
                &&& forall|u: u64| u != caller ==> user_balance(*final(self), u) == user_balance(
                    *old(self),
                    u,
                )
            },
    {
        // Check pass: every asset must be whitelisted before anything moves.
        let mut i: usize = 0;
        while i < payments.len()
            invariant
                i <= payments.len(),
                *self == *old(self),
                self.wf(),
                forall|j: int|
                    0 <= j < i ==> contains_token(
                        self.whitelist@,
                        (#[trigger] payments@[j]).token_id,
                    ),
            decreases payments.len() - i,
        {
            if !self.whitelist.is_token_whitelisted(payments[i].token_id) {
                return Err(Error::TokenNotWhitelisted);
            }
            i += 1;
        }
        proof {
            crate::identity::lemma_slot_of(old(self).storage.user_ids@, caller);
        }
        let caller_id = self.storage.get_or_insert_user(caller);
        proof {
            crate::identity::lemma_slot_of_unique(
                self.storage.user_ids@,
                caller,
                caller_id - 1,
            );
        }
        let n = self.storage.user_tokens.len();
        proof {
            assert(1 <= caller_id <= n as u64);
        }
        let uidx = (caller_id - 1) as usize;
        let ghost pre = self.storage.user_tokens@;
        let mut tokens = self.storage.user_tokens.remove(uidx);
        proof {
            crate::unique_payments::lemma_total_nonneg(user_balance(*old(self), caller));
            crate::unique_payments::lemma_total_nonneg(payments@);
        }
        let incoming = UniquePayments::new_from_payments(payments);
        tokens.merge_with(incoming);
        self.storage.user_tokens.insert(uidx, tokens);
        proof {
            lemma_tokens_remove_insert(pre, self.storage.user_tokens@, caller_id - 1);
            assert forall|u: u64| u != caller implies user_balance(*self, u) == user_balance(
                *old(self),
                u,
            ) by {
                crate::identity::lemma_slot_of(old(self).storage.user_ids@, u);
                lemma_slot_of_push_other(old(self).storage.user_ids@, caller, u);
                crate::identity::lemma_slot_of(self.storage.user_ids@, u);
            }
        }
        Ok(())
    }

    /// Books the outcome of an asynchronous stake move: on success the
    /// moved base-asset value lands in the original caller's balance; on
    /// failure nothing changes.
    pub fn move_stake_callback(
        &mut self,
        original_caller: u64,
        original_value: u64,
        call_succeeded: bool,
    )
        requires
            old(self).wf(),
            old(self).storage.user_ids@.len() + 1 < u64::MAX,
            key_amount(
                user_balance(*old(self), original_caller),
                AssetKey { token_id: EGLD_TOKEN_ID, nonce: 0 },
            ) + original_value <= u64::MAX,
            original_value > 0,
        ensures
            final(self).wf(),
            !call_succeeded ==> final(self).same_ledger(*old(self)),
            call_succeeded ==> {
                &&& forall|k: AssetKey|
                    #[trigger] key_amount(user_balance(*final(self), original_caller), k)
                        == key_amount(user_balance(*old(self), original_caller), k) + if k
                        == (AssetKey { token_id: EGLD_TOKEN_ID, nonce: 0 }) {
                        original_value as int
                    } else {
                        0
                    }
                &&& final(self).same_registries(*old(self))
                &&& final(self).unbond.view_entries() == old(self).unbond.view_entries()
                &&& final(self).unbond.spec_unbond_epochs() == old(self).unbond.spec_unbond_epochs()
                &&& forall|u: u64|
                    u != original_caller ==> user_balance(*final(self), u) == user_balance(
                        *old(self),
                        u,
                    )
            },
    {
        if !call_succeeded {
            return ;
        }
        proof {
            crate::identity::lemma_slot_of(old(self).storage.user_ids@, original_caller);
        }
        let caller_id = self.storage.get_or_insert_user(original_caller);
        proof {
            crate::identity::lemma_slot_of_unique(
                self.storage.user_ids@,
                original_caller,
                caller_id - 1,
            );
        }
        let n = self.storage.user_tokens.len();
        proof {
            assert(1 <= caller_id <= n as u64);
        }
        let uidx = (caller_id - 1) as usize;
        let ghost pre = self.storage.user_tokens@;
        let mut tokens = self.storage.user_tokens.remove(uidx);
        let egld_payment = Payment { token_id: EGLD_TOKEN_ID, nonce: 0, amount: original_value };
        tokens.add_payment(egld_payment);
        self.storage.user_tokens.insert(uidx, tokens);
        proof {
            lemma_tokens_remove_insert(pre, self.storage.user_tokens@, caller_id - 1);
            assert forall|u: u64| u != original_caller implies user_balance(*self, u)
                == user_balance(*old(self), u) by {
                crate::identity::lemma_slot_of(old(self).storage.user_ids@, u);
                lemma_slot_of_push_other(old(self).storage.user_ids@, original_caller, u);
                crate::identity::lemma_slot_of(self.storage.user_ids@, u);
            }
        }
    }

    /// Releases every matured unbond bucket of the caller and hands the
    /// assets back for transfer. An empty result is a no-op, not an error.
    pub fn unbond_tokens_caller(&mut self, caller: u64, current_epoch: Epoch) -> (r: Result<
        Vec<Payment>,
        Error,
    >)
        requires
            old(self).wf(),
            released_total(
                buckets_of(old(self).unbond.view_entries(), user_slot_id(*old(self), caller)),
                current_epoch,
            ) <= u64::MAX,
        ensures
            final(self).wf(),
            r is Err ==> final(self).same_ledger(*old(self)) && r == Err::<Vec<Payment>, Error>(
                Error::UnknownAddress,
            ),
            r is Err <==> absent(old(self).storage.user_ids@, caller),
            r is Ok ==> {
                let uid = user_slot_id(*old(self), caller);
                &&& forall|k: AssetKey| #[trigger] key_amount(r.unwrap()@, k)
                    == released_key_amount(
                    buckets_of(old(self).unbond.view_entries(), uid),
                    current_epoch,
                    k,
                )
                &&& buckets_of(final(self).unbond.view_entries(), uid) == keep_later(
                    buckets_of(old(self).unbond.view_entries(), uid),
                    current_epoch,
                )
                &&& forall|u2: AddressId|
                    u2 != uid ==> buckets_of(final(self).unbond.view_entries(), u2) == buckets_of(
                        old(self).unbond.view_entries(),
                        u2,
                    )
                &&& final(self).same_registries(*old(self))
                &&& final(self).storage.user_ids == old(self).storage.user_ids
                &&& final(self).storage.user_tokens@ == old(self).storage.user_tokens@
                &&& final(self).unbond.spec_unbond_epochs() == old(self).unbond.spec_unbond_epochs()
            },
    {
        let caller_id = match self.storage.user_ids.get_id_non_zero(caller) {
            Ok(id) => id,
            Err(e) => {
                return Err(e);
            },
        };
        proof {
            crate::identity::lemma_slot_of_unique(self.storage.user_ids@, caller, caller_id - 1);
        }
        let released = self.unbond.unbond_tokens_common(caller_id, current_epoch);
        Ok(released.into_payments())
    }

    /// Releases every matured unbond bucket of the caller and re-deposits
    /// the assets into the caller's free balance. Fails, changing
    /// nothing, when a released asset is no longer whitelisted.
    pub fn unbond_tokens_gravity_restaking(&mut self, caller: u64, current_epoch: Epoch) -> (r:
        Result<(), Error>)
        requires
            old(self).wf(),
            released_total(
                buckets_of(old(self).unbond.view_entries(), user_slot_id(*old(self), caller)),
                current_epoch,
            ) <= u64::MAX,
            total_amount(user_balance(*old(self), caller)) + released_total(
                buckets_of(old(self).unbond.view_entries(), user_slot_id(*old(self), caller)),
                current_epoch,
            ) <= u64::MAX,
        ensures
            final(self).wf(),
            r is Err ==> final(self).same_ledger(*old(self)),
            r is Ok <==> !absent(old(self).storage.user_ids@, caller) && released_whitelisted(
                buckets_of(old(self).unbond.view_entries(), user_slot_id(*old(self), caller)),
                current_epoch,
                old(self).whitelist@,
            ),
            absent(old(self).storage.user_ids@, caller) ==> r == Err::<(), Error>(
                Error::UnknownAddress,
            ),
            r == Err::<(), Error>(Error::TokenNotWhitelisted) ==> !released_whitelisted(
                buckets_of(old(self).unbond.view_entries(), user_slot_id(*old(self), caller)),
                current_epoch,
                old(self).whitelist@,
            ),
            r is Ok ==> {
                let uid = user_slot_id(*old(self), caller);
                &&& forall|k: AssetKey| #[trigger] key_amount(user_balance(*final(self), caller), k)
                    == key_amount(user_balance(*old(self), caller), k) + released_key_amount(
                    buckets_of(old(self).unbond.view_entries(), uid),
                    current_epoch,
                    k,
                )
                &&& buckets_of(final(self).unbond.view_entries(), uid) == keep_later(
                    buckets_of(old(self).unbond.view_entries(), uid),
                    current_epoch,
                )
                &&& forall|u2: AddressId|
                    u2 != uid ==> buckets_of(final(self).unbond.view_entries(), u2) == buckets_of(
                        old(self).unbond.view_entries(),
                        u2,
                    )
                &&& final(self).same_registries(*old(self))
                &&& final(self).storage.user_ids == old(self).storage.user_ids
                &&& forall|u: u64| u != caller ==> user_balance(*final(self), u) == user_balance(
                    *old(self),
                    u,
                )
            },
    {
        let caller_id = match self.storage.user_ids.get_id_non_zero(caller) {
            Ok(id) => id,
            Err(e) => {
                return Err(e);
            },
        };
        proof {
            crate::identity::lemma_slot_of_unique(self.storage.user_ids@, caller, caller_id - 1);
        }
        if !self.unbond.released_tokens_whitelisted(caller_id, current_epoch, &self.whitelist) {
            return Err(Error::TokenNotWhitelisted);
        }
        let released = self.unbond.unbond_tokens_common(caller_id, current_epoch);
        let n = self.storage.user_tokens.len();
        proof {
            assert(1 <= caller_id <= n as u64);
        }
        let uidx = (caller_id - 1) as usize;
        let ghost pre = self.storage.user_tokens@;
        let mut tokens = self.storage.user_tokens.remove(uidx);
        tokens.merge_with(released);
        self.storage.user_tokens.insert(uidx, tokens);
        proof {
            lemma_tokens_remove_insert(pre, self.storage.user_tokens@, caller_id - 1);
            assert forall|u: u64| u != caller implies user_balance(*self, u) == user_balance(
                *old(self),
                u,
            ) by {
                crate::identity::lemma_slot_of(self.storage.user_ids@, u);
            }
        }
        Ok(())
    }

    /// Withdraws the listed amounts from the caller's free balance,
    /// handing back the base-asset total and the token payments to
    /// transfer. Atomic: on failure nothing changes.
    pub fn withdraw(&mut self, caller: u64, tokens: Vec<Payment>) -> (r: Result<
        (u64, Vec<Payment>),
        Error,
    >)
        requires
            old(self).wf(),
            total_amount(tokens@) <= u64::MAX,
        ensures
            final(self).wf(),
            r is Err ==> final(self).same_ledger(*old(self)),
            r is Ok <==> tokens@.len() > 0 && !absent(old(self).storage.user_ids@, caller)
                && all_positive(tokens@) && (forall|k: AssetKey|
                #[trigger] key_amount(tokens@, k) <= key_amount(
                    user_balance(*old(self), caller),
                    k,
                )),
            r is Err ==> (r == Err::<(u64, Vec<Payment>), Error>(Error::EmptyArgs) <==> tokens@.len()
                == 0),
            tokens@.len() > 0 && absent(old(self).storage.user_ids@, caller) ==> r == Err::<
                (u64, Vec<Payment>),
                Error,
            >(Error::UnknownAddress),
            r is Ok ==> {
                &&& r.unwrap().0 == egld_amount(tokens@)
                &&& r.unwrap().1@ == non_egld(tokens@)
                &&& forall|k: AssetKey|
                    #[trigger] key_amount(user_balance(*final(self), caller), k) == key_amount(
                        user_balance(*old(self), caller),
                        k,
                    ) - key_amount(tokens@, k)
                &&& final(self).same_registries(*old(self))
                &&& final(self).storage.user_ids == old(self).storage.user_ids
                &&& final(self).unbond.view_entries() == old(self).unbond.view_entries()
                &&& final(self).unbond.spec_unbond_epochs() == old(self).unbond.spec_unbond_epochs()
                &&& forall|u: u64| u != caller ==> user_balance(*final(self), u) == user_balance(
                    *old(self),
                    u,
                )
            },
    {
        match require_non_empty_args(&tokens) {
            Ok(()) => {},
            Err(e) => {
                return Err(e);
            },
        }
        let caller_id = match self.storage.user_ids.get_id_non_zero(caller) {
            Ok(id) => id,
            Err(e) => {
                return Err(e);
            },
        };
        proof {
            crate::identity::lemma_slot_of_unique(self.storage.user_ids@, caller, caller_id - 1);
        }
        let n = self.storage.user_tokens.len();
        proof {
            assert(1 <= caller_id <= n as u64);
        }
        let uidx = (caller_id - 1) as usize;
        let ghost pre = self.storage.user_tokens@;
        let original = self.storage.user_tokens.remove(uidx);
        let mut working = original.clone();
        let ghost orig_view = original@;
        let ghost req = tokens@;
        let mut total_egld: u64 = 0;
        let mut output_payments: Vec<Payment> = Vec::new();
        let mut j: usize = 0;
        proof {
            assert(req.subrange(0, 0) =~= Seq::<Payment>::empty());
            assert forall|k: AssetKey| #[trigger] key_amount(req.subrange(0, 0), k) <= key_amount(
                orig_view,
                k,
            ) by {
                crate::unique_payments::lemma_key_amount_nonneg(orig_view, k);
            }
        }
        while j < tokens.len()
            invariant
                j <= tokens.len(),
                tokens@ == req,
                working.wf(),
                orig_view == user_balance(*old(self), caller),
                total_amount(req) <= u64::MAX,
                all_positive(req.subrange(0, j as int)),
                total_egld == egld_amount(req.subrange(0, j as int)),
                output_payments@ == non_egld(req.subrange(0, j as int)),
                forall|k: AssetKey| #[trigger] key_amount(working@, k) == key_amount(orig_view, k)
                    - key_amount(req.subrange(0, j as int), k),
                forall|k: AssetKey| #[trigger] key_amount(req.subrange(0, j as int), k)
                    <= key_amount(orig_view, k),
                old(self).wf(),
                !absent(old(self).storage.user_ids@, caller),
                self.storage.user_tokens@ == pre.remove(caller_id - 1),
                self.storage.user_ids == old(self).storage.user_ids,
                self.whitelist == old(self).whitelist,
                self.validators == old(self).validators,
                self.sovereigns == old(self).sovereigns,
                self.unbond == old(self).unbond,
                pre == old(self).storage.user_tokens@,
                1 <= caller_id < u64::MAX,
                caller_id - 1 < pre.len(),
                uidx == caller_id - 1,
                original == pre[caller_id - 1],
                crate::identity::slot_of(old(self).storage.user_ids@, caller) == caller_id - 1,
            decreases tokens.len() - j,
        {
            let p = tokens[j];
            if p.amount == 0 {
                proof {
                    assert(!all_positive(req));
                }
                self.storage.user_tokens.insert(uidx, original);
                proof {
                    assert(self.storage.user_tokens@ =~= pre);
                    assert(self.wf());
                }
                return Err(Error::ZeroAmount);
            }
            let deduct_result = working.deduct_payment(&p);
            if deduct_result.is_err() {
                proof {
                    crate::unique_payments::lemma_sub_push(req, j as int);
                    crate::unique_payments::lemma_key_amount_push(
                        req.subrange(0, j as int),
                        p,
                        p.key(),
                    );
                    crate::common_actions::lemma_key_split(req, j + 1, p.key());
                    crate::unique_payments::lemma_key_amount_nonneg(
                        req.subrange(j + 1, req.len() as int),
                        p.key(),
                    );
                    assert(key_amount(req, p.key()) > key_amount(orig_view, p.key()));
                }
                self.storage.user_tokens.insert(uidx, original);
                proof {
                    assert(self.storage.user_tokens@ =~= pre);
                    assert(self.wf());
                }
                return Err(Error::InsufficientBalance);
            }
            proof {
                crate::unique_payments::lemma_sub_push(req, j as int);
                assert forall|k: AssetKey| #[trigger] key_amount(req.subrange(0, j + 1), k)
                    <= key_amount(orig_view, k) by {
                    crate::unique_payments::lemma_key_amount_push(req.subrange(0, j as int), p, k);
                }
                assert forall|k: AssetKey| #[trigger] key_amount(working@, k) == key_amount(
                    orig_view,
                    k,
                ) - key_amount(req.subrange(0, j + 1), k) by {
                    crate::unique_payments::lemma_key_amount_push(req.subrange(0, j as int), p, k);
                }
                lemma_egld_le_total(req.subrange(0, j + 1));
                crate::unique_payments::lemma_total_split(req, j + 1);
                crate::unique_payments::lemma_total_nonneg(req.subrange(j + 1, req.len() as int));
                assert(req.subrange(0, j + 1).drop_last() =~= req.subrange(0, j as int));
            }
            if p.token_id == EGLD_TOKEN_ID {
                total_egld = total_egld + p.amount;
            } else {
                output_payments.push(p);
            }
            j += 1;
        }
        proof {
            assert(req.subrange(0, req.len() as int) =~= req);
        }
        self.storage.user_tokens.insert(uidx, working);
        proof {
            lemma_tokens_remove_insert(pre, self.storage.user_tokens@, caller_id - 1);
            assert forall|u: u64| u != caller implies user_balance(*self, u) == user_balance(
                *old(self),
                u,
            ) by {
                crate::identity::lemma_slot_of(self.storage.user_ids@, u);
            }
        }
        Ok((total_egld, output_payments))
    }

    /// Withdraws the caller's entire free balance: the first base-asset
    /// entry (if any) as a plain amount, the rest as token payments.
    /// Fails when nothing is held.
    pub fn withdraw_all(&mut self, caller: u64) -> (r: Result<(u64, Vec<Payment>), Error>)
        requires
            old(self).wf(),
        ensures
            final(self).wf(),
            r is Err ==> final(self).same_ledger(*old(self)),
            r is Ok <==> !absent(old(self).storage.user_ids@, caller) && user_balance(
                *old(self),
                caller,
            ).len() > 0,
            absent(old(self).storage.user_ids@, caller) ==> r == Err::<(u64, Vec<Payment>), Error>(
                Error::UnknownAddress,
            ),
            !absent(old(self).storage.user_ids@, caller) && user_balance(*old(self), caller).len()
                == 0 ==> r == Err::<(u64, Vec<Payment>), Error>(Error::NothingToWithdraw),
            r is Ok ==> {
                let bs = user_balance(*old(self), caller);
                let fi = first_egld_index(bs);
                &&& user_balance(*final(self), caller) == Seq::<Payment>::empty()
                &&& (fi == -1 ==> r.unwrap().0 == 0 && r.unwrap().1@ == bs)
                &&& (fi != -1 ==> r.unwrap().0 == bs[fi].amount && r.unwrap().1@ == bs.remove(fi))
                &&& final(self).same_registries(*old(self))
                &&& final(self).storage.user_ids == old(self).storage.user_ids
                &&& final(self).unbond.view_entries() == old(self).unbond.view_entries()
                &&& final(self).unbond.spec_unbond_epochs() == old(self).unbond.spec_unbond_epochs()
                &&& forall|u: u64| u != caller ==> user_balance(*final(self), u) == user_balance(
                    *old(self),
                    u,
                )
            },
    {
        let caller_id = match self.storage.user_ids.get_id_non_zero(caller) {
            Ok(id) => id,
            Err(e) => {
                return Err(e);
            },
        };
        proof {
            crate::identity::lemma_slot_of_unique(self.storage.user_ids@, caller, caller_id - 1);
        }
        let n = self.storage.user_tokens.len();
        proof {
            assert(1 <= caller_id <= n as u64);
        }
        let uidx = (caller_id - 1) as usize;
        let ghost pre = self.storage.user_tokens@;
        let original = self.storage.user_tokens.remove(uidx);
        if original.is_empty() {
            self.storage.user_tokens.insert(uidx, original);
            proof {
                assert(self.storage.user_tokens@ =~= pre);
            }
            return Err(Error::NothingToWithdraw);
        }
        self.storage.user_tokens.insert(uidx, UniquePayments::new());
        let ghost bs = original@;
        let mut output_payments = original.into_payments();
        proof {
            lemma_first_egld_index(bs);
        }
        let mut found = false;
        let mut i: usize = 0;
        while i < output_payments.len() && !found
            invariant
                i <= output_payments.len(),
                output_payments@ == bs,
                forall|a: int| 0 <= a < i ==> (#[trigger] bs[a]).token_id != EGLD_TOKEN_ID,
                found ==> i < bs.len() && bs[i as int].token_id == EGLD_TOKEN_ID,
            decreases output_payments.len() - i, (if found { 0int } else { 1int }),
        {
            if output_payments[i].token_id == EGLD_TOKEN_ID {
                found = true;
            } else {
                i += 1;
            }
        }
        let mut total_egld: u64 = 0;
        if found {
            proof {
                lemma_first_egld_index_at(bs, i as int);
            }
            let egld_payment = output_payments.remove(i);
            total_egld = egld_payment.amount;
        } else {
            proof {
                if first_egld_index(bs) != -1 {
                    assert(bs[first_egld_index(bs)].token_id == EGLD_TOKEN_ID);
                }
            }
        }
        proof {
            lemma_tokens_remove_insert(pre, self.storage.user_tokens@, caller_id - 1);
            assert forall|u: u64| u != caller implies user_balance(*self, u) == user_balance(
                *old(self),
                u,
            ) by {
                crate::identity::lemma_slot_of(self.storage.user_ids@, u);
            }
        }
        Ok((total_egld, output_payments))
    }

    /// Delegates assets from the caller's free balance to a registered
    /// validator, valuing them in base units and enforcing the
    /// validator's cap. Atomic: on failure nothing changes.
    pub fn delegate_to_validator(&mut self, caller: u64, validator: u64, tokens: Vec<Payment>) -> (r:
        Result<(), Error>)
        requires
            old(self).wf(),
            values_total(old(self).whitelist@, tokens@) <= u64::MAX,
            total_amount(tokens@) <= u64::MAX,
            !absent(old(self).storage.user_ids@, caller) && !absent(
                old(self).validators.validator_id@,
                validator,
            ) ==> {
                let us = slot_of(old(self).storage.user_ids@, caller);
                let vs = slot_of(old(self).validators.validator_id@, validator);
                &&& old(self).validators.targets@[vs].total_delegated + values_total(
                    old(self).whitelist@,
                    tokens@,
                ) <= u64::MAX
                &&& total_amount(
                    edge_tokens(
                        old(self).validators.targets@[vs].edges@,
                        (us + 1) as AddressId,
                    ),
                ) + total_amount(tokens@) <= u64::MAX
            },
        ensures
            final(self).wf(),
            r is Err ==> final(self).same_ledger(*old(self)),
            r is Ok <==> tokens@.len() > 0 && !absent(old(self).storage.user_ids@, caller)
                && !absent(old(self).validators.validator_id@, validator) && all_positive(tokens@)
                && (forall|i: int|
                0 <= i < tokens@.len() ==> contains_token(
                    old(self).whitelist@,
                    (#[trigger] tokens@[i]).token_id,
                )) && (forall|k: AssetKey|
                #[trigger] key_amount(tokens@, k) <= key_amount(
                    user_balance(*old(self), caller),
                    k,
                )) && (match old(self).validators.configs@[slot_of(
                old(self).validators.validator_id@,
                validator,
            )].opt_max_delegation {
                Some(max) => old(self).validators.targets@[slot_of(
                    old(self).validators.validator_id@,
                    validator,
                )].total_delegated + values_total(old(self).whitelist@, tokens@) <= max,
                None => true,
            }),
            r is Ok ==> {
                let us = slot_of(old(self).storage.user_ids@, caller);
                let vs = slot_of(old(self).validators.validator_id@, validator);
                let uid = (us + 1) as AddressId;
                let v = values_total(old(self).whitelist@, tokens@);
                &&& forall|k: AssetKey|
                    #[trigger] key_amount(user_balance(*final(self), caller), k) == key_amount(
                        user_balance(*old(self), caller),
                        k,
                    ) - key_amount(tokens@, k)
                &&& final(self).validators.targets@.len() == old(self).validators.targets@.len()
                &&& final(self).validators.targets@[vs].total_delegated == old(self).validators.targets@[vs].total_delegated + v
                &&& edge_total(final(self).validators.targets@[vs].edges@, uid) == edge_total(
                    old(self).validators.targets@[vs].edges@,
                    uid,
                ) + v
                &&& forall|k: AssetKey|
                    key_amount(
                        edge_tokens(final(self).validators.targets@[vs].edges@, uid),
                        k,
                    ) == key_amount(
                        edge_tokens(old(self).validators.targets@[vs].edges@, uid),
                        k,
                    ) + key_amount(tokens@, k)
                &&& final(self).validators.targets@[vs].delegators@.contains(uid)
                &&& forall|j: int|
                    0 <= j < old(self).validators.targets@.len() && j != vs ==> final(self).validators.targets@[j] == old(self).validators.targets@[j]
                &&& final(self).whitelist == old(self).whitelist
                &&& final(self).validators.validator_id == old(self).validators.validator_id
                &&& final(self).validators.configs@ == old(self).validators.configs@
                &&& final(self).sovereigns.sov_id == old(self).sovereigns.sov_id
                &&& final(self).sovereigns.infos@ == old(self).sovereigns.infos@
                &&& final(self).sovereigns.targets@ == old(self).sovereigns.targets@
                &&& final(self).storage.user_ids == old(self).storage.user_ids
                &&& final(self).unbond.view_entries() == old(self).unbond.view_entries()
                &&& final(self).unbond.spec_unbond_epochs() == old(self).unbond.spec_unbond_epochs()
                &&& forall|u: u64| u != caller ==> user_balance(*final(self), u) == user_balance(
                    *old(self),
                    u,
                )
            },
    {
        match require_non_empty_args(&tokens) {
            Ok(()) => {},
            Err(e) => {
                return Err(e);
            },
        }
        let caller_id = match self.storage.user_ids.get_id_non_zero(caller) {
            Ok(id) => id,
            Err(e) => {
                return Err(e);
            },
        };
        proof {
            crate::identity::lemma_slot_of_unique(self.storage.user_ids@, caller, caller_id - 1);
        }
        let validator_id = match self.validators.validator_id.get_id_non_zero(validator) {
            Ok(id) => id,
            Err(e) => {
                return Err(e);
            },
        };
        proof {
            crate::identity::lemma_slot_of_unique(
                self.validators.validator_id@,
                validator,
                validator_id - 1,
            );
        }
        let un = self.storage.user_tokens.len();
        proof {
            assert(1 <= caller_id <= un as u64);
        }
        let uidx = (caller_id - 1) as usize;
        let ghost preu = self.storage.user_tokens@;
        let original_tokens = self.storage.user_tokens.remove(uidx);
        let mut working = original_tokens.clone();
        match before_add_delegation(&self.whitelist, &mut working, tokens) {
            Err(e) => {
                self.storage.user_tokens.insert(uidx, original_tokens);
                proof {
                    assert(self.storage.user_tokens@ =~= preu);
                    assert(self.wf());
                }
                Err(e)
            },
            Ok((output_payments, total)) => {
                let vn = self.validators.targets.len();
                proof {
                    assert(1 <= validator_id <= vn as u64);
                }
                let vidx = (validator_id - 1) as usize;
                let cap = self.validators.configs[vidx].opt_max_delegation;
                let ghost pret = self.validators.targets@;
                let mut t = self.validators.targets.remove(vidx);
                let args = AddDelegationArgs {
                    payments_to_add: output_payments,
                    total_amount: total,
                    caller_id,
                    opt_max_delegation: cap,
                };
                match t.add_delegation(args) {
                    Err(e) => {
                        self.validators.targets.insert(vidx, t);
                        self.storage.user_tokens.insert(uidx, original_tokens);
                        proof {
                            assert(self.validators.targets@ =~= pret);
                            assert(self.storage.user_tokens@ =~= preu);
                            assert(self.wf());
                        }
                        Err(e)
                    },
                    Ok(()) => {
                        self.validators.targets.insert(vidx, t);
                        self.storage.user_tokens.insert(uidx, working);
                        proof {
                            lemma_targets_remove_insert(
                                pret,
                                self.validators.targets@,
                                validator_id - 1,
                            );
                            lemma_tokens_remove_insert(
                                preu,
                                self.storage.user_tokens@,
                                caller_id - 1,
                            );
                            assert forall|u: u64| u != caller implies user_balance(*self, u)
                                == user_balance(*old(self), u) by {
                                crate::identity::lemma_slot_of(self.storage.user_ids@, u);
                            }
                        }
                        Ok(())
                    },
                }
            },
        }
    }

    /// Revokes delegated assets from a validator; the revoked assets go
    /// into the caller's unbond queue, maturing after the configured
    /// delay. Atomic: on failure nothing changes.
    pub fn revoke_delegation_from_validator(
        &mut self,
        caller: u64,
        validator: u64,
        tokens: Vec<Payment>,
        current_epoch: Epoch,
    ) -> (r: Result<(), Error>)
        requires
            old(self).wf(),
            total_amount(tokens@) <= u64::MAX,
            current_epoch + old(self).unbond.spec_unbond_epochs() <= u64::MAX,
            !absent(old(self).storage.user_ids@, caller) && !absent(
                old(self).validators.validator_id@,
                validator,
            ) ==> {
                let us = slot_of(old(self).storage.user_ids@, caller);
                let vs = slot_of(old(self).validators.validator_id@, validator);
                let uid = (us + 1) as AddressId;
                &&& (crate::common_actions::edge_of(
                    old(self).validators.targets@[vs].edges@,
                    uid,
                ) is Some ==> values_total(old(self).whitelist@, tokens@) <= edge_total(
                    old(self).validators.targets@[vs].edges@,
                    uid,
                ))
                &&& total_amount(
                    bucket_tokens(
                        buckets_of(old(self).unbond.view_entries(), uid),
                        (current_epoch + old(self).unbond.spec_unbond_epochs()) as Epoch,
                    ),
                ) + total_amount(tokens@) <= u64::MAX
            },
        ensures
            final(self).wf(),
            r is Err ==> final(self).same_ledger(*old(self)),
            r is Ok <==> tokens@.len() > 0 && !absent(old(self).storage.user_ids@, caller)
                && !absent(old(self).validators.validator_id@, validator)
                && crate::common_actions::edge_of(
                old(self).validators.targets@[slot_of(
                    old(self).validators.validator_id@,
                    validator,
                )].edges@,
                (slot_of(old(self).storage.user_ids@, caller) + 1) as AddressId,
            ) is Some && all_positive(tokens@) && (forall|k: AssetKey|
                #[trigger] key_amount(tokens@, k) <= key_amount(
                    edge_tokens(
                        old(self).validators.targets@[slot_of(
                            old(self).validators.validator_id@,
                            validator,
                        )].edges@,
                        (slot_of(old(self).storage.user_ids@, caller) + 1) as AddressId,
                    ),
                    k,
                )),
            r is Ok ==> {
                let us = slot_of(old(self).storage.user_ids@, caller);
                let vs = slot_of(old(self).validators.validator_id@, validator);
                let uid = (us + 1) as AddressId;
                let v = values_total(old(self).whitelist@, tokens@);
                let fe = (current_epoch + old(self).unbond.spec_unbond_epochs()) as Epoch;
                &&& final(self).validators.targets@.len() == old(self).validators.targets@.len()
                &&& final(self).validators.targets@[vs].total_delegated == old(self).validators.targets@[vs].total_delegated - v
                &&& edge_total(final(self).validators.targets@[vs].edges@, uid) == edge_total(
                    old(self).validators.targets@[vs].edges@,
                    uid,
                ) - v
                &&& forall|k: AssetKey|
                    key_amount(
                        edge_tokens(final(self).validators.targets@[vs].edges@, uid),
                        k,
                    ) == key_amount(
                        edge_tokens(old(self).validators.targets@[vs].edges@, uid),
                        k,
                    ) - key_amount(tokens@, k)
                &&& (edge_total(final(self).validators.targets@[vs].edges@, uid) == 0 ==> !final(self).validators.targets@[vs].delegators@.contains(uid))
                &&& forall|j: int|
                    0 <= j < old(self).validators.targets@.len() && j != vs ==> final(self).validators.targets@[j] == old(self).validators.targets@[j]
                &&& forall|k: AssetKey|
                    #[trigger] key_amount(
                        bucket_tokens(
                            buckets_of(final(self).unbond.view_entries(), uid),
                            fe,
                        ),
                        k,
                    ) == key_amount(
                        bucket_tokens(
                            buckets_of(old(self).unbond.view_entries(), uid),
                            fe,
                        ),
                        k,
                    ) + key_amount(tokens@, k)
                &&& forall|e: Epoch|
                    e != fe ==> crate::unbond::bucket_at(
                        buckets_of(final(self).unbond.view_entries(), uid),
                        e,
                    ) == crate::unbond::bucket_at(
                        buckets_of(old(self).unbond.view_entries(), uid),
                        e,
                    )
                &&& forall|u2: AddressId|
                    u2 != uid ==> buckets_of(final(self).unbond.view_entries(), u2) == buckets_of(
                        old(self).unbond.view_entries(),
                        u2,
                    )
                &&& final(self).whitelist == old(self).whitelist
                &&& final(self).validators.validator_id == old(self).validators.validator_id
                &&& final(self).validators.configs@ == old(self).validators.configs@
                &&& final(self).sovereigns.sov_id == old(self).sovereigns.sov_id
                &&& final(self).sovereigns.infos@ == old(self).sovereigns.infos@
                &&& final(self).sovereigns.targets@ == old(self).sovereigns.targets@
                &&& final(self).storage.user_ids == old(self).storage.user_ids
                &&& final(self).storage.user_tokens@ == old(self).storage.user_tokens@
                &&& final(self).unbond.spec_unbond_epochs() == old(self).unbond.spec_unbond_epochs()
            },
    {
        match require_non_empty_args(&tokens) {
            Ok(()) => {},
            Err(e) => {
                return Err(e);
            },
        }
        let caller_id = match self.storage.user_ids.get_id_non_zero(caller) {
            Ok(id) => id,
            Err(e) => {
                return Err(e);
            },
        };
        proof {
            crate::identity::lemma_slot_of_unique(self.storage.user_ids@, caller, caller_id - 1);
        }
        let validator_id = match self.validators.validator_id.get_id_non_zero(validator) {
            Ok(id) => id,
            Err(e) => {
                return Err(e);
            },
        };
        proof {
            crate::identity::lemma_slot_of_unique(
                self.validators.validator_id@,
                validator,
                validator_id - 1,
            );
        }
        let vn = self.validators.targets.len();
        proof {
            assert(1 <= validator_id <= vn as u64);
        }
        let vidx = (validator_id - 1) as usize;
        let ghost pret = self.validators.targets@;
        let mut t = self.validators.targets.remove(vidx);
        let args = RemoveDelegationArgs { tokens, caller_id };
        match t.remove_delegation(&self.whitelist, args) {
            Err(e) => {
                self.validators.targets.insert(vidx, t);
                proof {
                    assert(self.validators.targets@ =~= pret);
                    assert(self.wf());
                }
                Err(e)
            },
            Ok(out) => {
                self.validators.targets.insert(vidx, t);
                proof {
                    lemma_targets_remove_insert(pret, self.validators.targets@, validator_id - 1);
                }
                self.unbond.add_unbond_tokens(caller_id, out, current_epoch);
                Ok(())
            },
        }
    }

    /// Delegates assets from the caller's free balance to a registered
    /// sovereign chain, resolved by name, under the chain's optional
    /// restaking cap. Atomic: on failure nothing changes.
    pub fn delegate_for_sovereign_chain(
        &mut self,
        caller: u64,
        sov_name: Vec<u8>,
        tokens: Vec<Payment>,
    ) -> (r: Result<(), Error>)
        requires
            old(self).wf(),
            values_total(old(self).whitelist@, tokens@) <= u64::MAX,
            total_amount(tokens@) <= u64::MAX,
            !absent(old(self).storage.user_ids@, caller) && crate::sovereign::sov_name_slot(
                old(self).sovereigns.infos@,
                sov_name@,
            ) != -1 ==> {
                let us = slot_of(old(self).storage.user_ids@, caller);
                let ss = crate::sovereign::sov_name_slot(old(self).sovereigns.infos@, sov_name@);
                &&& old(self).sovereigns.targets@[ss].total_delegated + values_total(
                    old(self).whitelist@,
                    tokens@,
                ) <= u64::MAX
                &&& total_amount(
                    edge_tokens(old(self).sovereigns.targets@[ss].edges@, (us + 1) as AddressId),
                ) + total_amount(tokens@) <= u64::MAX
            },
        ensures
            final(self).wf(),
            r is Err ==> final(self).same_ledger(*old(self)),
            r is Ok <==> tokens@.len() > 0 && !absent(old(self).storage.user_ids@, caller)
                && crate::sovereign::sov_name_slot(old(self).sovereigns.infos@, sov_name@) != -1
                && all_positive(tokens@) && (forall|i: int|
                0 <= i < tokens@.len() ==> contains_token(
                    old(self).whitelist@,
                    (#[trigger] tokens@[i]).token_id,
                )) && (forall|k: AssetKey|
                #[trigger] key_amount(tokens@, k) <= key_amount(
                    user_balance(*old(self), caller),
                    k,
                )) && (match old(self).sovereigns.infos@[crate::sovereign::sov_name_slot(
                old(self).sovereigns.infos@,
                sov_name@,
            )].unwrap().opt_max_restaking_cap {
                Some(max) => old(self).sovereigns.targets@[crate::sovereign::sov_name_slot(
                    old(self).sovereigns.infos@,
                    sov_name@,
                )].total_delegated + values_total(old(self).whitelist@, tokens@) <= max,
                None => true,
            }),
            r is Ok ==> {
                let us = slot_of(old(self).storage.user_ids@, caller);
                let ss = crate::sovereign::sov_name_slot(old(self).sovereigns.infos@, sov_name@);
                let uid = (us + 1) as AddressId;
                let v = values_total(old(self).whitelist@, tokens@);
                &&& forall|k: AssetKey|
                    #[trigger] key_amount(user_balance(*final(self), caller), k) == key_amount(
                        user_balance(*old(self), caller),
                        k,
                    ) - key_amount(tokens@, k)
                &&& final(self).sovereigns.targets@.len() == old(self).sovereigns.targets@.len()
                &&& final(self).sovereigns.targets@[ss].total_delegated == old(self).sovereigns.targets@[ss].total_delegated + v
                &&& edge_total(final(self).sovereigns.targets@[ss].edges@, uid) == edge_total(
                    old(self).sovereigns.targets@[ss].edges@,
                    uid,
                ) + v
                &&& forall|k: AssetKey|
                    key_amount(
                        edge_tokens(final(self).sovereigns.targets@[ss].edges@, uid),
                        k,
                    ) == key_amount(
                        edge_tokens(old(self).sovereigns.targets@[ss].edges@, uid),
                        k,
                    ) + key_amount(tokens@, k)
                &&& final(self).sovereigns.targets@[ss].delegators@.contains(uid)
                &&& forall|j: int|
                    0 <= j < old(self).sovereigns.targets@.len() && j != ss ==> final(self).sovereigns.targets@[j] == old(self).sovereigns.targets@[j]
                &&& final(self).whitelist == old(self).whitelist
                &&& final(self).validators.validator_id == old(self).validators.validator_id
                &&& final(self).validators.configs@ == old(self).validators.configs@
                &&& final(self).validators.targets@ == old(self).validators.targets@
                &&& final(self).sovereigns.sov_id == old(self).sovereigns.sov_id
                &&& final(self).sovereigns.infos@ == old(self).sovereigns.infos@
                &&& final(self).storage.user_ids == old(self).storage.user_ids
                &&& final(self).unbond.view_entries() == old(self).unbond.view_entries()
                &&& final(self).unbond.spec_unbond_epochs() == old(self).unbond.spec_unbond_epochs()
                &&& forall|u: u64| u != caller ==> user_balance(*final(self), u) == user_balance(
                    *old(self),
                    u,
                )
            },
    {
        match require_non_empty_args(&tokens) {
            Ok(()) => {},
            Err(e) => {
                return Err(e);
            },
        }
        let caller_id = match self.storage.user_ids.get_id_non_zero(caller) {
            Ok(id) => id,
            Err(e) => {
                return Err(e);
            },
        };
        proof {
            crate::identity::lemma_slot_of_unique(self.storage.user_ids@, caller, caller_id - 1);
        }
        let sov_id = self.sovereigns.sov_chain_for_name(&sov_name);
        match self.sovereigns.require_valid_sov_id(sov_id) {
            Ok(()) => {},
            Err(e) => {
                proof {
                    crate::sovereign::lemma_sov_name_slot(old(self).sovereigns.infos@, sov_name@);
                }
                return Err(e);
            },
        }
        proof {
            crate::sovereign::lemma_sov_name_slot_unique(
                self.sovereigns.infos@,
                sov_name@,
                sov_id - 1,
            );
        }
        let un = self.storage.user_tokens.len();
        proof {
            assert(1 <= caller_id <= un as u64);
        }
        let uidx = (caller_id - 1) as usize;
        let ghost preu = self.storage.user_tokens@;
        let original_tokens = self.storage.user_tokens.remove(uidx);
        let mut working = original_tokens.clone();
        match before_add_delegation(&self.whitelist, &mut working, tokens) {
            Err(e) => {
                self.storage.user_tokens.insert(uidx, original_tokens);
                proof {
                    assert(self.storage.user_tokens@ =~= preu);
                    assert(self.wf());
                }
                Err(e)
            },
            Ok((output_payments, total)) => {
                let sn = self.sovereigns.targets.len();
                proof {
                    assert(1 <= sov_id <= sn as u64);
                }
                let sidx = (sov_id - 1) as usize;
                let cap = match &self.sovereigns.infos[sidx] {
                    Some(info) => info.opt_max_restaking_cap,
                    None => {
                        proof {
                            assert(self.sovereigns.infos@[sov_id - 1] is Some);
                        }
                        assert(false);
                        None
                    },
                };
                let ghost pret = self.sovereigns.targets@;
                let mut t = self.sovereigns.targets.remove(sidx);
                let args = AddDelegationArgs {
                    payments_to_add: output_payments,
                    total_amount: total,
                    caller_id,
                    opt_max_delegation: cap,
                };
                match t.add_delegation(args) {
                    Err(e) => {
                        self.sovereigns.targets.insert(sidx, t);
                        self.storage.user_tokens.insert(uidx, original_tokens);
                        proof {
                            assert(self.sovereigns.targets@ =~= pret);
                            assert(self.storage.user_tokens@ =~= preu);
                            assert(self.wf());
                        }
                        Err(e)
                    },
                    Ok(()) => {
                        self.sovereigns.targets.insert(sidx, t);
                        self.storage.user_tokens.insert(uidx, working);
                        proof {
                            lemma_targets_remove_insert(
                                pret,
                                self.sovereigns.targets@,
                                sov_id - 1,
                            );
                            lemma_tokens_remove_insert(
                                preu,
                                self.storage.user_tokens@,
                                caller_id - 1,
                            );
                            assert forall|u: u64| u != caller implies user_balance(*self, u)
                                == user_balance(*old(self), u) by {
                                crate::identity::lemma_slot_of(self.storage.user_ids@, u);
                            }
                        }
                        Ok(())
                    },
                }
            },
        }
    }

    /// Revokes assets delegated to a sovereign chain, resolved by name;
    /// the revoked assets go into the caller's unbond queue. Atomic: on
    /// failure nothing changes.
    pub fn revoke_delegation_from_sovereign_chain(
        &mut self,
        caller: u64,
        sov_name: Vec<u8>,
        tokens: Vec<Payment>,
        current_epoch: Epoch,
    ) -> (r: Result<(), Error>)
        requires
            old(self).wf(),
            total_amount(tokens@) <= u64::MAX,
            current_epoch + old(self).unbond.spec_unbond_epochs() <= u64::MAX,
            !absent(old(self).storage.user_ids@, caller) && crate::sovereign::sov_name_slot(
                old(self).sovereigns.infos@,
                sov_name@,
            ) != -1 ==> {
                let us = slot_of(old(self).storage.user_ids@, caller);
                let ss = crate::sovereign::sov_name_slot(old(self).sovereigns.infos@, sov_name@);
                let uid = (us + 1) as AddressId;
                &&& (crate::common_actions::edge_of(
                    old(self).sovereigns.targets@[ss].edges@,
                    uid,
                ) is Some ==> values_total(old(self).whitelist@, tokens@) <= edge_total(
                    old(self).sovereigns.targets@[ss].edges@,
                    uid,
                ))
                &&& total_amount(
                    bucket_tokens(
                        buckets_of(old(self).unbond.view_entries(), uid),
                        (current_epoch + old(self).unbond.spec_unbond_epochs()) as Epoch,
                    ),
                ) + total_amount(tokens@) <= u64::MAX
            },
        ensures
            final(self).wf(),
            r is Err ==> final(self).same_ledger(*old(self)),
            r is Ok <==> tokens@.len() > 0 && !absent(old(self).storage.user_ids@, caller)
                && crate::sovereign::sov_name_slot(old(self).sovereigns.infos@, sov_name@) != -1
                && crate::common_actions::edge_of(
                old(self).sovereigns.targets@[crate::sovereign::sov_name_slot(
                    old(self).sovereigns.infos@,
                    sov_name@,
                )].edges@,
                (slot_of(old(self).storage.user_ids@, caller) + 1) as AddressId,
            ) is Some && all_positive(tokens@) && (forall|k: AssetKey|
                #[trigger] key_amount(tokens@, k) <= key_amount(
                    edge_tokens(
                        old(self).sovereigns.targets@[crate::sovereign::sov_name_slot(
                            old(self).sovereigns.infos@,
                            sov_name@,
                        )].edges@,
                        (slot_of(old(self).storage.user_ids@, caller) + 1) as AddressId,
                    ),
                    k,
                )),
            r is Ok ==> {
                let us = slot_of(old(self).storage.user_ids@, caller);
                let ss = crate::sovereign::sov_name_slot(old(self).sovereigns.infos@, sov_name@);
                let uid = (us + 1) as AddressId;
                let v = values_total(old(self).whitelist@, tokens@);
                let fe = (current_epoch + old(self).unbond.spec_unbond_epochs()) as Epoch;
                &&& final(self).sovereigns.targets@.len() == old(self).sovereigns.targets@.len()
                &&& final(self).sovereigns.targets@[ss].total_delegated == old(self).sovereigns.targets@[ss].total_delegated - v
                &&& edge_total(final(self).sovereigns.targets@[ss].edges@, uid) == edge_total(
                    old(self).sovereigns.targets@[ss].edges@,
                    uid,
                ) - v
                &&& forall|k: AssetKey|
                    key_amount(
                        edge_tokens(final(self).sovereigns.targets@[ss].edges@, uid),
                        k,
                    ) == key_amount(
                        edge_tokens(old(self).sovereigns.targets@[ss].edges@, uid),
                        k,
                    ) - key_amount(tokens@, k)
                &&& (edge_total(final(self).sovereigns.targets@[ss].edges@, uid) == 0 ==> !final(self).sovereigns.targets@[ss].delegators@.contains(uid))
                &&& forall|j: int|
                    0 <= j < old(self).sovereigns.targets@.len() && j != ss ==> final(self).sovereigns.targets@[j] == old(self).sovereigns.targets@[j]
                &&& forall|k: AssetKey|
                    #[trigger] key_amount(
                        bucket_tokens(buckets_of(final(self).unbond.view_entries(), uid), fe),
                        k,
                    ) == key_amount(
                        bucket_tokens(buckets_of(old(self).unbond.view_entries(), uid), fe),
                        k,
                    ) + key_amount(tokens@, k)
                &&& forall|u2: AddressId|
                    u2 != uid ==> buckets_of(final(self).unbond.view_entries(), u2) == buckets_of(
                        old(self).unbond.view_entries(),
                        u2,
                    )
                &&& final(self).whitelist == old(self).whitelist
                &&& final(self).validators.validator_id == old(self).validators.validator_id
                &&& final(self).validators.configs@ == old(self).validators.configs@
                &&& final(self).validators.targets@ == old(self).validators.targets@
                &&& final(self).sovereigns.sov_id == old(self).sovereigns.sov_id
                &&& final(self).sovereigns.infos@ == old(self).sovereigns.infos@
                &&& final(self).storage.user_ids == old(self).storage.user_ids
                &&& final(self).storage.user_tokens@ == old(self).storage.user_tokens@
                &&& final(self).unbond.spec_unbond_epochs() == old(self).unbond.spec_unbond_epochs()
            },
    {
        match require_non_empty_args(&tokens) {
            Ok(()) => {},
            Err(e) => {
                return Err(e);
            },
        }
        let caller_id = match self.storage.user_ids.get_id_non_zero(caller) {
            Ok(id) => id,
            Err(e) => {
                return Err(e);
            },
        };
        proof {
            crate::identity::lemma_slot_of_unique(self.storage.user_ids@, caller, caller_id - 1);
        }
        let sov_id = self.sovereigns.sov_chain_for_name(&sov_name);
        match self.sovereigns.require_valid_sov_id(sov_id) {
            Ok(()) => {},
            Err(e) => {
                proof {
                    crate::sovereign::lemma_sov_name_slot(old(self).sovereigns.infos@, sov_name@);
                }
                return Err(e);
            },
        }
        proof {
            crate::sovereign::lemma_sov_name_slot_unique(
                self.sovereigns.infos@,
                sov_name@,
                sov_id - 1,
            );
        }
        let sn = self.sovereigns.targets.len();
        proof {
            assert(1 <= sov_id <= sn as u64);
        }
        let sidx = (sov_id - 1) as usize;
        let ghost pret = self.sovereigns.targets@;
        let mut t = self.sovereigns.targets.remove(sidx);
        let args = RemoveDelegationArgs { tokens, caller_id };
        match t.remove_delegation(&self.whitelist, args) {
            Err(e) => {
                self.sovereigns.targets.insert(sidx, t);
                proof {
                    assert(self.sovereigns.targets@ =~= pret);
                    assert(self.wf());
                }
                Err(e)
            },
            Ok(out) => {
                self.sovereigns.targets.insert(sidx, t);
                proof {
                    lemma_targets_remove_insert(pret, self.sovereigns.targets@, sov_id - 1);
                }
                self.unbond.add_unbond_tokens(caller_id, out, current_epoch);
                Ok(())
            },
        }
    }

    /// A registered validator attaches its own funds as delegation to
    /// itself; the attached payments are valued and booked under the
    /// validator's own cap, without touching any free balance. Atomic:
    /// on failure nothing changes.
    pub fn add_own_delegation(&mut self, caller: u64, payments: Vec<Payment>) -> (r: Result<
        (),
        Error,
    >)
        requires
            old(self).wf(),
            all_positive(payments@),
            values_total(old(self).whitelist@, payments@) <= u64::MAX,
            total_amount(payments@) <= u64::MAX,
            old(self).storage.user_ids@.len() + 1 < u64::MAX,
            !absent(old(self).validators.validator_id@, caller) ==> {
                let vs = slot_of(old(self).validators.validator_id@, caller);
                let us = slot_of(old(self).storage.user_ids@, caller);
                let uid = if us == -1 {
                    (old(self).storage.user_ids@.len() + 1) as AddressId
                } else {
                    (us + 1) as AddressId
                };
                &&& old(self).validators.targets@[vs].total_delegated + values_total(
                    old(self).whitelist@,
                    payments@,
                ) <= u64::MAX
                &&& total_amount(edge_tokens(old(self).validators.targets@[vs].edges@, uid))
                    + total_amount(payments@) <= u64::MAX
            },
        ensures
            final(self).wf(),
            r is Err ==> final(self).same_ledger(*old(self)),
            r is Ok <==> payments@.len() > 0 && !absent(old(self).validators.validator_id@, caller)
                && (forall|i: int|
                0 <= i < payments@.len() ==> contains_token(
                    old(self).whitelist@,
                    (#[trigger] payments@[i]).token_id,
                )) && (match old(self).validators.configs@[slot_of(
                old(self).validators.validator_id@,
                caller,
            )].opt_max_delegation {
                Some(max) => old(self).validators.targets@[slot_of(
                    old(self).validators.validator_id@,
                    caller,
                )].total_delegated + values_total(old(self).whitelist@, payments@) <= max,
                None => true,
            }),
            r is Ok ==> {
                let vs = slot_of(old(self).validators.validator_id@, caller);
                let uid = user_slot_id(*final(self), caller);
                let v = values_total(old(self).whitelist@, payments@);
                &&& final(self).validators.targets@.len() == old(self).validators.targets@.len()
                &&& final(self).validators.targets@[vs].total_delegated == old(self).validators.targets@[vs].total_delegated + v
                &&& edge_total(final(self).validators.targets@[vs].edges@, uid) == edge_total(
                    old(self).validators.targets@[vs].edges@,
                    uid,
                ) + v
                &&& forall|k: AssetKey|
                    key_amount(
                        edge_tokens(final(self).validators.targets@[vs].edges@, uid),
                        k,
                    ) == key_amount(
                        edge_tokens(old(self).validators.targets@[vs].edges@, uid),
                        k,
                    ) + key_amount(payments@, k)
                &&& final(self).validators.targets@[vs].delegators@.contains(uid)
                &&& forall|j: int|
                    0 <= j < old(self).validators.targets@.len() && j != vs ==> final(self).validators.targets@[j] == old(self).validators.targets@[j]
                &&& forall|u: u64| user_balance(*final(self), u) == user_balance(*old(self), u)
                &&& final(self).whitelist == old(self).whitelist
                &&& final(self).validators.validator_id == old(self).validators.validator_id
                &&& final(self).validators.configs@ == old(self).validators.configs@
                &&& final(self).sovereigns.sov_id == old(self).sovereigns.sov_id
                &&& final(self).sovereigns.infos@ == old(self).sovereigns.infos@
                &&& final(self).sovereigns.targets@ == old(self).sovereigns.targets@
                &&& final(self).unbond.view_entries() == old(self).unbond.view_entries()
                &&& final(self).unbond.spec_unbond_epochs() == old(self).unbond.spec_unbond_epochs()
            },
    {
        match require_non_empty_args(&payments) {
            Ok(()) => {},
            Err(e) => {
                return Err(e);
            },
        }
        let validator_id = match self.validators.validator_id.get_id_non_zero(caller) {
            Ok(id) => id,
            Err(e) => {
                return Err(e);
            },
        };
        proof {
            crate::identity::lemma_slot_of_unique(
                self.validators.validator_id@,
                caller,
                validator_id - 1,
            );
        }
        let total = match value_payments(&self.whitelist, &payments) {
            Ok(v) => v,
            Err(e) => {
                return Err(e);
            },
        };
        let vn = self.validators.targets.len();
        proof {
            assert(1 <= validator_id <= vn as u64);
        }
        let vidx = (validator_id - 1) as usize;
        let cap = self.validators.configs[vidx].opt_max_delegation;
        match cap {
            Some(max) => {
                if self.validators.targets[vidx].total_delegated + total > max {
                    return Err(Error::CapExceeded);
                }
            },
            None => {},
        }
        proof {
            crate::identity::lemma_slot_of(self.storage.user_ids@, caller);
        }
        let user_id = self.storage.get_or_insert_user(caller);
        proof {
            crate::identity::lemma_slot_of_unique(self.storage.user_ids@, caller, user_id - 1);
        }
        let ghost pret = self.validators.targets@;
        let mut t = self.validators.targets.remove(vidx);
        let args = AddDelegationArgs {
            payments_to_add: payments,
            total_amount: total,
            caller_id: user_id,
            opt_max_delegation: cap,
        };
        match t.add_delegation(args) {
            Err(e) => {
                self.validators.targets.insert(vidx, t);
                proof {
                    assert(false);
                }
                Err(e)
            },
            Ok(()) => {
                self.validators.targets.insert(vidx, t);
                proof {
                    lemma_targets_remove_insert(pret, self.validators.targets@, validator_id - 1);
                    assert forall|u: u64| user_balance(*self, u) == user_balance(*old(self), u)
                        by {
                        crate::identity::lemma_slot_of(old(self).storage.user_ids@, u);
                        if u != caller {
                            lemma_slot_of_push_other(old(self).storage.user_ids@, caller, u);
                        }
                        crate::identity::lemma_slot_of(self.storage.user_ids@, u);
                    }
                }
                Ok(())
            },
        }
    }

    /// A registered sovereign chain attaches its own security funds; the
    /// attached payments are valued and booked under the chain's optional
    /// restaking cap, without touching any free balance. Atomic: on
    /// failure nothing changes.
    pub fn add_own_security_funds(&mut self, caller: u64, payments: Vec<Payment>) -> (r: Result<
        (),
        Error,
    >)
        requires
            old(self).wf(),
            all_positive(payments@),
            values_total(old(self).whitelist@, payments@) <= u64::MAX,
            total_amount(payments@) <= u64::MAX,
            old(self).storage.user_ids@.len() + 1 < u64::MAX,
            !absent(old(self).sovereigns.sov_id@, caller) ==> {
                let ss = slot_of(old(self).sovereigns.sov_id@, caller);
                let us = slot_of(old(self).storage.user_ids@, caller);
                let uid = if us == -1 {
                    (old(self).storage.user_ids@.len() + 1) as AddressId
                } else {
                    (us + 1) as AddressId
                };
                &&& old(self).sovereigns.targets@[ss].total_delegated + values_total(
                    old(self).whitelist@,
                    payments@,
                ) <= u64::MAX
                &&& total_amount(edge_tokens(old(self).sovereigns.targets@[ss].edges@, uid))
                    + total_amount(payments@) <= u64::MAX
            },
        ensures
            final(self).wf(),
            r is Err ==> final(self).same_ledger(*old(self)),
            r is Ok <==> payments@.len() > 0 && !absent(old(self).sovereigns.sov_id@, caller) && (
            forall|i: int|
                0 <= i < payments@.len() ==> contains_token(
                    old(self).whitelist@,
                    (#[trigger] payments@[i]).token_id,
                )) && (match old(self).sovereigns.infos@[slot_of(
                old(self).sovereigns.sov_id@,
                caller,
            )].unwrap().opt_max_restaking_cap {
                Some(max) => old(self).sovereigns.targets@[slot_of(
                    old(self).sovereigns.sov_id@,
                    caller,
                )].total_delegated + values_total(old(self).whitelist@, payments@) <= max,
                None => true,
            }),
            r is Ok ==> {
                let ss = slot_of(old(self).sovereigns.sov_id@, caller);
                let uid = user_slot_id(*final(self), caller);
                let v = values_total(old(self).whitelist@, payments@);
                &&& final(self).sovereigns.targets@.len() == old(self).sovereigns.targets@.len()
                &&& final(self).sovereigns.targets@[ss].total_delegated == old(self).sovereigns.targets@[ss].total_delegated + v
                &&& edge_total(final(self).sovereigns.targets@[ss].edges@, uid) == edge_total(
                    old(self).sovereigns.targets@[ss].edges@,
                    uid,
                ) + v
                &&& forall|k: AssetKey|
                    key_amount(
                        edge_tokens(final(self).sovereigns.targets@[ss].edges@, uid),
                        k,
                    ) == key_amount(
                        edge_tokens(old(self).sovereigns.targets@[ss].edges@, uid),
                        k,
                    ) + key_amount(payments@, k)
                &&& final(self).sovereigns.targets@[ss].delegators@.contains(uid)
                &&& forall|j: int|
                    0 <= j < old(self).sovereigns.targets@.len() && j != ss ==> final(self).sovereigns.targets@[j] == old(self).sovereigns.targets@[j]
                &&& forall|u: u64| user_balance(*final(self), u) == user_balance(*old(self), u)
                &&& final(self).whitelist == old(self).whitelist
                &&& final(self).validators.validator_id == old(self).validators.validator_id
                &&& final(self).validators.configs@ == old(self).validators.configs@
                &&& final(self).validators.targets@ == old(self).validators.targets@
                &&& final(self).sovereigns.sov_id == old(self).sovereigns.sov_id
                &&& final(self).sovereigns.infos@ == old(self).sovereigns.infos@
                &&& final(self).unbond.view_entries() == old(self).unbond.view_entries()
                &&& final(self).unbond.spec_unbond_epochs() == old(self).unbond.spec_unbond_epochs()
            },
    {
        match require_non_empty_args(&payments) {
            Ok(()) => {},
            Err(e) => {
                return Err(e);
            },
        }
        let sov_id = match self.sovereigns.sov_id.get_id_non_zero(caller) {
            Ok(id) => id,
            Err(e) => {
                return Err(e);
            },
        };
        proof {
            crate::identity::lemma_slot_of_unique(self.sovereigns.sov_id@, caller, sov_id - 1);
        }
        let total = match value_payments(&self.whitelist, &payments) {
            Ok(v) => v,
            Err(e) => {
                return Err(e);
            },
        };
        let sn = self.sovereigns.targets.len();
        proof {
            assert(1 <= sov_id <= sn as u64);
        }
        let sidx = (sov_id - 1) as usize;
        let cap = match &self.sovereigns.infos[sidx] {
            Some(info) => info.opt_max_restaking_cap,
            None => {
                proof {
                    assert(self.sovereigns.infos@[sov_id - 1] is Some);
                }
                assert(false);
                None
            },
        };
        match cap {
            Some(max) => {
                if self.sovereigns.targets[sidx].total_delegated + total > max {
                    return Err(Error::CapExceeded);
                }
            },
            None => {},
        }
        proof {
            crate::identity::lemma_slot_of(self.storage.user_ids@, caller);
        }
        let user_id = self.storage.get_or_insert_user(caller);
        proof {
            crate::identity::lemma_slot_of_unique(self.storage.user_ids@, caller, user_id - 1);
        }
        let ghost pret = self.sovereigns.targets@;
        let mut t = self.sovereigns.targets.remove(sidx);
        let args = AddDelegationArgs {
            payments_to_add: payments,
            total_amount: total,
            caller_id: user_id,
            opt_max_delegation: cap,
        };
        match t.add_delegation(args) {
            Err(e) => {
                self.sovereigns.targets.insert(sidx, t);
                proof {
                    assert(false);
                }
                Err(e)
            },
            Ok(()) => {
                self.sovereigns.targets.insert(sidx, t);
                proof {
                    lemma_targets_remove_insert(pret, self.sovereigns.targets@, sov_id - 1);
                    assert forall|u: u64| user_balance(*self, u) == user_balance(*old(self), u)
                        by {
                        crate::identity::lemma_slot_of(old(self).storage.user_ids@, u);
                        if u != caller {
                            lemma_slot_of_push_other(old(self).storage.user_ids@, caller, u);
                        }
                        crate::identity::lemma_slot_of(self.storage.user_ids@, u);
                    }
                }
                Ok(())
            },
        }
    }
}

/// Moving stake out of a system delegation contract into the restaking
/// ledger is allowed only when the contract lives on the metachain.
pub trait CallDelegationModule {
    fn move_stake_to_re_staking(&self, delegation_shard: u32) -> (r: Result<(), Error>)
        ensures
            r is Ok <==> delegation_shard == MAX_SHARD_ID,
            r is Err ==> r == Err::<(), Error>(Error::InvalidDelegationAddress),
    ;
}

impl CallDelegationModule for GravityRestaking {
    fn move_stake_to_re_staking(&self, delegation_shard: u32) -> (r: Result<(), Error>) {
        if delegation_shard != MAX_SHARD_ID {
            return Err(Error::InvalidDelegationAddress);
        }
        Ok(())
    }
}

/// The handle `caller` resolves to, as an id (`slot + 1`, or `0` when
/// unregistered).
pub open spec fn user_slot_id(g: GravityRestaking, caller: u64) -> AddressId {
    (slot_of(g.storage.user_ids@, caller) + 1) as AddressId
}

/// Fails with an empty-arguments error exactly on an empty list.
pub fn require_non_empty_args(args: &Vec<Payment>) -> (r: Result<(), Error>)
    ensures
        r is Ok <==> args@.len() > 0,
        r is Err ==> r == Err::<(), Error>(Error::EmptyArgs),
{
    if args.len() == 0 {
        Err(Error::EmptyArgs)
    } else {
        Ok(())
    }
}

/// Removing and re-inserting a balance at one slot is a pointwise
/// update.
proof fn lemma_tokens_remove_insert(olds: Seq<UniquePayments>, news: Seq<UniquePayments>, i: int)
    requires
        0 <= i < olds.len(),
        news.len() == olds.len(),
        news == olds.remove(i).insert(i, news[i]),
    ensures
        forall|j: int| 0 <= j < news.len() && j != i ==> news[j] == olds[j],
{
    assert forall|j: int| 0 <= j < news.len() && j != i implies #[trigger] news[j] == olds[j] by {
        if j < i {
            assert(news[j] == olds.remove(i).insert(i, news[i])[j]);
            assert(olds.remove(i).insert(i, news[i])[j] == olds.remove(i)[j]);
        } else {
            assert(news[j] == olds.remove(i)[j - 1]);
        }
    }
}

/// Pushing a new slot for `caller` does not move any other address's
/// slot.
proof fn lemma_slot_of_push_other(s: Seq<Option<u64>>, caller: u64, u: u64)
    requires
        u != caller,
    ensures
        slot_of(s.push(Some(caller)), u) == slot_of(s, u),
{
    assert(s.push(Some(caller)).drop_last() =~= s);
}

/// The summed amount of base-asset entries in a payment list.
pub open spec fn egld_amount(ts: Seq<Payment>) -> int
    decreases ts.len(),
{
    if ts.len() == 0 {
        0
    } else {
        egld_amount(ts.drop_last()) + if ts.last().token_id == EGLD_TOKEN_ID {
            ts.last().amount as int
        } else {
            0
        }
    }
}

/// The non-base-asset entries of a payment list, in order.
pub open spec fn non_egld(ts: Seq<Payment>) -> Seq<Payment>
    decreases ts.len(),
{
    if ts.len() == 0 {
        Seq::empty()
    } else {
        let rest = non_egld(ts.drop_last());
        if ts.last().token_id == EGLD_TOKEN_ID {
            rest
        } else {
            rest.push(ts.last())
        }
    }
}

pub proof fn lemma_egld_le_total(ts: Seq<Payment>)
    ensures
        0 <= egld_amount(ts) <= total_amount(ts),
    decreases ts.len(),
{
    if ts.len() > 0 {
        lemma_egld_le_total(ts.drop_last());
    }
}

/// The index of the first base-asset entry, or `-1` when there is none.
pub open spec fn first_egld_index(ts: Seq<Payment>) -> int
    decreases ts.len(),
{
    if ts.len() == 0 {
        -1
    } else if ts[0].token_id == EGLD_TOKEN_ID {
        0
    } else {
        let rest = first_egld_index(ts.subrange(1, ts.len() as int));
        if rest == -1 {
            -1
        } else {
            rest + 1
        }
    }
}

pub proof fn lemma_first_egld_index(ts: Seq<Payment>)
    ensures
        first_egld_index(ts) == -1 ==> forall|i: int|
            0 <= i < ts.len() ==> (#[trigger] ts[i]).token_id != EGLD_TOKEN_ID,
        first_egld_index(ts) != -1 ==> {
            &&& 0 <= first_egld_index(ts) < ts.len()
            &&& ts[first_egld_index(ts)].token_id == EGLD_TOKEN_ID
            &&& forall|i: int|
                0 <= i < first_egld_index(ts) ==> (#[trigger] ts[i]).token_id != EGLD_TOKEN_ID
        },
    decreases ts.len(),
{
    if ts.len() > 0 && ts[0].token_id != EGLD_TOKEN_ID {
        let tail = ts.subrange(1, ts.len() as int);
        lemma_first_egld_index(tail);
        if first_egld_index(tail) == -1 {
            assert forall|i: int| 0 <= i < ts.len() implies (#[trigger] ts[i]).token_id
                != EGLD_TOKEN_ID by {
                if i > 0 {
                    assert(tail[i - 1] == ts[i]);
                }
            }
        } else {
            assert(ts[first_egld_index(ts)] == tail[first_egld_index(tail)]);
            assert forall|i: int| 0 <= i < first_egld_index(ts) implies (
            #[trigger] ts[i]).token_id != EGLD_TOKEN_ID by {
                if i > 0 {
                    assert(tail[i - 1] == ts[i]);
                }
            }
        }
    }
}

/// When no earlier entry is the base asset and entry `i` is, `i` is the
/// first base-asset index.
pub proof fn lemma_first_egld_index_at(ts: Seq<Payment>, i: int)
    requires
        0 <= i < ts.len(),
        ts[i].token_id == EGLD_TOKEN_ID,
        forall|a: int| 0 <= a < i ==> (#[trigger] ts[a]).token_id != EGLD_TOKEN_ID,
    ensures
        first_egld_index(ts) == i,
    decreases ts.len(),
{
    if i > 0 {
        let tail = ts.subrange(1, ts.len() as int);
        assert forall|a: int| 0 <= a < i - 1 implies (#[trigger] tail[a]).token_id
            != EGLD_TOKEN_ID by {
            assert(tail[a] == ts[a + 1]);
        }
        assert(tail[i - 1] == ts[i]);
        lemma_first_egld_index_at(tail, i - 1);
    }
}

/// Values a payment list through the whitelist without touching any
/// balance; fails exactly when some asset is not whitelisted.
pub fn value_payments(whitelist: &TokenWhitelistModule, payments: &Vec<Payment>) -> (r: Result<
    u64,
    Error,
>)
    requires
        whitelist.wf(),
        values_total(whitelist@, payments@) <= u64::MAX,
    ensures
        r is Ok <==> forall|i: int|
            0 <= i < payments@.len() ==> contains_token(
                whitelist@,
                (#[trigger] payments@[i]).token_id,
            ),
        r is Err ==> r == Err::<u64, Error>(Error::TokenNotWhitelisted),
        r is Ok ==> r.unwrap() == values_total(whitelist@, payments@),
{
    let ghost wl = whitelist@;
    let ghost req = payments@;
    let mut total: u64 = 0;
    let mut j: usize = 0;
    while j < payments.len()
        invariant
            j <= payments.len(),
            payments@ == req,
            whitelist@ == wl,
            whitelist.wf(),
            forall|i: int| 0 <= i < j ==> contains_token(wl, (#[trigger] req[i]).token_id),
            total == values_total(wl, req.subrange(0, j as int)),
            values_total(wl, req) <= u64::MAX,
        decreases payments.len() - j,
    {
        let p = payments[j];
        match whitelist.require_token_in_whitelist(p.token_id) {
            Ok(()) => {},
            Err(e) => {
                return Err(e);
            },
        }
        proof {
            crate::common_actions::lemma_values_total_split(wl, req, j as int);
            crate::common_actions::lemma_values_total_split(wl, req, j + 1);
            crate::unique_payments::lemma_sub_push(req, j as int);
            crate::common_actions::lemma_values_total_push(wl, req.subrange(0, j as int), p);
            crate::common_actions::lemma_values_total_nonneg(wl, req.subrange(j + 1, req.len() as int));
            crate::common_actions::lemma_token_value_nonneg(wl, p.token_id, p.amount);
            crate::common_actions::lemma_values_total_nonneg(wl, req.subrange(0, j as int));
        }
        let value = whitelist.get_total_staked_egld(p.token_id, p.amount);
        total = total + value;
        proof {
            crate::common_actions::lemma_values_total_push(wl, req.subrange(0, j as int), p);
        }
        j += 1;
    }
    proof {
        assert(req.subrange(0, req.len() as int) =~= req);
    }
    Ok(total)
}

/// Removing and re-inserting a target at one slot is a pointwise update.
proof fn lemma_targets_remove_insert(
    olds: Seq<crate::common_actions::TargetAccount>,
    news: Seq<crate::common_actions::TargetAccount>,
    i: int,
)
    requires
        0 <= i < olds.len(),
        news.len() == olds.len(),
        news == olds.remove(i).insert(i, news[i]),
    ensures
        forall|j: int| 0 <= j < news.len() && j != i ==> news[j] == olds[j],
{
    assert forall|j: int| 0 <= j < news.len() && j != i implies #[trigger] news[j] == olds[j] by {
        if j < i {
            assert(news[j] == olds.remove(i).insert(i, news[i])[j]);
            assert(olds.remove(i).insert(i, news[i])[j] == olds.remove(i)[j]);
        } else {
            assert(news[j] == olds.remove(i)[j - 1]);
        }
    }
}

} // verus!
