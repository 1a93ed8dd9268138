use vstd::prelude::*;

use crate::identity::AddressId;
use crate::token_whitelist::{contains_token, TokenWhitelistModule};
use crate::sovereign::Epoch;
use crate::unique_payments::{key_amount, total_amount, AssetKey, Payment, UniquePayments};

verus! {

/// One unbond bucket: assets waiting for their unbond epoch.
#[derive(Debug)]
pub struct UnbondInfo {
    pub tokens: UniquePayments,
    pub unbond_epoch: Epoch,
}

impl UnbondInfo {
    pub fn new(tokens: UniquePayments, unbond_epoch: Epoch) -> (r: Self)
        ensures
            r.tokens == tokens,
            r.unbond_epoch == unbond_epoch,
    {
        UnbondInfo { tokens, unbond_epoch }
    }

    /// Two buckets merge exactly when they mature at the same epoch.
    pub fn can_merge_with(&self, other: &Self) -> (r: bool)
        ensures
            r == (self.unbond_epoch == other.unbond_epoch),
    {
        self.unbond_epoch == other.unbond_epoch
    }

    /// Folds `other`'s assets into this bucket.
    pub fn merge_with(&mut self, other: Self)
        requires
            old(self).unbond_epoch == other.unbond_epoch,
            old(self).tokens.wf(),
            other.tokens.wf(),
            total_amount(old(self).tokens@) + total_amount(other.tokens@) <= u64::MAX,
        ensures
            final(self).unbond_epoch == old(self).unbond_epoch,
            final(self).tokens.wf(),
            forall|k: AssetKey| #[trigger] key_amount(final(self).tokens@, k) == key_amount(
                old(self).tokens@,
                k,
            ) + key_amount(other.tokens@, k),
            total_amount(final(self).tokens@) == total_amount(old(self).tokens@) + total_amount(
                other.tokens@,
            ),
    {
        self.tokens.merge_with(other.tokens);
    }
}

/// All buckets of one user.
#[derive(Debug)]
pub struct UserUnbonds {
    pub user_id: AddressId,
    pub buckets: Vec<UnbondInfo>,
}

/// The buckets of user `u` (empty without a record).
pub open spec fn buckets_of(s: Seq<UserUnbonds>, u: AddressId) -> Seq<UnbondInfo>
    decreases s.len(),
{
    if s.len() == 0 {
        Seq::empty()
    } else if s.last().user_id == u {
        s.last().buckets@
    } else {
        buckets_of(s.drop_last(), u)
    }
}

/// A valid bucket list: one bucket per distinct epoch, each a valid
/// balance.
pub open spec fn buckets_wf(bs: Seq<UnbondInfo>) -> bool {
    &&& forall|i: int, j: int| 0 <= i < j < bs.len() ==> bs[i].unbond_epoch != bs[j].unbond_epoch
    &&& forall|i: int| 0 <= i < bs.len() ==> (#[trigger] bs[i]).tokens.wf()
}

/// The amount of asset `k` held across every bucket that has matured at
/// epoch `e`.
pub open spec fn released_key_amount(bs: Seq<UnbondInfo>, e: Epoch, k: AssetKey) -> int
    decreases bs.len(),
{
    if bs.len() == 0 {
        0
    } else {
        released_key_amount(bs.drop_last(), e, k) + if bs.last().unbond_epoch <= e {
            key_amount(bs.last().tokens@, k)
        } else {
            0
        }
    }
}

/// The total amount held across every matured bucket.
pub open spec fn released_total(bs: Seq<UnbondInfo>, e: Epoch) -> int
    decreases bs.len(),
{
    if bs.len() == 0 {
        0
    } else {
        released_total(bs.drop_last(), e) + if bs.last().unbond_epoch <= e {
            total_amount(bs.last().tokens@)
        } else {
            0
        }
    }
}

/// The buckets that have not matured at epoch `e`, in their original
/// order.
pub open spec fn keep_later(bs: Seq<UnbondInfo>, e: Epoch) -> Seq<UnbondInfo>
    decreases bs.len(),
{
    if bs.len() == 0 {
        Seq::empty()
    } else {
        let rest = keep_later(bs.drop_last(), e);
        if bs.last().unbond_epoch > e {
            rest.push(bs.last())
        } else {
            rest
        }
    }
}

/// Releasing is exhaustive: after the matured buckets are taken out, a
/// second release at the same (or any earlier) epoch finds nothing, and
/// taking the unmatured buckets again changes nothing.
pub proof fn lemma_release_twice(bs: Seq<UnbondInfo>, e: Epoch, k: AssetKey)
    ensures
        released_key_amount(keep_later(bs, e), e, k) == 0,
        released_total(keep_later(bs, e), e) == 0,
        keep_later(keep_later(bs, e), e) == keep_later(bs, e),
    decreases bs.len(),
{
    if bs.len() > 0 {
        lemma_release_twice(bs.drop_last(), e, k);
        if bs.last().unbond_epoch > e {
            let rest = keep_later(bs.drop_last(), e);
            assert(rest.push(bs.last()).drop_last() =~= rest);
            assert(keep_later(rest.push(bs.last()), e) =~= keep_later(rest, e).push(bs.last()));
        }
    }
}

/// Position `a` of the kept buckets holds one of the original buckets.
pub open spec fn kept_from(bs: Seq<UnbondInfo>, e: Epoch, a: int) -> bool {
    exists|i0: int| 0 <= i0 < bs.len() && keep_later(bs, e)[a] == bs[i0]
}

/// Keeping the unmatured buckets preserves well-formedness; every kept
/// bucket is one of the original buckets.
pub proof fn lemma_keep_later_wf(bs: Seq<UnbondInfo>, e: Epoch)
    requires
        buckets_wf(bs),
    ensures
        buckets_wf(keep_later(bs, e)),
        forall|a: int| 0 <= a < keep_later(bs, e).len() ==> #[trigger] kept_from(bs, e, a),
        forall|a: int|
            0 <= a < keep_later(bs, e).len() ==> (#[trigger] keep_later(bs, e)[a]).unbond_epoch > e,
    decreases bs.len(),
{
    if bs.len() > 0 {
        assert(buckets_wf(bs.drop_last())) by {
            assert forall|i: int|
                0 <= i < bs.drop_last().len() implies (#[trigger] bs.drop_last()[i]).tokens.wf()
                by {
                assert(bs.drop_last()[i] == bs[i]);
            }
        }
        lemma_keep_later_wf(bs.drop_last(), e);
        let rest = keep_later(bs.drop_last(), e);
        if bs.last().unbond_epoch > e {
            let kept = rest.push(bs.last());
            assert forall|a: int, b: int|
                0 <= a < b < kept.len() implies kept[a].unbond_epoch != kept[b].unbond_epoch by {
                if b == kept.len() - 1 {
                    assert(kept_from(bs.drop_last(), e, a));
                    let i0 = choose|i0: int|
                        0 <= i0 < bs.drop_last().len() && rest[a] == bs.drop_last()[i0];
                    assert(bs[i0] == bs.drop_last()[i0]);
                    assert(bs[i0].unbond_epoch != bs[bs.len() - 1].unbond_epoch);
                }
            }
            assert forall|a: int| 0 <= a < kept.len() implies #[trigger] kept_from(bs, e, a) by {
                if a < kept.len() - 1 {
                    assert(kept_from(bs.drop_last(), e, a));
                    let i0 = choose|i0: int|
                        0 <= i0 < bs.drop_last().len() && rest[a] == bs.drop_last()[i0];
                    assert(keep_later(bs, e)[a] == bs[i0]);
                } else {
                    assert(keep_later(bs, e)[a] == bs[bs.len() - 1]);
                }
            }
            assert forall|a: int| 0 <= a < kept.len() implies (#[trigger] kept[a]).tokens.wf() by {
                assert(kept_from(bs, e, a));
                let i0 = choose|i0: int| 0 <= i0 < bs.len() && keep_later(bs, e)[a] == bs[i0];
                assert(bs[i0].tokens.wf());
            }
        } else {
            assert forall|a: int| 0 <= a < rest.len() implies #[trigger] kept_from(bs, e, a) by {
                assert(kept_from(bs.drop_last(), e, a));
                let i0 = choose|i0: int|
                    0 <= i0 < bs.drop_last().len() && rest[a] == bs.drop_last()[i0];
                assert(keep_later(bs, e)[a] == bs[i0]);
            }
            assert forall|a: int| 0 <= a < rest.len() implies (#[trigger] keep_later(bs, e)[
                a
            ]).tokens.wf() by {
                assert(kept_from(bs, e, a));
                let i0 = choose|i0: int| 0 <= i0 < bs.len() && keep_later(bs, e)[a] == bs[i0];
                assert(bs[i0].tokens.wf());
            }
        }
    }
}

/// Every asset in every matured bucket is on the whitelist.
pub open spec fn released_whitelisted(
    bs: Seq<UnbondInfo>,
    e: Epoch,
    wl: Seq<crate::token_whitelist::TokenInfo>,
) -> bool {
    forall|i: int, j: int|
        0 <= i < bs.len() && bs[i].unbond_epoch <= e && 0 <= j < bs[i].tokens@.len()
            ==> contains_token(wl, (#[trigger] bs[i].tokens@[j]).token_id)
}

/// The bucket at epoch `e`, if one exists.
pub open spec fn bucket_at(bs: Seq<UnbondInfo>, e: Epoch) -> Option<UnbondInfo>
    decreases bs.len(),
{
    if bs.len() == 0 {
        None
    } else if bs.last().unbond_epoch == e {
        Some(bs.last())
    } else {
        bucket_at(bs.drop_last(), e)
    }
}

/// The asset record of the bucket at epoch `e` (empty without one).
pub open spec fn bucket_tokens(bs: Seq<UnbondInfo>, e: Epoch) -> Seq<Payment> {
    match bucket_at(bs, e) {
        Some(b) => b.tokens@,
        None => Seq::empty(),
    }
}

pub proof fn lemma_bucket_at_index(bs: Seq<UnbondInfo>, i: int)
    requires
        forall|a: int, b: int| 0 <= a < b < bs.len() ==> bs[a].unbond_epoch != bs[b].unbond_epoch,
        0 <= i < bs.len(),
    ensures
        bucket_at(bs, bs[i].unbond_epoch) == Some(bs[i]),
    decreases bs.len(),
{
    if i < bs.len() - 1 {
        lemma_bucket_at_index(bs.drop_last(), i);
    }
}

pub proof fn lemma_bucket_at_absent(bs: Seq<UnbondInfo>, e: Epoch)
    requires
        forall|i: int| 0 <= i < bs.len() ==> bs[i].unbond_epoch != e,
    ensures
        bucket_at(bs, e) is None,
    decreases bs.len(),
{
    if bs.len() > 0 {
        lemma_bucket_at_absent(bs.drop_last(), e);
    }
}

pub proof fn lemma_bucket_at_update(bs: Seq<UnbondInfo>, i: int, b: UnbondInfo, e: Epoch)
    requires
        forall|a: int, c: int| 0 <= a < c < bs.len() ==> bs[a].unbond_epoch != bs[c].unbond_epoch,
        0 <= i < bs.len(),
        b.unbond_epoch == bs[i].unbond_epoch,
    ensures
        bucket_at(bs.update(i, b), e) == if e == b.unbond_epoch {
            Some(b)
        } else {
            bucket_at(bs, e)
        },
    decreases bs.len(),
{
    if i == bs.len() - 1 {
        assert(bs.update(i, b).drop_last() =~= bs.drop_last());
    } else {
        assert(bs.update(i, b).drop_last() =~= bs.drop_last().update(i, b));
        lemma_bucket_at_update(bs.drop_last(), i, b, e);
    }
}

pub proof fn lemma_bucket_at_push(bs: Seq<UnbondInfo>, b: UnbondInfo, e: Epoch)
    ensures
        bucket_at(bs.push(b), e) == if e == b.unbond_epoch {
            Some(b)
        } else {
            bucket_at(bs, e)
        },
{
    assert(bs.push(b).drop_last() =~= bs);
}

pub proof fn lemma_released_push(bs: Seq<UnbondInfo>, b: UnbondInfo, e: Epoch, k: AssetKey)
    ensures
        released_key_amount(bs.push(b), e, k) == released_key_amount(bs, e, k) + if b.unbond_epoch
            <= e {
            key_amount(b.tokens@, k)
        } else {
            0
        },
        released_total(bs.push(b), e) == released_total(bs, e) + if b.unbond_epoch <= e {
            total_amount(b.tokens@)
        } else {
            0
        },
{
    assert(bs.push(b).drop_last() =~= bs);
}

/// The epoch-bucketed holding area for assets pending time-locked
/// release: per user, at most one bucket per distinct unbond epoch.
#[derive(Debug)]
pub struct UnbondModule {
    unbond_epochs: Epoch,
    entries: Vec<UserUnbonds>,
}

impl UnbondModule {
    pub open spec fn wf(self) -> bool {
        &&& forall|i: int, j: int|
            0 <= i < j < self.view_entries().len() ==> self.view_entries()[i].user_id
                != self.view_entries()[j].user_id
        &&& forall|i: int| 0 <= i < self.view_entries().len() ==> buckets_wf(
            (#[trigger] self.view_entries()[i]).buckets@,
        )
    }

    /// The configured unbond delay in epochs.
    pub closed spec fn spec_unbond_epochs(self) -> Epoch {
        self.unbond_epochs
    }

    /// All entries, for reasoning about per-user buckets.
    pub closed spec fn view_entries(self) -> Seq<UserUnbonds> {
        self.entries@
    }

    pub fn new(unbond_epochs: Epoch) -> (r: Self)
        ensures
            r.wf(),
            r.spec_unbond_epochs() == unbond_epochs,
            r.view_entries() == Seq::<UserUnbonds>::empty(),
    {
        let entries: Vec<UserUnbonds> = Vec::new();
        proof {
            assert(entries@ =~= Seq::<UserUnbonds>::empty());
        }
        UnbondModule { unbond_epochs, entries }
    }

    /// Sets the unbond delay applied to newly enqueued assets.
    pub fn set_unbond_epochs(&mut self, unbond_epochs: Epoch)
        ensures
            final(self).spec_unbond_epochs() == unbond_epochs,
            final(self).view_entries() == old(self).view_entries(),
            old(self).wf() ==> final(self).wf(),
    {
        self.unbond_epochs = unbond_epochs;
    }

    pub fn get_unbond_epochs(&self) -> (r: Epoch)
        ensures
            r == self.spec_unbond_epochs(),
    {
        self.unbond_epochs
    }

    /// Enqueues assets for the user, maturing after the configured delay:
    /// merged into the existing bucket when one already matures at exactly
    /// that epoch, else appended as a new bucket.
    pub fn add_unbond_tokens(
        &mut self,
        user_id: AddressId,
        tokens: UniquePayments,
        current_epoch: Epoch,
    )
        requires
            old(self).wf(),
            tokens.wf(),
            current_epoch + old(self).spec_unbond_epochs() <= u64::MAX,
            total_amount(bucket_tokens(
                buckets_of(old(self).view_entries(), user_id),
                (current_epoch + old(self).spec_unbond_epochs()) as Epoch,
            )) + total_amount(tokens@) <= u64::MAX,
        ensures
            final(self).wf(),
            final(self).spec_unbond_epochs() == old(self).spec_unbond_epochs(),
            forall|u: AddressId|
                u != user_id ==> buckets_of(final(self).view_entries(), u) == buckets_of(
                    old(self).view_entries(),
                    u,
                ),
            ({
                let fe = (current_epoch + old(self).spec_unbond_epochs()) as Epoch;
                let obs = buckets_of(old(self).view_entries(), user_id);
                let nbs = buckets_of(final(self).view_entries(), user_id);
                &&& forall|k: AssetKey| #[trigger] key_amount(bucket_tokens(nbs, fe), k)
                    == key_amount(bucket_tokens(obs, fe), k) + key_amount(tokens@, k)
                &&& forall|e: Epoch| e != fe ==> bucket_at(nbs, e) == bucket_at(obs, e)
            }),
    {
        let final_unbond_epoch = current_epoch + self.unbond_epochs;
        let current_info = UnbondInfo::new(tokens, final_unbond_epoch);
        let idx = self.find_user(user_id);
        match idx {
            Some(ui) => {
                proof {
                    lemma_buckets_of_at(self.entries@, ui as int);
                }
                let mut entry = self.entries.remove(ui);
                let ghost obs = entry.buckets@;
                let bucket_idx = find_bucket(&entry.buckets, final_unbond_epoch);
                match bucket_idx {
                    Some(bi) => {
                        proof {
                            lemma_bucket_at_index(obs, bi as int);
                        }
                        let mut existing = entry.buckets.remove(bi);
                        existing.merge_with(current_info);
                        entry.buckets.insert(bi, existing);
                        proof {
                            assert(entry.buckets@ =~= obs.update(
                                bi as int,
                                entry.buckets@[bi as int],
                            ));
                            let nb = entry.buckets@[bi as int];
                            assert forall|e: Epoch|
                                bucket_at(#[trigger] obs.update(bi as int, nb), e) == (if e
                                    == final_unbond_epoch {
                                    Some(nb)
                                } else {
                                    bucket_at(obs, e)
                                }) by {
                                lemma_bucket_at_update(obs, bi as int, nb, e);
                            }
                        }
                    },
                    None => {
                        proof {
                            lemma_bucket_at_absent(obs, final_unbond_epoch);
                        }
                        entry.buckets.push(current_info);
                        proof {
                            let nb = entry.buckets@[entry.buckets@.len() - 1];
                            assert(entry.buckets@ =~= obs.push(nb));
                            assert forall|e: Epoch|
                                bucket_at(#[trigger] obs.push(nb), e) == (if e
                                    == final_unbond_epoch {
                                    Some(nb)
                                } else {
                                    bucket_at(obs, e)
                                }) by {
                                lemma_bucket_at_push(obs, nb, e);
                            }
                        }
                    },
                }
                self.entries.insert(ui, entry);
                proof {
                    assert(self.entries@ =~= old(self).entries@.update(
                        ui as int,
                        self.entries@[ui as int],
                    ));
                    lemma_buckets_of_update(
                        old(self).entries@,
                        ui as int,
                        self.entries@[ui as int],
                    );
                }
            },
            None => {
                proof {
                    lemma_buckets_of_absent(self.entries@, user_id);
                }
                let mut buckets: Vec<UnbondInfo> = Vec::new();
                buckets.push(current_info);
                self.entries.push(UserUnbonds { user_id, buckets });
                proof {
                    let ne = self.entries@[self.entries@.len() - 1];
                    lemma_buckets_of_push(old(self).entries@, ne);
                    assert forall|e: Epoch|
                        e != final_unbond_epoch implies bucket_at(ne.buckets@, e) == bucket_at(
                        Seq::<UnbondInfo>::empty(),
                        e,
                    ) by {
                        assert(ne.buckets@.drop_last() =~= Seq::<UnbondInfo>::empty());
                    }
                }
            },
        }
    }

    /// Releases every bucket of the user that has matured at
    /// `current_epoch`, merged into one balance; later buckets stay
    /// untouched, in order. An empty result is not an error.
    pub fn unbond_tokens_common(&mut self, user_id: AddressId, current_epoch: Epoch) -> (r:
        UniquePayments)
        requires
            old(self).wf(),
            released_total(buckets_of(old(self).view_entries(), user_id), current_epoch)
                <= u64::MAX,
        ensures
            final(self).wf(),
            final(self).spec_unbond_epochs() == old(self).spec_unbond_epochs(),
            r.wf(),
            forall|k: AssetKey| #[trigger] key_amount(r@, k) == released_key_amount(
                buckets_of(old(self).view_entries(), user_id),
                current_epoch,
                k,
            ),
            total_amount(r@) == released_total(
                buckets_of(old(self).view_entries(), user_id),
                current_epoch,
            ),
            buckets_of(final(self).view_entries(), user_id) == keep_later(
                buckets_of(old(self).view_entries(), user_id),
                current_epoch,
            ),
            forall|u: AddressId|
                u != user_id ==> buckets_of(final(self).view_entries(), u) == buckets_of(
                    old(self).view_entries(),
                    u,
                ),
    {
        let idx = self.find_user(user_id);
        let ui = match idx {
            Some(ui) => ui,
            None => {
                proof {
                    lemma_buckets_of_absent(self.entries@, user_id);
                }
                return UniquePayments::new();
            },
        };
        proof {
            lemma_buckets_of_at(self.entries@, ui as int);
        }
        let mut entry = self.entries.remove(ui);
        let ghost obs = entry.buckets@;
        let mut result = UniquePayments::new();
        let mut kept: Vec<UnbondInfo> = Vec::new();
        let ghost mut j: int = 0;
        while entry.buckets.len() > 0
            invariant
                0 <= j <= obs.len(),
                entry.buckets@ =~= obs.subrange(j, obs.len() as int),
                entry.user_id == user_id,
                buckets_wf(obs),
                result.wf(),
                forall|k: AssetKey| #[trigger] key_amount(result@, k) == released_key_amount(
                    obs.subrange(0, j),
                    current_epoch,
                    k,
                ),
                total_amount(result@) == released_total(obs.subrange(0, j), current_epoch),
                released_total(obs, current_epoch) <= u64::MAX,
                kept@ == keep_later(obs.subrange(0, j), current_epoch),
            decreases entry.buckets.len(),
        {
            let b = entry.buckets.remove(0);
            proof {
                assert(b == obs[j]);
                assert(entry.buckets@ =~= obs.subrange(j + 1, obs.len() as int));
                assert(obs.subrange(0, j + 1) =~= obs.subrange(0, j).push(obs[j]));
                lemma_released_split(obs, current_epoch, j + 1);
                lemma_released_nonneg(obs.subrange(j + 1, obs.len() as int), current_epoch);
                assert forall|k: AssetKey|
                    released_key_amount(#[trigger] obs.subrange(0, j).push(obs[j]), current_epoch, k)
                        == released_key_amount(obs.subrange(0, j), current_epoch, k) + (if obs[j].unbond_epoch
                        <= current_epoch {
                        key_amount(obs[j].tokens@, k)
                    } else {
                        0
                    }) by {
                    lemma_released_push(obs.subrange(0, j), obs[j], current_epoch, k);
                }
                lemma_released_push(obs.subrange(0, j), obs[j], current_epoch, AssetKey { token_id: 0, nonce: 0 });
            }
            if b.unbond_epoch <= current_epoch {
                proof {
                    crate::unique_payments::lemma_total_nonneg(result@);
                    assert(obs.subrange(0, j + 1).drop_last() =~= obs.subrange(0, j));
                }
                result.merge_with(b.tokens);
            } else {
                kept.push(b);
                proof {
                    assert(keep_later(obs.subrange(0, j).push(obs[j]), current_epoch)
                        =~= keep_later(obs.subrange(0, j), current_epoch).push(obs[j])) by {
                        assert(obs.subrange(0, j).push(obs[j]).drop_last() =~= obs.subrange(0, j));
                    }
                    assert(kept@ =~= keep_later(obs.subrange(0, j + 1), current_epoch));
                }
            }
            proof {
                j = j + 1;
            }
        }
        proof {
            assert(obs.subrange(j, obs.len() as int).len() == 0);
            assert(j == obs.len());
            assert(obs.subrange(0, j) =~= obs);
            lemma_keep_later_wf(obs, current_epoch);
        }
        entry.buckets = kept;
        self.entries.insert(ui, entry);
        proof {
            assert(self.entries@ =~= old(self).entries@.update(ui as int, self.entries@[ui as int]));
            lemma_buckets_of_update(old(self).entries@, ui as int, self.entries@[ui as int]);
        }
        result
    }

    /// Whether every asset the user could release at this epoch is still
    /// on the whitelist.
    pub fn released_tokens_whitelisted(
        &self,
        user_id: AddressId,
        current_epoch: Epoch,
        whitelist: &TokenWhitelistModule,
    ) -> (r: bool)
        requires
            self.wf(),
        ensures
            r == released_whitelisted(
                buckets_of(self.view_entries(), user_id),
                current_epoch,
                whitelist@,
            ),
    {
        let ui = match self.find_user(user_id) {
            Some(ui) => ui,
            None => {
                proof {
                    lemma_buckets_of_absent(self.view_entries(), user_id);
                }
                return true;
            },
        };
        proof {
            lemma_buckets_of_at(self.view_entries(), ui as int);
        }
        let ghost bs = self.view_entries()[ui as int].buckets@;
        let mut i: usize = 0;
        while i < self.entries[ui].buckets.len()
            invariant
                self.wf(),
                ui < self.view_entries().len(),
                bs == self.view_entries()[ui as int].buckets@,
                bs == buckets_of(self.view_entries(), user_id),
                i <= bs.len(),
                forall|a: int, b: int|
                    0 <= a < i && bs[a].unbond_epoch <= current_epoch && 0 <= b
                        < bs[a].tokens@.len() ==> contains_token(
                        whitelist@,
                        (#[trigger] bs[a].tokens@[b]).token_id,
                    ),
            decreases bs.len() - i,
        {
            if self.entries[ui].buckets[i].unbond_epoch <= current_epoch {
                let entries = self.entries[ui].buckets[i].tokens.payments_ref();
                let mut j: usize = 0;
                while j < entries.len()
                    invariant
                        entries@ == bs[i as int].tokens@,
                        i < bs.len(),
                        bs[i as int].unbond_epoch <= current_epoch,
                        bs == buckets_of(self.view_entries(), user_id),
                        j <= entries@.len(),
                        forall|b: int| 0 <= b < j ==> contains_token(
                            whitelist@,
                            (#[trigger] bs[i as int].tokens@[b]).token_id,
                        ),
                    decreases entries@.len() - j,
                {
                    if !whitelist.is_token_whitelisted(entries[j].token_id) {
                        proof {
                            assert(!contains_token(
                                whitelist@,
                                bs[i as int].tokens@[j as int].token_id,
                            ));
                        }
                        return false;
                    }
                    j += 1;
                }
            }
            i += 1;
        }
        true
    }

    fn find_user(&self, user_id: AddressId) -> (r: Option<usize>)
        ensures
            match r {
                Some(i) => i < self.entries@.len() && self.entries@[i as int].user_id == user_id,
                None => forall|j: int|
                    0 <= j < self.entries@.len() ==> self.entries@[j].user_id != user_id,
            },
    {
        let mut i: usize = 0;
        while i < self.entries.len()
            invariant
                i <= self.entries.len(),
                forall|j: int| 0 <= j < i ==> self.entries@[j].user_id != user_id,
            decreases self.entries.len() - i,
        {
            if self.entries[i].user_id == user_id {
                return Some(i);
            }
            i += 1;
        }
        None
    }
}

pub proof fn lemma_released_nonneg(bs: Seq<UnbondInfo>, e: Epoch)
    ensures
        released_total(bs, e) >= 0,
        forall|k: AssetKey| #[trigger] released_key_amount(bs, e, k) >= 0,
    decreases bs.len(),
{
    if bs.len() > 0 {
        lemma_released_nonneg(bs.drop_last(), e);
        crate::unique_payments::lemma_total_nonneg(bs.last().tokens@);
        assert forall|k: AssetKey| #[trigger] released_key_amount(bs, e, k) >= 0 by {
            assert(released_key_amount(bs.drop_last(), e, k) >= 0);
            crate::unique_payments::lemma_key_amount_nonneg(bs.last().tokens@, k);
        }
    }
}

/// Splitting a bucket list splits its released total.
pub proof fn lemma_released_split(bs: Seq<UnbondInfo>, e: Epoch, i: int)
    requires
        0 <= i <= bs.len(),
    ensures
        released_total(bs.subrange(0, i), e) + released_total(
            bs.subrange(i, bs.len() as int),
            e,
        ) == released_total(bs, e),
    decreases bs.len() - i,
{
    if i == bs.len() {
        assert(bs.subrange(0, i) =~= bs);
    } else {
        lemma_released_split(bs, e, i + 1);
        assert(bs.subrange(0, i + 1) =~= bs.subrange(0, i).push(bs[i]));
        lemma_released_push(bs.subrange(0, i), bs[i], e, AssetKey { token_id: 0, nonce: 0 });
        assert(bs.subrange(i, bs.len() as int).subrange(1, bs.len() - i) =~= bs.subrange(
            i + 1,
            bs.len() as int,
        ));
        lemma_released_head(bs.subrange(i, bs.len() as int), e);
    }
}

proof fn lemma_released_head(bs: Seq<UnbondInfo>, e: Epoch)
    requires
        bs.len() > 0,
    ensures
        released_total(bs, e) == (if bs[0].unbond_epoch <= e {
            total_amount(bs[0].tokens@)
        } else {
            0
        }) + released_total(bs.subrange(1, bs.len() as int), e),
    decreases bs.len(),
{
    if bs.len() == 1 {
        assert(bs.drop_last() =~= bs.subrange(1, bs.len() as int));
    } else {
        lemma_released_head(bs.drop_last(), e);
        assert(bs.drop_last().subrange(1, bs.drop_last().len() as int) =~= bs.subrange(
            1,
            bs.len() as int,
        ).drop_last());
        assert(bs.subrange(1, bs.len() as int).last() == bs.last());
        assert(bs.drop_last()[0] == bs[0]);
    }
}

pub proof fn lemma_buckets_of_update(s: Seq<UserUnbonds>, i: int, entry: UserUnbonds)
    requires
        forall|a: int, b: int| 0 <= a < b < s.len() ==> s[a].user_id != s[b].user_id,
        0 <= i < s.len(),
        entry.user_id == s[i].user_id,
    ensures
        forall|u: AddressId| #[trigger] buckets_of(s.update(i, entry), u) == if u == entry.user_id {
            entry.buckets@
        } else {
            buckets_of(s, u)
        },
    decreases s.len(),
{
    assert forall|u: AddressId| #[trigger] buckets_of(s.update(i, entry), u) == (if u
        == entry.user_id {
        entry.buckets@
    } else {
        buckets_of(s, u)
    }) by {
        lemma_buckets_of_update_one(s, i, entry, u);
    }
}

proof fn lemma_buckets_of_update_one(s: Seq<UserUnbonds>, i: int, entry: UserUnbonds, u: AddressId)
    requires
        forall|a: int, b: int| 0 <= a < b < s.len() ==> s[a].user_id != s[b].user_id,
        0 <= i < s.len(),
        entry.user_id == s[i].user_id,
    ensures
        buckets_of(s.update(i, entry), u) == if u == entry.user_id {
            entry.buckets@
        } else {
            buckets_of(s, u)
        },
    decreases s.len(),
{
    if i == s.len() - 1 {
        assert(s.update(i, entry).drop_last() =~= s.drop_last());
    } else {
        assert(s.update(i, entry).drop_last() =~= s.drop_last().update(i, entry));
        lemma_buckets_of_update_one(s.drop_last(), i, entry, u);
    }
}

pub proof fn lemma_buckets_of_push(s: Seq<UserUnbonds>, entry: UserUnbonds)
    ensures
        forall|u: AddressId| #[trigger] buckets_of(s.push(entry), u) == if u == entry.user_id {
            entry.buckets@
        } else {
            buckets_of(s, u)
        },
{
    assert(s.push(entry).drop_last() =~= s);
}

pub proof fn lemma_buckets_of_at(s: Seq<UserUnbonds>, i: int)
    requires
        forall|a: int, b: int| 0 <= a < b < s.len() ==> s[a].user_id != s[b].user_id,
        0 <= i < s.len(),
    ensures
        buckets_of(s, s[i].user_id) == s[i].buckets@,
    decreases s.len(),
{
    if i < s.len() - 1 {
        lemma_buckets_of_at(s.drop_last(), i);
    }
}

pub proof fn lemma_buckets_of_absent(s: Seq<UserUnbonds>, u: AddressId)
    requires
        forall|i: int| 0 <= i < s.len() ==> s[i].user_id != u,
    ensures
        buckets_of(s, u) == Seq::<UnbondInfo>::empty(),
    decreases s.len(),
{
    if s.len() > 0 {
        lemma_buckets_of_absent(s.drop_last(), u);
    }
}

fn find_bucket(buckets: &Vec<UnbondInfo>, e: Epoch) -> (r: Option<usize>)
    ensures
        match r {
            Some(i) => i < buckets@.len() && buckets@[i as int].unbond_epoch == e,
            None => forall|j: int| 0 <= j < buckets@.len() ==> buckets@[j].unbond_epoch != e,
        },
{
    let mut i: usize = 0;
    while i < buckets.len()
        invariant
            i <= buckets.len(),
            forall|j: int| 0 <= j < i ==> buckets@[j].unbond_epoch != e,
        decreases buckets.len() - i,
    {
        if buckets[i].unbond_epoch == e {
            return Some(i);
        }
        i += 1;
    }
    None
}

} // verus!
