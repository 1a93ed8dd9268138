use vstd::prelude::*;

use crate::errors::Error;

verus! {

/// Identity of a fungible or semi-fungible unit of value: a token id
/// together with a sub-id (`nonce`) that distinguishes non-fungible
/// instances; the nonce is `0` for purely fungible assets.
#[derive(Clone, Copy, Debug, PartialEq, Eq, Structural)]
pub struct AssetKey {
    pub token_id: u64,
    pub nonce: u64,
}

/// An amount of one asset.
#[derive(Clone, Copy, Debug, PartialEq, Eq, Structural)]
pub struct Payment {
    pub token_id: u64,
    pub nonce: u64,
    pub amount: u64,
}

impl Payment {
    pub open spec fn key(self) -> AssetKey {
        AssetKey { token_id: self.token_id, nonce: self.nonce }
    }
}

/// The amount a sequence of payments holds for one asset key, counting
/// every entry with that key.
pub open spec fn key_amount(s: Seq<Payment>, k: AssetKey) -> int
    decreases s.len(),
{
    if s.len() == 0 {
        0
    } else {
        key_amount(s.drop_last(), k) + if s.last().key() == k {
            s.last().amount as int
        } else {
            0
        }
    }
}

/// The sum of all amounts in a sequence of payments.
pub open spec fn total_amount(s: Seq<Payment>) -> int
    decreases s.len(),
{
    if s.len() == 0 {
        0
    } else {
        total_amount(s.drop_last()) + s.last().amount as int
    }
}

/// No two entries share an asset key.
pub open spec fn distinct_keys(s: Seq<Payment>) -> bool {
    forall|i: int, j: int| 0 <= i < j < s.len() ==> s[i].key() != s[j].key()
}

/// Every entry's amount is strictly positive.
pub open spec fn all_positive(s: Seq<Payment>) -> bool {
    forall|i: int| 0 <= i < s.len() ==> s[i].amount > 0
}

pub proof fn lemma_key_amount_nonneg(s: Seq<Payment>, k: AssetKey)
    ensures
        key_amount(s, k) >= 0,
    decreases s.len(),
{
    if s.len() > 0 {
        lemma_key_amount_nonneg(s.drop_last(), k);
    }
}

pub proof fn lemma_key_amount_le_total(s: Seq<Payment>, k: AssetKey)
    ensures
        key_amount(s, k) <= total_amount(s),
    decreases s.len(),
{
    if s.len() > 0 {
        lemma_key_amount_le_total(s.drop_last(), k);
    }
}

pub proof fn lemma_total_nonneg(s: Seq<Payment>)
    ensures
        total_amount(s) >= 0,
    decreases s.len(),
{
    if s.len() > 0 {
        lemma_total_nonneg(s.drop_last());
    }
}

pub proof fn lemma_key_amount_push(s: Seq<Payment>, p: Payment, k: AssetKey)
    ensures
        key_amount(s.push(p), k) == key_amount(s, k) + if p.key() == k {
            p.amount as int
        } else {
            0
        },
        total_amount(s.push(p)) == total_amount(s) + p.amount,
{
    assert(s.push(p).drop_last() =~= s);
}

pub proof fn lemma_key_amount_update(s: Seq<Payment>, i: int, p: Payment, k: AssetKey)
    requires
        0 <= i < s.len(),
    ensures
        key_amount(s.update(i, p), k) == key_amount(s, k) + (if p.key() == k {
            p.amount as int
        } else {
            0
        }) - (if s[i].key() == k {
            s[i].amount as int
        } else {
            0
        }),
        total_amount(s.update(i, p)) == total_amount(s) + p.amount - s[i].amount,
    decreases s.len(),
{
    if i == s.len() - 1 {
        assert(s.update(i, p).drop_last() =~= s.drop_last());
    } else {
        assert(s.update(i, p).drop_last() =~= s.drop_last().update(i, p));
        lemma_key_amount_update(s.drop_last(), i, p, k);
    }
}

pub proof fn lemma_key_amount_remove(s: Seq<Payment>, i: int, k: AssetKey)
    requires
        0 <= i < s.len(),
    ensures
        key_amount(s.remove(i), k) == key_amount(s, k) - if s[i].key() == k {
            s[i].amount as int
        } else {
            0
        },
        total_amount(s.remove(i)) == total_amount(s) - s[i].amount,
    decreases s.len(),
{
    if i == s.len() - 1 {
        assert(s.remove(i) =~= s.drop_last());
    } else {
        assert(s.remove(i).drop_last() =~= s.drop_last().remove(i));
        assert(s.remove(i).last() == s.last());
        lemma_key_amount_remove(s.drop_last(), i, k);
    }
}

/// Under key uniqueness the summed amount for the key of entry `i` is
/// exactly that entry's amount.
pub proof fn lemma_key_amount_at(s: Seq<Payment>, i: int)
    requires
        distinct_keys(s),
        0 <= i < s.len(),
    ensures
        key_amount(s, s[i].key()) == s[i].amount,
    decreases s.len(),
{
    if i == s.len() - 1 {
        lemma_key_amount_absent(s.drop_last(), s[i].key());
    } else {
        lemma_key_amount_at(s.drop_last(), i);
    }
}

/// A key that appears in no entry sums to zero.
pub proof fn lemma_key_amount_absent(s: Seq<Payment>, k: AssetKey)
    requires
        forall|i: int| 0 <= i < s.len() ==> s[i].key() != k,
    ensures
        key_amount(s, k) == 0,
    decreases s.len(),
{
    if s.len() > 0 {
        lemma_key_amount_absent(s.drop_last(), k);
    }
}

/// A deduplicated multi-asset balance: a mapping from asset key to a
/// positive amount. Keys are unique and no entry ever holds a zero
/// amount; an entry that reaches zero is deleted, not stored.
#[derive(Debug)]
pub struct UniquePayments {
    payments: Vec<Payment>,
}

impl View for UniquePayments {
    type V = Seq<Payment>;

    closed spec fn view(&self) -> Seq<Payment> {
        self.payments@
    }
}

impl Clone for UniquePayments {
    fn clone(&self) -> (r: Self)
        ensures
            r@ == self@,
    {
        let mut copied: Vec<Payment> = Vec::new();
        let mut i: usize = 0;
        while i < self.payments.len()
            invariant
                i <= self.payments.len(),
                copied@ =~= self.payments@.subrange(0, i as int),
            decreases self.payments.len() - i,
        {
            copied.push(self.payments[i]);
            i += 1;
        }
        proof {
            assert(copied@ =~= self.payments@);
        }
        UniquePayments { payments: copied }
    }
}

impl UniquePayments {
    /// Key uniqueness plus positivity: the representation invariant.
    pub open spec fn wf(self) -> bool {
        distinct_keys(self@) && all_positive(self@)
    }

    pub fn new() -> (r: Self)
        ensures
            r.wf(),
            r@ == Seq::<Payment>::empty(),
    {
        let payments: Vec<Payment> = Vec::new();
        proof {
            assert(payments@ =~= Seq::<Payment>::empty());
        }
        UniquePayments { payments }
    }

    /// Builds a balance from an arbitrary payment list: entries with equal
    /// keys are merged and zero amounts are dropped, so the result holds
    /// exactly the summed amounts of the input.
    pub fn new_from_payments(payments: Vec<Payment>) -> (r: Self)
        requires
            total_amount(payments@) <= u64::MAX,
        ensures
            r.wf(),
            forall|k: AssetKey| #[trigger] key_amount(r@, k) == key_amount(payments@, k),
            total_amount(r@) == total_amount(payments@),
    {
        let mut result = UniquePayments::new();
        let mut i: usize = 0;
        while i < payments.len()
            invariant
                i <= payments.len(),
                result.wf(),
                forall|k: AssetKey| #[trigger] key_amount(result@, k) == key_amount(
                    payments@.subrange(0, i as int),
                    k,
                ),
                total_amount(result@) == total_amount(payments@.subrange(0, i as int)),
                total_amount(payments@) <= u64::MAX,
            decreases payments.len() - i,
        {
            let p = payments[i];
            proof {
                lemma_total_split(payments@, i as int);
                lemma_total_split(payments@, i + 1);
                lemma_sub_push(payments@, i as int);
                lemma_key_amount_push(payments@.subrange(0, i as int), p, p.key());
                lemma_total_nonneg(payments@.subrange(i + 1, payments@.len() as int));
                lemma_key_amount_le_total(payments@.subrange(0, i as int), p.key());
            }
            if p.amount > 0 {
                result.add_payment(p);
            }
            proof {
                lemma_sub_push(payments@, i as int);
                lemma_key_amount_push(payments@.subrange(0, i as int), p, p.key());
                assert forall|k: AssetKey| #[trigger] key_amount(result@, k) == key_amount(
                    payments@.subrange(0, i + 1),
                    k,
                ) by {
                    lemma_key_amount_push(payments@.subrange(0, i as int), p, k);
                }
            }
            i += 1;
        }
        proof {
            assert(payments@.subrange(0, payments@.len() as int) =~= payments@);
        }
        result
    }

    /// Increases the balance for the payment's asset, creating the entry
    /// if it was absent.
    pub fn add_payment(&mut self, payment: Payment)
        requires
            old(self).wf(),
            payment.amount > 0,
            key_amount(old(self)@, payment.key()) + payment.amount <= u64::MAX,
        ensures
            final(self).wf(),
            forall|k: AssetKey| #[trigger] key_amount(final(self)@, k) == key_amount(old(self)@, k)
                + if k == payment.key() {
                payment.amount as int
            } else {
                0
            },
            total_amount(final(self)@) == total_amount(old(self)@) + payment.amount,
    {
        let opt_i = self.index_of(payment.token_id, payment.nonce);
        match opt_i {
            Some(i) => {
                let existing = self.payments[i];
                proof {
                    lemma_key_amount_at(self.payments@, i as int);
                }
                let updated = Payment {
                    token_id: payment.token_id,
                    nonce: payment.nonce,
                    amount: existing.amount + payment.amount,
                };
                proof {
                    lemma_key_amount_update(self.payments@, i as int, updated, payment.key());
                    assert forall|k: AssetKey|
                        key_amount(#[trigger] self.payments@.update(i as int, updated), k)
                            == key_amount(self.payments@, k) + if k == payment.key() {
                            payment.amount as int
                        } else {
                            0
                        } by {
                        lemma_key_amount_update(self.payments@, i as int, updated, k);
                    }
                }
                self.payments.set(i, updated);
            },
            None => {
                proof {
                    lemma_key_amount_push(self.payments@, payment, payment.key());
                    assert forall|k: AssetKey|
                        key_amount(#[trigger] self.payments@.push(payment), k) == key_amount(
                            self.payments@,
                            k,
                        ) + if k == payment.key() {
                            payment.amount as int
                        } else {
                            0
                        } by {
                        lemma_key_amount_push(self.payments@, payment, k);
                    }
                }
                self.payments.push(payment);
            },
        }
    }

    /// Decreases the balance for the payment's asset, deleting the entry
    /// when it reaches exactly zero. Fails, leaving the balance unchanged,
    /// when the asset is absent or holds less than the requested amount.
    pub fn deduct_payment(&mut self, payment: &Payment) -> (r: Result<(), Error>)
        requires
            old(self).wf(),
            payment.amount > 0,
        ensures
            final(self).wf(),
            r is Ok <==> key_amount(old(self)@, payment.key()) >= payment.amount,
            r is Ok ==> forall|k: AssetKey| #[trigger] key_amount(final(self)@, k) == key_amount(
                old(self)@,
                k,
            ) - if k == payment.key() {
                payment.amount as int
            } else {
                0
            },
            r is Ok ==> total_amount(final(self)@) == total_amount(old(self)@) - payment.amount,
            r is Err ==> *final(self) == *old(self) && r == Err::<(), Error>(
                Error::InsufficientBalance,
            ),
    {
        let opt_i = self.index_of(payment.token_id, payment.nonce);
        match opt_i {
            Some(i) => {
                let existing = self.payments[i];
                proof {
                    lemma_key_amount_at(self.payments@, i as int);
                }
                if existing.amount < payment.amount {
                    return Err(Error::InsufficientBalance);
                }
                if existing.amount == payment.amount {
                    proof {
                        lemma_key_amount_remove(self.payments@, i as int, payment.key());
                        assert forall|k: AssetKey|
                            key_amount(#[trigger] self.payments@.remove(i as int), k) == key_amount(
                                self.payments@,
                                k,
                            ) - if k == payment.key() {
                                payment.amount as int
                            } else {
                                0
                            } by {
                            lemma_key_amount_remove(self.payments@, i as int, k);
                        }
                    }
                    self.payments.remove(i);
                } else {
                    let updated = Payment {
                        token_id: payment.token_id,
                        nonce: payment.nonce,
                        amount: existing.amount - payment.amount,
                    };
                    proof {
                        lemma_key_amount_update(self.payments@, i as int, updated, payment.key());
                        assert forall|k: AssetKey|
                            key_amount(#[trigger] self.payments@.update(i as int, updated), k)
                                == key_amount(self.payments@, k) - if k == payment.key() {
                                payment.amount as int
                            } else {
                                0
                            } by {
                            lemma_key_amount_update(self.payments@, i as int, updated, k);
                        }
                    }
                    self.payments.set(i, updated);
                }
                Ok(())
            },
            None => {
                proof {
                    lemma_key_amount_absent(self.payments@, payment.key());
                }
                Err(Error::InsufficientBalance)
            },
        }
    }

    /// Adds every amount of `other` into this balance, consuming `other`.
    /// Merging is commutative and associative on the underlying mapping.
    pub fn merge_with(&mut self, other: UniquePayments)
        requires
            old(self).wf(),
            other.wf(),
            total_amount(old(self)@) + total_amount(other@) <= u64::MAX,
        ensures
            final(self).wf(),
            forall|k: AssetKey| #[trigger] key_amount(final(self)@, k) == key_amount(old(self)@, k)
                + key_amount(other@, k),
            total_amount(final(self)@) == total_amount(old(self)@) + total_amount(other@),
    {
        let ghost others = other.payments@;
        let mut i: usize = 0;
        while i < other.payments.len()
            invariant
                i <= other.payments.len(),
                other.payments@ == others,
                other.wf(),
                self.wf(),
                forall|k: AssetKey| #[trigger] key_amount(self@, k) == key_amount(old(self)@, k)
                    + key_amount(others.subrange(0, i as int), k),
                total_amount(self@) == total_amount(old(self)@) + total_amount(
                    others.subrange(0, i as int),
                ),
                total_amount(old(self)@) + total_amount(others) <= u64::MAX,
            decreases other.payments.len() - i,
        {
            let p = other.payments[i];
            proof {
                lemma_total_split(others, i as int);
                lemma_total_split(others, i + 1);
                lemma_sub_push(others, i as int);
                lemma_total_nonneg(others.subrange(i + 1, others.len() as int));
                lemma_key_amount_le_total(self@, p.key());
                lemma_key_amount_push(others.subrange(0, i as int), p, p.key());
                lemma_key_amount_nonneg(others.subrange(0, i as int), p.key());
            }
            self.add_payment(p);
            proof {
                assert forall|k: AssetKey| #[trigger] key_amount(self@, k) == key_amount(
                    old(self)@,
                    k,
                ) + key_amount(others.subrange(0, i + 1), k) by {
                    lemma_sub_push(others, i as int);
                    lemma_key_amount_push(others.subrange(0, i as int), p, k);
                }
            }
            i += 1;
        }
        proof {
            assert(others.subrange(0, others.len() as int) =~= others);
        }
    }

    /// Read-only access to the stored entries, in their stable order.
    pub fn payments_ref(&self) -> (r: &Vec<Payment>)
        ensures
            r@ == self@,
    {
        &self.payments
    }

    /// Hands the balance out as a payment list; the order is the stable
    /// internal storage order of this snapshot.
    pub fn into_payments(self) -> (r: Vec<Payment>)
        ensures
            r@ == self@,
    {
        self.payments
    }

    pub fn is_empty(&self) -> (r: bool)
        ensures
            r == (self@.len() == 0),
    {
        self.payments.len() == 0
    }

    /// The stored amount for one asset key.
    pub fn get_amount(&self, token_id: u64, nonce: u64) -> (r: u64)
        requires
            self.wf(),
        ensures
            r == key_amount(self@, AssetKey { token_id, nonce }),
    {
        let opt_i = self.index_of(token_id, nonce);
        match opt_i {
            Some(i) => {
                proof {
                    lemma_key_amount_at(self.payments@, i as int);
                }
                self.payments[i].amount
            },
            None => {
                proof {
                    lemma_key_amount_absent(self.payments@, AssetKey { token_id, nonce });
                }
                0
            },
        }
    }

    /// Index of the entry with the given key, if any.
    fn index_of(&self, token_id: u64, nonce: u64) -> (r: Option<usize>)
        ensures
            match r {
                Some(i) => i < self@.len() && self@[i as int].key() == (AssetKey {
                    token_id,
                    nonce,
                }),
                None => forall|j: int|
                    0 <= j < self@.len() ==> self@[j].key() != (AssetKey { token_id, nonce }),
            },
    {
        let mut i: usize = 0;
        while i < self.payments.len()
            invariant
                i <= self.payments.len(),
                forall|j: int|
                    0 <= j < i ==> self@[j].key() != (AssetKey { token_id, nonce }),
            decreases self.payments.len() - i,
        {
            let p = self.payments[i];
            if p.token_id == token_id && p.nonce == nonce {
                return Some(i);
            }
            i += 1;
        }
        None
    }
}

/// Splitting a sequence splits its total.
pub proof fn lemma_total_split(s: Seq<Payment>, i: int)
    requires
        0 <= i <= s.len(),
    ensures
        total_amount(s.subrange(0, i)) + total_amount(s.subrange(i, s.len() as int))
            == total_amount(s),
    decreases s.len() - i,
{
    if i == s.len() {
        assert(s.subrange(0, i) =~= s);
        assert(total_amount(s.subrange(i, s.len() as int)) == 0);
    } else {
        lemma_total_split(s, i + 1);
        lemma_sub_push(s, i);
        lemma_key_amount_push(s.subrange(0, i), s[i], s[i].key());
        assert(s.subrange(i, s.len() as int).subrange(1, s.len() - i) =~= s.subrange(
            i + 1,
            s.len() as int,
        ));
        lemma_total_head(s.subrange(i, s.len() as int));
    }
}

/// Extending a prefix subrange by one element is a push.
pub proof fn lemma_sub_push(s: Seq<Payment>, i: int)
    requires
        0 <= i < s.len(),
    ensures
        s.subrange(0, i + 1) == s.subrange(0, i).push(s[i]),
{
    assert(s.subrange(0, i + 1) =~= s.subrange(0, i).push(s[i]));
}

/// The total of a non-empty sequence is its head plus the rest.
pub proof fn lemma_total_head(s: Seq<Payment>)
    requires
        s.len() > 0,
    ensures
        total_amount(s) == s[0].amount + total_amount(s.subrange(1, s.len() as int)),
    decreases s.len(),
{
    if s.len() == 1 {
        assert(s.drop_last() =~= s.subrange(1, s.len() as int));
        assert(total_amount(s.drop_last()) == 0);
    } else {
        lemma_total_head(s.drop_last());
        assert(s.drop_last().subrange(1, s.drop_last().len() as int) =~= s.subrange(
            1,
            s.len() as int,
        ).drop_last());
        assert(s.subrange(1, s.len() as int).last() == s.last());
    }
}

} // verus!
