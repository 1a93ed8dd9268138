use vstd::prelude::*;

use crate::errors::Error;
use crate::identity::AddressId;
use crate::token_whitelist::{token_value, TokenWhitelistModule};
use crate::unique_payments::{
    all_positive, key_amount, lemma_key_amount_le_total, lemma_key_amount_nonneg,
    lemma_key_amount_push, total_amount, AssetKey, Payment, UniquePayments,
};

verus! {

/// The delegation record of one delegator towards one target: the
/// cumulative delegated base value and the record of the delegated
/// assets themselves.
#[derive(Debug)]
pub struct DelegationEdge {
    pub delegator: AddressId,
    pub total: u64,
    pub tokens: UniquePayments,
}

/// Per-target aggregate accounting: the target's total delegated base
/// value, the set of its delegators, and one edge per delegator that has
/// a record here.
#[derive(Debug)]
pub struct TargetAccount {
    pub total_delegated: u64,
    pub delegators: Vec<AddressId>,
    pub edges: Vec<DelegationEdge>,
}

/// Everything a delegation addition needs besides the target account
/// itself: the assets, their already-computed base value, the delegator,
/// and the target's optional cap.
#[derive(Debug)]
pub struct AddDelegationArgs {
    pub payments_to_add: Vec<Payment>,
    pub total_amount: u64,
    pub caller_id: AddressId,
    pub opt_max_delegation: Option<u64>,
}

/// Everything a delegation removal needs besides the target account: the
/// requested assets and the delegator.
#[derive(Debug)]
pub struct RemoveDelegationArgs {
    pub tokens: Vec<Payment>,
    pub caller_id: AddressId,
}

/// The sum of all edge totals.
pub open spec fn edges_total(s: Seq<DelegationEdge>) -> int
    decreases s.len(),
{
    if s.len() == 0 {
        0
    } else {
        edges_total(s.drop_last()) + s.last().total as int
    }
}

/// The edge of delegator `d`, if one exists.
pub open spec fn edge_of(s: Seq<DelegationEdge>, d: AddressId) -> Option<DelegationEdge>
    decreases s.len(),
{
    if s.len() == 0 {
        None
    } else if s.last().delegator == d {
        Some(s.last())
    } else {
        edge_of(s.drop_last(), d)
    }
}

/// The base value delegator `d` has delegated (zero without an edge).
pub open spec fn edge_total(s: Seq<DelegationEdge>, d: AddressId) -> int {
    match edge_of(s, d) {
        Some(e) => e.total as int,
        None => 0,
    }
}

/// The asset record of delegator `d` (empty without an edge).
pub open spec fn edge_tokens(s: Seq<DelegationEdge>, d: AddressId) -> Seq<Payment> {
    match edge_of(s, d) {
        Some(e) => e.tokens@,
        None => Seq::empty(),
    }
}

pub open spec fn distinct_delegators(s: Seq<DelegationEdge>) -> bool {
    forall|i: int, j: int| 0 <= i < j < s.len() ==> s[i].delegator != s[j].delegator
}

/// The total base value of a payment list under the whitelist's pricing.
pub open spec fn values_total(wl: Seq<crate::token_whitelist::TokenInfo>, ts: Seq<Payment>) -> int
    decreases ts.len(),
{
    if ts.len() == 0 {
        0
    } else {
        values_total(wl, ts.drop_last()) + token_value(wl, ts.last().token_id, ts.last().amount)
    }
}

pub proof fn lemma_token_value_nonneg(
    wl: Seq<crate::token_whitelist::TokenInfo>,
    t: u64,
    amount: u64,
)
    ensures
        token_value(wl, t, amount) >= 0,
{
    if t != crate::token_whitelist::EGLD_TOKEN_ID {
        crate::token_whitelist::lemma_rate_of_nonneg(wl, t);
        crate::token_whitelist::lemma_pow10_pos(crate::token_whitelist::decimals_of(wl, t));
        lemma_rate_mul_nonneg(crate::token_whitelist::rate_of(wl, t), amount as int);
        vstd::arithmetic::div_mod::lemma_div_pos_is_pos(
            crate::token_whitelist::rate_of(wl, t) * amount,
            crate::token_whitelist::pow10(crate::token_whitelist::decimals_of(wl, t)),
        );
    }
}

proof fn lemma_rate_mul_nonneg(r: int, a: int)
    requires
        r >= 0,
        a >= 0,
    ensures
        r * a >= 0,
{
    vstd::arithmetic::mul::lemma_mul_nonnegative(r, a);
}

pub proof fn lemma_values_total_nonneg(wl: Seq<crate::token_whitelist::TokenInfo>, ts: Seq<Payment>)
    ensures
        values_total(wl, ts) >= 0,
    decreases ts.len(),
{
    if ts.len() > 0 {
        lemma_values_total_nonneg(wl, ts.drop_last());
        lemma_token_value_nonneg(wl, ts.last().token_id, ts.last().amount);
    }
}

pub proof fn lemma_values_total_push(
    wl: Seq<crate::token_whitelist::TokenInfo>,
    ts: Seq<Payment>,
    p: Payment,
)
    ensures
        values_total(wl, ts.push(p)) == values_total(wl, ts) + token_value(wl, p.token_id, p.amount),
{
    assert(ts.push(p).drop_last() =~= ts);
}

/// Splitting a payment list splits its key sums.
pub proof fn lemma_key_split(s: Seq<Payment>, i: int, k: AssetKey)
    requires
        0 <= i <= s.len(),
    ensures
        key_amount(s.subrange(0, i), k) + key_amount(s.subrange(i, s.len() as int), k)
            == key_amount(s, k),
    decreases s.len() - i,
{
    if i == s.len() {
        assert(s.subrange(0, i) =~= s);
    } else {
        lemma_key_split(s, i + 1, k);
        crate::unique_payments::lemma_sub_push(s, i);
        lemma_key_amount_push(s.subrange(0, i), s[i], k);
        assert(s.subrange(i, s.len() as int).subrange(1, s.len() - i) =~= s.subrange(
            i + 1,
            s.len() as int,
        ));
        lemma_key_head(s.subrange(i, s.len() as int), k);
    }
}

proof fn lemma_key_head(s: Seq<Payment>, k: AssetKey)
    requires
        s.len() > 0,
    ensures
        key_amount(s, k) == (if s[0].key() == k {
            s[0].amount as int
        } else {
            0
        }) + key_amount(s.subrange(1, s.len() as int), k),
    decreases s.len(),
{
    if s.len() == 1 {
        assert(s.drop_last() =~= s.subrange(1, s.len() as int));
    } else {
        lemma_key_head(s.drop_last(), k);
        assert(s.drop_last().subrange(1, s.drop_last().len() as int) =~= s.subrange(
            1,
            s.len() as int,
        ).drop_last());
        assert(s.subrange(1, s.len() as int).last() == s.last());
        assert(s.subrange(1, s.len() as int)[0] == s[1]);
    }
}

pub proof fn lemma_edges_total_nonneg(s: Seq<DelegationEdge>)
    ensures
        edges_total(s) >= 0,
    decreases s.len(),
{
    if s.len() > 0 {
        lemma_edges_total_nonneg(s.drop_last());
    }
}

/// Any single edge total is at most the sum of all.
pub proof fn lemma_edge_le_total(s: Seq<DelegationEdge>, i: int)
    requires
        0 <= i < s.len(),
    ensures
        s[i].total <= edges_total(s),
    decreases s.len(),
{
    if i == s.len() - 1 {
        lemma_edges_total_nonneg(s.drop_last());
    } else {
        lemma_edge_le_total(s.drop_last(), i);
    }
}

pub proof fn lemma_edges_total_push(s: Seq<DelegationEdge>, e: DelegationEdge)
    ensures
        edges_total(s.push(e)) == edges_total(s) + e.total,
{
    assert(s.push(e).drop_last() =~= s);
}

pub proof fn lemma_edges_total_update(s: Seq<DelegationEdge>, i: int, e: DelegationEdge)
    requires
        0 <= i < s.len(),
    ensures
        edges_total(s.update(i, e)) == edges_total(s) - s[i].total + e.total,
    decreases s.len(),
{
    if i == s.len() - 1 {
        assert(s.update(i, e).drop_last() =~= s.drop_last());
    } else {
        assert(s.update(i, e).drop_last() =~= s.drop_last().update(i, e));
        lemma_edges_total_update(s.drop_last(), i, e);
    }
}

pub proof fn lemma_edge_of_at(s: Seq<DelegationEdge>, i: int)
    requires
        distinct_delegators(s),
        0 <= i < s.len(),
    ensures
        edge_of(s, s[i].delegator) == Some(s[i]),
    decreases s.len(),
{
    if i < s.len() - 1 {
        lemma_edge_of_at(s.drop_last(), i);
    }
}

pub proof fn lemma_edge_of_absent(s: Seq<DelegationEdge>, d: AddressId)
    requires
        forall|i: int| 0 <= i < s.len() ==> s[i].delegator != d,
    ensures
        edge_of(s, d) is None,
    decreases s.len(),
{
    if s.len() > 0 {
        lemma_edge_of_absent(s.drop_last(), d);
    }
}

pub proof fn lemma_edge_of_push(s: Seq<DelegationEdge>, e: DelegationEdge, d: AddressId)
    ensures
        edge_of(s.push(e), d) == if d == e.delegator {
            Some(e)
        } else {
            edge_of(s, d)
        },
{
    assert(s.push(e).drop_last() =~= s);
}

pub proof fn lemma_edge_of_update(s: Seq<DelegationEdge>, i: int, e: DelegationEdge, d: AddressId)
    requires
        0 <= i < s.len(),
        distinct_delegators(s),
        e.delegator == s[i].delegator,
    ensures
        edge_of(s.update(i, e), d) == if d == e.delegator {
            Some(e)
        } else {
            edge_of(s, d)
        },
    decreases s.len(),
{
    if i == s.len() - 1 {
        assert(s.update(i, e).drop_last() =~= s.drop_last());
    } else {
        assert(s.update(i, e).drop_last() =~= s.drop_last().update(i, e));
        lemma_edge_of_update(s.drop_last(), i, e, d);
    }
}

impl TargetAccount {
    /// The aggregate equals the sum of the edges, delegators and edges are
    /// unique per address, and every asset record is a valid balance.
    pub open spec fn wf(self) -> bool {
        &&& self.total_delegated == edges_total(self.edges@)
        &&& distinct_delegators(self.edges@)
        &&& forall|i: int, j: int|
            0 <= i < j < self.delegators@.len() ==> self.delegators@[i] != self.delegators@[j]
        &&& forall|i: int| 0 <= i < self.edges@.len() ==> (#[trigger] self.edges@[i]).tokens.wf()
    }

    pub fn new() -> (r: Self)
        ensures
            r.wf(),
            r.total_delegated == 0,
            r.edges@ == Seq::<DelegationEdge>::empty(),
            r.delegators@ == Seq::<AddressId>::empty(),
    {
        let edges: Vec<DelegationEdge> = Vec::new();
        let delegators: Vec<AddressId> = Vec::new();
        proof {
            assert(edges@ =~= Seq::<DelegationEdge>::empty());
            assert(delegators@ =~= Seq::<AddressId>::empty());
        }
        TargetAccount { total_delegated: 0, delegators, edges }
    }

    /// Books a delegation: raises the target total (rejecting the whole
    /// addition when a cap would be breached), raises the delegator's
    /// edge, inserts the delegator into the set, and merges the assets
    /// into the delegator's record. Atomic: on failure nothing changes.
    pub fn add_delegation(&mut self, args: AddDelegationArgs) -> (r: Result<(), Error>)
        requires
            old(self).wf(),
            old(self).total_delegated + args.total_amount <= u64::MAX,
            total_amount(args.payments_to_add@) <= u64::MAX,
            all_positive(args.payments_to_add@),
            total_amount(edge_tokens(old(self).edges@, args.caller_id)) + total_amount(
                args.payments_to_add@,
            ) <= u64::MAX,
        ensures
            final(self).wf(),
            r is Ok <==> match args.opt_max_delegation {
                Some(max) => old(self).total_delegated + args.total_amount <= max,
                None => true,
            },
            r is Err ==> *final(self) == *old(self) && r == Err::<(), Error>(Error::CapExceeded),
            r is Ok ==> {
                &&& final(self).total_delegated == old(self).total_delegated + args.total_amount
                &&& edge_total(final(self).edges@, args.caller_id) == edge_total(
                    old(self).edges@,
                    args.caller_id,
                ) + args.total_amount
                &&& forall|k: AssetKey|
                    key_amount(edge_tokens(final(self).edges@, args.caller_id), k) == key_amount(
                        edge_tokens(old(self).edges@, args.caller_id),
                        k,
                    ) + key_amount(args.payments_to_add@, k)
                &&& forall|d: AddressId|
                    d != args.caller_id ==> edge_of(final(self).edges@, d) == edge_of(
                        old(self).edges@,
                        d,
                    )
                &&& final(self).delegators@.contains(args.caller_id)
                &&& forall|d: AddressId|
                    d != args.caller_id ==> (final(self).delegators@.contains(d)
                        <==> old(self).delegators@.contains(d))
            },
    {
        let new_total = self.total_delegated + args.total_amount;
        match args.opt_max_delegation {
            Some(max) => {
                if new_total > max {
                    return Err(Error::CapExceeded);
                }
            },
            None => {},
        }
        let to_add = UniquePayments::new_from_payments(args.payments_to_add);
        self.total_delegated = new_total;
        match self.find_edge(args.caller_id) {
            Some(i) => {
                let existing_total = self.edges[i].total;
                proof {
                    lemma_edge_le_total(self.edges@, i as int);
                    lemma_edge_of_at(self.edges@, i as int);
                }
                let mut new_tokens = self.edges[i].tokens.clone();
                new_tokens.merge_with(to_add);
                let new_edge = DelegationEdge {
                    delegator: args.caller_id,
                    total: existing_total + args.total_amount,
                    tokens: new_tokens,
                };
                proof {
                    lemma_edges_total_update(self.edges@, i as int, new_edge);
                    assert forall|d: AddressId|
                        edge_of(#[trigger] self.edges@.update(i as int, new_edge), d) == if d
                            == args.caller_id {
                            Some(new_edge)
                        } else {
                            edge_of(self.edges@, d)
                        } by {
                        lemma_edge_of_update(self.edges@, i as int, new_edge, d);
                    }
                }
                self.edges.set(i, new_edge);
            },
            None => {
                proof {
                    lemma_edge_of_absent(self.edges@, args.caller_id);
                }
                let new_edge = DelegationEdge {
                    delegator: args.caller_id,
                    total: args.total_amount,
                    tokens: to_add,
                };
                proof {
                    lemma_edges_total_push(self.edges@, new_edge);
                    assert forall|d: AddressId|
                        edge_of(#[trigger] self.edges@.push(new_edge), d) == if d
                            == args.caller_id {
                            Some(new_edge)
                        } else {
                            edge_of(self.edges@, d)
                        } by {
                        lemma_edge_of_push(self.edges@, new_edge, d);
                    }
                }
                self.edges.push(new_edge);
            },
        }
        self.insert_delegator(args.caller_id);
        Ok(())
    }

    /// Revokes delegated assets: deducts each requested amount from the
    /// delegator's record, lowers the edge and the target total by the
    /// assets' base value, drops the delegator from the set when the edge
    /// reaches zero, and returns the removed assets. Atomic: on failure
    /// nothing changes.
    pub fn remove_delegation(
        &mut self,
        whitelist: &TokenWhitelistModule,
        args: RemoveDelegationArgs,
    ) -> (r: Result<UniquePayments, Error>)
        requires
            old(self).wf(),
            whitelist.wf(),
            edge_of(old(self).edges@, args.caller_id) is Some ==> values_total(
                whitelist@,
                args.tokens@,
            ) <= edge_total(old(self).edges@, args.caller_id),
            total_amount(args.tokens@) <= u64::MAX,
        ensures
            final(self).wf(),
            r is Err ==> *final(self) == *old(self),
            r is Ok <==> edge_of(old(self).edges@, args.caller_id) is Some && all_positive(
                args.tokens@,
            ) && forall|k: AssetKey|
                #[trigger] key_amount(args.tokens@, k) <= key_amount(
                    edge_tokens(old(self).edges@, args.caller_id),
                    k,
                ),
            r == Err::<UniquePayments, Error>(Error::NothingDelegated) <==> edge_of(
                old(self).edges@,
                args.caller_id,
            ) is None,
            match r {
                Ok(out) => {
                    &&& out.wf()
                    &&& forall|k: AssetKey| #[trigger] key_amount(out@, k) == key_amount(
                        args.tokens@,
                        k,
                    )
                    &&& total_amount(out@) == total_amount(args.tokens@)
                    &&& final(self).total_delegated == old(self).total_delegated - values_total(
                        whitelist@,
                        args.tokens@,
                    )
                    &&& edge_total(final(self).edges@, args.caller_id) == edge_total(
                        old(self).edges@,
                        args.caller_id,
                    ) - values_total(whitelist@, args.tokens@)
                    &&& forall|k: AssetKey|
                        key_amount(edge_tokens(final(self).edges@, args.caller_id), k)
                            == key_amount(edge_tokens(old(self).edges@, args.caller_id), k)
                            - key_amount(args.tokens@, k)
                    &&& forall|d: AddressId|
                        d != args.caller_id ==> edge_of(final(self).edges@, d) == edge_of(
                            old(self).edges@,
                            d,
                        )
                    &&& (edge_total(final(self).edges@, args.caller_id) == 0
                        ==> !final(self).delegators@.contains(args.caller_id))
                    &&& (edge_total(final(self).edges@, args.caller_id) != 0
                        ==> (final(self).delegators@.contains(args.caller_id)
                            <==> old(self).delegators@.contains(args.caller_id)))
                    &&& forall|d: AddressId|
                        d != args.caller_id ==> (final(self).delegators@.contains(d)
                            <==> old(self).delegators@.contains(d))
                },
                Err(e) => e == Error::NothingDelegated || e == Error::ZeroAmount || e
                    == Error::OverRevoke,
            },
    {
        let ghost wl = whitelist@;
        let ghost req = args.tokens@;
        let i = match self.find_edge(args.caller_id) {
            Some(i) => i,
            None => {
                proof {
                    lemma_edge_of_absent(self.edges@, args.caller_id);
                }
                return Err(Error::NothingDelegated);
            },
        };
        proof {
            lemma_edge_of_at(self.edges@, i as int);
        }
        let existing_total = self.edges[i].total;
        let mut working = self.edges[i].tokens.clone();
        let ghost orig_tokens = working@;
        proof {
            assert(req.subrange(0, 0) =~= Seq::<Payment>::empty());
            assert forall|k: AssetKey| #[trigger] key_amount(req.subrange(0, 0), k) <= key_amount(
                orig_tokens,
                k,
            ) by {
                lemma_key_amount_nonneg(orig_tokens, k);
            }
        }
        let mut total: u64 = 0;
        let mut j: usize = 0;
        while j < args.tokens.len()
            invariant
                j <= args.tokens.len(),
                args.tokens@ == req,
                whitelist@ == wl,
                whitelist.wf(),
                working.wf(),
                *self == *old(self),
                self.wf(),
                i < old(self).edges@.len(),
                old(self).edges@[i as int].delegator == args.caller_id,
                edge_of(old(self).edges@, args.caller_id) == Some(old(self).edges@[i as int]),
                orig_tokens == old(self).edges@[i as int].tokens@,
                all_positive(req.subrange(0, j as int)),
                total == values_total(wl, req.subrange(0, j as int)),
                values_total(wl, req) <= u64::MAX,
                forall|k: AssetKey| #[trigger] key_amount(working@, k) == key_amount(orig_tokens, k)
                    - key_amount(req.subrange(0, j as int), k),
                forall|k: AssetKey| #[trigger] key_amount(req.subrange(0, j as int), k)
                    <= key_amount(orig_tokens, k),
            decreases args.tokens.len() - j,
        {
            let p = args.tokens[j];
            if p.amount == 0 {
                proof {
                    assert(!all_positive(req));
                }
                return Err(Error::ZeroAmount);
            }
            let deduct_result = working.deduct_payment(&p);
            if deduct_result.is_err() {
                proof {
                    crate::unique_payments::lemma_sub_push(req, j as int);
                    lemma_key_amount_push(req.subrange(0, j as int), p, p.key());
                    lemma_key_split(req, j + 1, p.key());
                    lemma_key_amount_nonneg(req.subrange(j + 1, req.len() as int), p.key());
                    assert(key_amount(req, p.key()) > key_amount(orig_tokens, p.key()));
                }
                return Err(Error::OverRevoke);
            }
            proof {
                crate::unique_payments::lemma_sub_push(req, j as int);
                assert forall|k: AssetKey| #[trigger] key_amount(req.subrange(0, j + 1), k)
                    <= key_amount(orig_tokens, k) by {
                    lemma_key_amount_push(req.subrange(0, j as int), p, k);
                }
                assert forall|k: AssetKey| #[trigger] key_amount(working@, k) == key_amount(
                    orig_tokens,
                    k,
                ) - key_amount(req.subrange(0, j + 1), k) by {
                    lemma_key_amount_push(req.subrange(0, j as int), p, k);
                }
                lemma_values_total_split(wl, req, j as int);
                lemma_values_total_split(wl, req, j + 1);
                lemma_values_total_push(wl, req.subrange(0, j as int), p);
                lemma_values_total_nonneg(wl, req.subrange(j + 1, req.len() as int));
                lemma_token_value_nonneg(wl, p.token_id, p.amount);
                lemma_values_total_nonneg(wl, req.subrange(0, j as int));
            }
            let value = whitelist.get_total_staked_egld(p.token_id, p.amount);
            total = total + value;
            proof {
                lemma_values_total_push(wl, req.subrange(0, j as int), p);
            }
            j += 1;
        }
        proof {
            assert(req.subrange(0, req.len() as int) =~= req);
        }
        // Commit: everything checked out.
        proof {
            lemma_edge_le_total(self.edges@, i as int);
        }
        let new_edge_total = existing_total - total;
        let new_edge = DelegationEdge {
            delegator: args.caller_id,
            total: new_edge_total,
            tokens: working,
        };
        proof {
            lemma_edges_total_update(self.edges@, i as int, new_edge);
            assert forall|d: AddressId|
                edge_of(#[trigger] self.edges@.update(i as int, new_edge), d) == if d
                    == args.caller_id {
                    Some(new_edge)
                } else {
                    edge_of(self.edges@, d)
                } by {
                lemma_edge_of_update(self.edges@, i as int, new_edge, d);
            }
        }
        self.edges.set(i, new_edge);
        self.total_delegated = self.total_delegated - total;
        if new_edge_total == 0 {
            self.remove_delegator(args.caller_id);
        }
        let out = UniquePayments::new_from_payments(args.tokens);
        Ok(out)
    }

    /// The target's currently delegated base value.
    pub fn get_total_delegated(&self) -> (r: u64)
        ensures
            r == self.total_delegated,
    {
        self.total_delegated
    }

    /// Whether `d` is currently in the delegator set.
    pub fn has_delegator(&self, d: AddressId) -> (r: bool)
        ensures
            r == self.delegators@.contains(d),
    {
        let mut i: usize = 0;
        while i < self.delegators.len()
            invariant
                i <= self.delegators.len(),
                forall|j: int| 0 <= j < i ==> self.delegators@[j] != d,
            decreases self.delegators.len() - i,
        {
            if self.delegators[i] == d {
                return true;
            }
            i += 1;
        }
        false
    }

    /// The base value delegator `d` has delegated here.
    pub fn get_edge_total(&self, d: AddressId) -> (r: u64)
        requires
            self.wf(),
        ensures
            r == edge_total(self.edges@, d),
    {
        match self.find_edge(d) {
            Some(i) => {
                proof {
                    lemma_edge_of_at(self.edges@, i as int);
                }
                self.edges[i].total
            },
            None => {
                proof {
                    lemma_edge_of_absent(self.edges@, d);
                }
                0
            },
        }
    }

    /// The amount of one asset delegator `d` has delegated here.
    pub fn get_edge_token_amount(&self, d: AddressId, token_id: u64, nonce: u64) -> (r: u64)
        requires
            self.wf(),
        ensures
            r == key_amount(edge_tokens(self.edges@, d), AssetKey { token_id, nonce }),
    {
        match self.find_edge(d) {
            Some(i) => {
                proof {
                    lemma_edge_of_at(self.edges@, i as int);
                }
                self.edges[i].tokens.get_amount(token_id, nonce)
            },
            None => {
                proof {
                    lemma_edge_of_absent(self.edges@, d);
                }
                0
            },
        }
    }

    fn find_edge(&self, d: AddressId) -> (r: Option<usize>)
        ensures
            match r {
                Some(i) => i < self.edges@.len() && self.edges@[i as int].delegator == d,
                None => forall|j: int| 0 <= j < self.edges@.len() ==> self.edges@[j].delegator != d,
            },
    {
        let mut i: usize = 0;
        while i < self.edges.len()
            invariant
                i <= self.edges.len(),
                forall|j: int| 0 <= j < i ==> self.edges@[j].delegator != d,
            decreases self.edges.len() - i,
        {
            if self.edges[i].delegator == d {
                return Some(i);
            }
            i += 1;
        }
        None
    }

    fn insert_delegator(&mut self, d: AddressId)
        requires
            forall|i: int, j: int|
                0 <= i < j < old(self).delegators@.len()
                    ==> old(self).delegators@[i] != old(self).delegators@[j],
        ensures
            final(self).delegators@.contains(d),
            forall|x: AddressId|
                x != d ==> (final(self).delegators@.contains(x)
                    <==> old(self).delegators@.contains(x)),
            forall|i: int, j: int|
                0 <= i < j < final(self).delegators@.len()
                    ==> final(self).delegators@[i] != final(self).delegators@[j],
            final(self).total_delegated == old(self).total_delegated,
            final(self).edges == old(self).edges,
    {
        let mut i: usize = 0;
        while i < self.delegators.len()
            invariant
                i <= self.delegators.len(),
                forall|j: int| 0 <= j < i ==> self.delegators@[j] != d,
                *self == *old(self),
                forall|a: int, b: int|
                    0 <= a < b < old(self).delegators@.len()
                        ==> old(self).delegators@[a] != old(self).delegators@[b],
            decreases self.delegators.len() - i,
        {
            if self.delegators[i] == d {
                proof {
                    assert(self.delegators@.contains(d));
                }
                return ;
            }
            i += 1;
        }
        self.delegators.push(d);
        proof {
            assert(self.delegators@.last() == d);
            assert(self.delegators@.contains(d));
            assert forall|a: int, b: int|
                0 <= a < b < self.delegators@.len() implies self.delegators@[a]
                != self.delegators@[b] by {
                if b == self.delegators@.len() - 1 {
                    assert(self.delegators@[a] == old(self).delegators@[a]);
                    assert(old(self).delegators@[a] != d);
                } else {
                    assert(self.delegators@[a] == old(self).delegators@[a]);
                    assert(self.delegators@[b] == old(self).delegators@[b]);
                }
            }
            assert forall|x: AddressId| x != d implies (self.delegators@.contains(x)
                <==> old(self).delegators@.contains(x)) by {
                if old(self).delegators@.contains(x) {
                    let wi = choose|wi: int|
                        0 <= wi < old(self).delegators@.len() && old(self).delegators@[wi] == x;
                    assert(self.delegators@[wi] == x);
                }
                if self.delegators@.contains(x) {
                    let wi = choose|wi: int|
                        0 <= wi < self.delegators@.len() && self.delegators@[wi] == x;
                    assert(wi < old(self).delegators@.len());
                    assert(old(self).delegators@[wi] == x);
                }
            }
        }
    }

    fn remove_delegator(&mut self, d: AddressId)
        requires
            forall|i: int, j: int|
                0 <= i < j < old(self).delegators@.len()
                    ==> old(self).delegators@[i] != old(self).delegators@[j],
        ensures
            !final(self).delegators@.contains(d),
            forall|x: AddressId|
                x != d ==> (final(self).delegators@.contains(x)
                    <==> old(self).delegators@.contains(x)),
            forall|i: int, j: int|
                0 <= i < j < final(self).delegators@.len()
                    ==> final(self).delegators@[i] != final(self).delegators@[j],
            final(self).total_delegated == old(self).total_delegated,
            final(self).edges == old(self).edges,
    {
        let mut i: usize = 0;
        while i < self.delegators.len()
            invariant
                i <= self.delegators.len(),
                forall|j: int| 0 <= j < i ==> self.delegators@[j] != d,
                *self == *old(self),
                forall|a: int, b: int|
                    0 <= a < b < old(self).delegators@.len()
                        ==> old(self).delegators@[a] != old(self).delegators@[b],
            decreases self.delegators.len() - i,
        {
            if self.delegators[i] == d {
                proof {
                    assert(old(self).delegators@[i as int] == d);
                }
                self.delegators.remove(i);
                proof {
                    let olds = old(self).delegators@;
                    assert(olds[i as int] == d);
                    assert forall|j: int| 0 <= j < self.delegators@.len() implies self.delegators@[j]
                        != d by {
                        if j < i {
                            assert(self.delegators@[j] == olds[j]);
                        } else {
                            assert(self.delegators@[j] == olds[j + 1]);
                            assert(olds[i as int] == d && i < j + 1 < olds.len());
                        }
                    }
                    assert forall|a: int, b: int|
                        0 <= a < b < self.delegators@.len() implies self.delegators@[a]
                        != self.delegators@[b] by {
                        if b < i {
                            assert(self.delegators@[a] == olds[a]);
                            assert(self.delegators@[b] == olds[b]);
                        } else if a < i {
                            assert(self.delegators@[a] == olds[a]);
                            assert(self.delegators@[b] == olds[b + 1]);
                        } else {
                            assert(self.delegators@[a] == olds[a + 1]);
                            assert(self.delegators@[b] == olds[b + 1]);
                        }
                    }
                    assert forall|x: AddressId| x != d implies (self.delegators@.contains(x) <==> olds.contains(
                        x,
                    )) by {
                        if olds.contains(x) {
                            let wi = choose|wi: int| 0 <= wi < olds.len() && olds[wi] == x;
                            if wi < i {
                                assert(self.delegators@[wi] == x);
                            } else if wi > i {
                                assert(self.delegators@[wi - 1] == x);
                            }
                        }
                        if self.delegators@.contains(x) {
                            let wi = choose|wi: int|
                                0 <= wi < self.delegators@.len() && self.delegators@[wi] == x;
                            if wi < i {
                                assert(olds[wi] == x);
                            } else {
                                assert(olds[wi + 1] == x);
                            }
                        }
                    }
                }
                return ;
            }
            i += 1;
        }
        proof {
            if self.delegators@.contains(d) {
                let wi = choose|wi: int|
                    0 <= wi < self.delegators@.len() && self.delegators@[wi] == d;
                assert(self.delegators@[wi] != d);
            }
        }
    }
}

/// Splitting a payment list splits its total base value.
pub proof fn lemma_values_total_split(
    wl: Seq<crate::token_whitelist::TokenInfo>,
    ts: Seq<Payment>,
    i: int,
)
    requires
        0 <= i <= ts.len(),
    ensures
        values_total(wl, ts.subrange(0, i)) + values_total(wl, ts.subrange(i, ts.len() as int))
            == values_total(wl, ts),
    decreases ts.len() - i,
{
    if i == ts.len() {
        assert(ts.subrange(0, i) =~= ts);
    } else {
        lemma_values_total_split(wl, ts, i + 1);
        crate::unique_payments::lemma_sub_push(ts, i);
        lemma_values_total_push(wl, ts.subrange(0, i), ts[i]);
        assert(ts.subrange(i, ts.len() as int).subrange(1, ts.len() - i) =~= ts.subrange(
            i + 1,
            ts.len() as int,
        ));
        lemma_values_head(wl, ts.subrange(i, ts.len() as int));
    }
}

proof fn lemma_values_head(wl: Seq<crate::token_whitelist::TokenInfo>, ts: Seq<Payment>)
    requires
        ts.len() > 0,
    ensures
        values_total(wl, ts) == token_value(wl, ts[0].token_id, ts[0].amount) + values_total(
            wl,
            ts.subrange(1, ts.len() as int),
        ),
    decreases ts.len(),
{
    if ts.len() == 1 {
        assert(ts.drop_last() =~= ts.subrange(1, ts.len() as int));
    } else {
        lemma_values_head(wl, ts.drop_last());
        assert(ts.drop_last().subrange(1, ts.drop_last().len() as int) =~= ts.subrange(
            1,
            ts.len() as int,
        ).drop_last());
        assert(ts.subrange(1, ts.len() as int).last() == ts.last());
        assert(ts.drop_last()[0] == ts[0]);
    }
}

/// Deducts each requested payment from the user's balance, valuing it
/// through the whitelist, and hands back the payment list together with
/// its total base value. Atomic: on failure the balance is unchanged.
pub fn before_add_delegation(
    whitelist: &TokenWhitelistModule,
    user_tokens: &mut UniquePayments,
    tokens: Vec<Payment>,
) -> (r: Result<(Vec<Payment>, u64), Error>)
    requires
        old(user_tokens).wf(),
        whitelist.wf(),
        values_total(whitelist@, tokens@) <= u64::MAX,
    ensures
        final(user_tokens).wf(),
        r is Err ==> *final(user_tokens) == *old(user_tokens),
        r is Ok <==> all_positive(tokens@) && (forall|i: int|
            0 <= i < tokens@.len() ==> crate::token_whitelist::contains_token(
                whitelist@,
                tokens@[i].token_id,
            )) && (forall|k: AssetKey|
            #[trigger] key_amount(tokens@, k) <= key_amount(old(user_tokens)@, k)),
        match r {
            Ok(out) => {
                &&& out.0@ == tokens@
                &&& out.1 == values_total(whitelist@, tokens@)
                &&& forall|k: AssetKey| #[trigger] key_amount(final(user_tokens)@, k) == key_amount(
                    old(user_tokens)@,
                    k,
                ) - key_amount(tokens@, k)
            },
            Err(e) => e == Error::ZeroAmount || e == Error::TokenNotWhitelisted || e
                == Error::InsufficientBalance,
        },
{
    let ghost wl = whitelist@;
    let ghost req = tokens@;
    let ghost orig = old(user_tokens)@;
    let mut working = user_tokens.clone();
    proof {
        assert(req.subrange(0, 0) =~= Seq::<Payment>::empty());
        assert forall|k: AssetKey| #[trigger] key_amount(req.subrange(0, 0), k) <= key_amount(
            orig,
            k,
        ) by {
            lemma_key_amount_nonneg(orig, k);
        }
    }
    let mut total: u64 = 0;
    let mut j: usize = 0;
    while j < tokens.len()
        invariant
            j <= tokens.len(),
            tokens@ == req,
            whitelist@ == wl,
            whitelist.wf(),
            working.wf(),
            *user_tokens == *old(user_tokens),
            old(user_tokens).wf(),
            orig == old(user_tokens)@,
            all_positive(req.subrange(0, j as int)),
            forall|i: int|
                0 <= i < j ==> crate::token_whitelist::contains_token(wl, req[i].token_id),
            total == values_total(wl, req.subrange(0, j as int)),
            values_total(wl, req) <= u64::MAX,
            forall|k: AssetKey| #[trigger] key_amount(working@, k) == key_amount(orig, k)
                - key_amount(req.subrange(0, j as int), k),
            forall|k: AssetKey| #[trigger] key_amount(req.subrange(0, j as int), k) <= key_amount(
                orig,
                k,
            ),
        decreases tokens.len() - j,
    {
        let p = tokens[j];
        if p.amount == 0 {
            proof {
                assert(!all_positive(req));
            }
            return Err(Error::ZeroAmount);
        }
        match whitelist.require_token_in_whitelist(p.token_id) {
            Ok(()) => {},
            Err(e) => {
                return Err(e);
            },
        }
        let deduct_result = working.deduct_payment(&p);
        if deduct_result.is_err() {
            proof {
                crate::unique_payments::lemma_sub_push(req, j as int);
                lemma_key_amount_push(req.subrange(0, j as int), p, p.key());
                lemma_key_split(req, j + 1, p.key());
                lemma_key_amount_nonneg(req.subrange(j + 1, req.len() as int), p.key());
                assert(key_amount(req, p.key()) > key_amount(orig, p.key()));
            }
            return Err(Error::InsufficientBalance);
        }
        proof {
            crate::unique_payments::lemma_sub_push(req, j as int);
            assert forall|k: AssetKey| #[trigger] key_amount(req.subrange(0, j + 1), k)
                <= key_amount(orig, k) by {
                lemma_key_amount_push(req.subrange(0, j as int), p, k);
            }
            assert forall|k: AssetKey| #[trigger] key_amount(working@, k) == key_amount(orig, k)
                - key_amount(req.subrange(0, j + 1), k) by {
                lemma_key_amount_push(req.subrange(0, j as int), p, k);
            }
            lemma_values_total_split(wl, req, j as int);
            lemma_values_total_split(wl, req, j + 1);
            lemma_values_total_push(wl, req.subrange(0, j as int), p);
            lemma_values_total_nonneg(wl, req.subrange(j + 1, req.len() as int));
            lemma_token_value_nonneg(wl, p.token_id, p.amount);
            lemma_values_total_nonneg(wl, req.subrange(0, j as int));
        }
        let value = whitelist.get_total_staked_egld(p.token_id, p.amount);
        total = total + value;
        proof {
            lemma_values_total_push(wl, req.subrange(0, j as int), p);
        }
        j += 1;
    }
    proof {
        assert(req.subrange(0, req.len() as int) =~= req);
    }
    *user_tokens = working;
    Ok((tokens, total))
}

} // verus!
