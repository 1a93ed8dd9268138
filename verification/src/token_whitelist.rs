use vstd::prelude::*;

use vstd::arithmetic::div_mod::{
    lemma_div_denominator, lemma_div_is_ordered_by_denominator, lemma_div_pos_is_pos,
};

use crate::errors::Error;

verus! {

/// The base asset's token id in this model. The base asset is valued 1:1;
/// every other whitelisted asset is valued through its configured rate.
pub const EGLD_TOKEN_ID: u64 = 0;

pub const BASE_FOR_DECIMALS: u32 = 10;

pub const DEFAULT_TOKEN_DECIMALS: usize = 18;

/// One whitelisted asset: its configured exchange rate (how much base
/// value one whole token stakes for) and an optional custom decimal
/// count.
#[derive(Clone, Copy, Debug, PartialEq, Eq, Structural)]
pub struct TokenInfo {
    pub token_id: u64,
    pub staked_egld_for_one_token: u64,
    pub opt_custom_decimals: Option<usize>,
}

/// `10^n`.
pub open spec fn pow10(n: nat) -> int
    decreases n,
{
    if n == 0 {
        1
    } else {
        10 * pow10((n - 1) as nat)
    }
}

pub proof fn lemma_pow10_pos(n: nat)
    ensures
        pow10(n) >= 1,
    decreases n,
{
    if n > 0 {
        lemma_pow10_pos((n - 1) as nat);
    }
}

pub proof fn lemma_pow10_mono(a: nat, b: nat)
    requires
        a <= b,
    ensures
        pow10(a) <= pow10(b),
    decreases b,
{
    if a < b {
        lemma_pow10_mono(a, (b - 1) as nat);
        lemma_pow10_pos((b - 1) as nat);
    }
}

/// `t` occurs in the whitelist sequence.
pub open spec fn contains_token(s: Seq<TokenInfo>, t: u64) -> bool {
    exists|i: int| 0 <= i < s.len() && s[i].token_id == t
}

/// The configured rate for `t`; zero when the token is not whitelisted.
pub open spec fn rate_of(s: Seq<TokenInfo>, t: u64) -> int
    decreases s.len(),
{
    if s.len() == 0 {
        0
    } else if s.last().token_id == t {
        s.last().staked_egld_for_one_token as int
    } else {
        rate_of(s.drop_last(), t)
    }
}

/// The decimal count for `t`: its custom count if one was configured,
/// else the default.
pub open spec fn decimals_of(s: Seq<TokenInfo>, t: u64) -> nat
    decreases s.len(),
{
    if s.len() == 0 {
        DEFAULT_TOKEN_DECIMALS as nat
    } else if s.last().token_id == t {
        match s.last().opt_custom_decimals {
            Some(d) => d as nat,
            None => DEFAULT_TOKEN_DECIMALS as nat,
        }
    } else {
        decimals_of(s.drop_last(), t)
    }
}

/// The base value of `amount` units of asset `t`: the base asset counts
/// 1:1, any other asset through its rate scaled down by its decimals.
pub open spec fn token_value(s: Seq<TokenInfo>, t: u64, amount: u64) -> int {
    if t == EGLD_TOKEN_ID {
        amount as int
    } else {
        rate_of(s, t) * amount / pow10(decimals_of(s, t))
    }
}

pub proof fn lemma_rate_of_nonneg(s: Seq<TokenInfo>, t: u64)
    ensures
        rate_of(s, t) >= 0,
    decreases s.len(),
{
    if s.len() > 0 && s.last().token_id != t {
        lemma_rate_of_nonneg(s.drop_last(), t);
    }
}

pub proof fn lemma_rate_at(s: Seq<TokenInfo>, i: int)
    requires
        forall|a: int, b: int| 0 <= a < b < s.len() ==> s[a].token_id != s[b].token_id,
        0 <= i < s.len(),
    ensures
        rate_of(s, s[i].token_id) == s[i].staked_egld_for_one_token,
        decimals_of(s, s[i].token_id) == match s[i].opt_custom_decimals {
            Some(d) => d as nat,
            None => DEFAULT_TOKEN_DECIMALS as nat,
        },
    decreases s.len(),
{
    if i < s.len() - 1 {
        lemma_rate_at(s.drop_last(), i);
    }
}

pub proof fn lemma_rate_absent(s: Seq<TokenInfo>, t: u64)
    requires
        !contains_token(s, t),
    ensures
        rate_of(s, t) == 0,
        decimals_of(s, t) == DEFAULT_TOKEN_DECIMALS as nat,
    decreases s.len(),
{
    if s.len() > 0 {
        assert(!contains_token(s.drop_last(), t)) by {
            assert forall|i: int| 0 <= i < s.len() - 1 implies s.drop_last()[i].token_id != t by {
                assert(s[i] == s.drop_last()[i]);
            }
        }
        lemma_rate_absent(s.drop_last(), t);
    }
}

/// The token whitelist together with the pricing table: which assets the
/// ledger accepts, and how each is valued in base units.
#[derive(Debug)]
pub struct TokenWhitelistModule {
    tokens: Vec<TokenInfo>,
}

impl View for TokenWhitelistModule {
    type V = Seq<TokenInfo>;

    closed spec fn view(&self) -> Seq<TokenInfo> {
        self.tokens@
    }
}

impl TokenWhitelistModule {
    /// No token id occurs twice.
    pub open spec fn wf(self) -> bool {
        forall|a: int, b: int| 0 <= a < b < self@.len() ==> self@[a].token_id != self@[b].token_id
    }

    pub fn new() -> (r: Self)
        ensures
            r.wf(),
            r@ == Seq::<TokenInfo>::empty(),
    {
        let tokens: Vec<TokenInfo> = Vec::new();
        proof {
            assert(tokens@ =~= Seq::<TokenInfo>::empty());
        }
        TokenWhitelistModule { tokens }
    }

    /// Whitelists a token with its rate and optional custom decimal count.
    /// Fails, changing nothing, when the token is already whitelisted.
    pub fn add_token_to_whitelist(
        &mut self,
        token_id: u64,
        staked_egld_for_one_token: u64,
        opt_custom_token_decimals: Option<usize>,
    ) -> (r: Result<(), Error>)
        requires
            old(self).wf(),
        ensures
            final(self).wf(),
            r is Ok <==> !contains_token(old(self)@, token_id),
            r is Err ==> *final(self) == *old(self) && r == Err::<(), Error>(
                Error::AlreadyWhitelisted,
            ),
            r is Ok ==> final(self)@ == old(self)@.push(
                TokenInfo {
                    token_id,
                    staked_egld_for_one_token,
                    opt_custom_decimals: opt_custom_token_decimals,
                },
            ),
            r is Ok ==> contains_token(final(self)@, token_id),
            r is Ok ==> rate_of(final(self)@, token_id) == staked_egld_for_one_token,
    {
        match self.index_of_token(token_id) {
            Some(_) => Err(Error::AlreadyWhitelisted),
            None => {
                let info = TokenInfo {
                    token_id,
                    staked_egld_for_one_token,
                    opt_custom_decimals: opt_custom_token_decimals,
                };
                self.tokens.push(info);
                proof {
                    assert(self@[self@.len() - 1].token_id == token_id);
                }
                Ok(())
            },
        }
    }

    /// Removes a token and its pricing data from the whitelist. Fails,
    /// changing nothing, when the token id is unknown.
    pub fn remove_token_from_whitelist(&mut self, token_id: u64) -> (r: Result<(), Error>)
        requires
            old(self).wf(),
        ensures
            final(self).wf(),
            r is Ok <==> contains_token(old(self)@, token_id),
            r is Err ==> *final(self) == *old(self) && r == Err::<(), Error>(Error::UnknownToken),
            r is Ok ==> !contains_token(final(self)@, token_id),
            r is Ok ==> final(self)@.len() == old(self)@.len() - 1,
    {
        match self.index_of_token(token_id) {
            Some(i) => {
                self.tokens.remove(i);
                proof {
                    let olds = old(self)@;
                    assert forall|j: int| 0 <= j < self@.len() implies self@[j].token_id
                        != token_id by {
                        if j < i {
                            assert(self@[j] == olds[j]);
                        } else {
                            assert(self@[j] == olds[j + 1]);
                        }
                    }
                }
                Ok(())
            },
            None => Err(Error::UnknownToken),
        }
    }

    /// The decimal count used when valuing this token: its custom count
    /// if one was configured, else the default.
    pub fn get_token_decimals(&self, token_id: u64) -> (r: usize)
        requires
            self.wf(),
        ensures
            r == decimals_of(self@, token_id),
    {
        match self.index_of_token(token_id) {
            Some(i) => {
                proof {
                    lemma_rate_at(self@, i as int);
                }
                match self.tokens[i].opt_custom_decimals {
                    Some(d) => d,
                    None => DEFAULT_TOKEN_DECIMALS,
                }
            },
            None => {
                proof {
                    lemma_rate_absent(self@, token_id);
                }
                DEFAULT_TOKEN_DECIMALS
            },
        }
    }

    pub fn is_token_whitelisted(&self, token_id: u64) -> (r: bool)
        ensures
            r == contains_token(self@, token_id),
    {
        self.index_of_token(token_id).is_some()
    }

    /// Fails with `TokenNotWhitelisted` exactly when the token is not on
    /// the whitelist.
    pub fn require_token_in_whitelist(&self, token_id: u64) -> (r: Result<(), Error>)
        ensures
            r is Ok <==> contains_token(self@, token_id),
            r is Err ==> r == Err::<(), Error>(Error::TokenNotWhitelisted),
    {
        match self.index_of_token(token_id) {
            Some(_) => Ok(()),
            None => Err(Error::TokenNotWhitelisted),
        }
    }

    /// Values `amount` units of `token_id` in base units: the base asset
    /// 1:1, other assets as `rate * amount / 10^decimals` (zero for a
    /// token without pricing data).
    pub fn get_total_staked_egld(&self, token_id: u64, amount: u64) -> (r: u64)
        requires
            self.wf(),
            token_value(self@, token_id, amount) <= u64::MAX,
        ensures
            r == token_value(self@, token_id, amount),
    {
        if token_id == EGLD_TOKEN_ID {
            return amount;
        }
        let rate = self.get_rate(token_id);
        let decimals = self.get_token_decimals(token_id);
        proof {
            assert((rate as int) * (amount as int) <= u128::MAX) by (nonlinear_arith)
                requires
                    rate <= u64::MAX,
                    amount <= u64::MAX,
            ;
        }
        let product: u128 = (rate as u128) * (amount as u128);
        let q = div_pow10(product, decimals);
        proof {
            lemma_pow10_pos(decimals as nat);
            lemma_div_pos_is_pos(product as int, pow10(decimals as nat));
        }
        q as u64
    }

    fn get_rate(&self, token_id: u64) -> (r: u64)
        requires
            self.wf(),
        ensures
            r == rate_of(self@, token_id),
    {
        match self.index_of_token(token_id) {
            Some(i) => {
                proof {
                    lemma_rate_at(self@, i as int);
                }
                self.tokens[i].staked_egld_for_one_token
            },
            None => {
                proof {
                    lemma_rate_absent(self@, token_id);
                }
                0
            },
        }
    }

    fn index_of_token(&self, token_id: u64) -> (r: Option<usize>)
        ensures
            match r {
                Some(i) => i < self@.len() && self@[i as int].token_id == token_id,
                None => !contains_token(self@, token_id),
            },
    {
        let mut i: usize = 0;
        while i < self.tokens.len()
            invariant
                i <= self.tokens.len(),
                forall|j: int| 0 <= j < i ==> self@[j].token_id != token_id,
            decreases self.tokens.len() - i,
        {
            if self.tokens[i].token_id == token_id {
                return Some(i);
            }
            i += 1;
        }
        None
    }
}

/// Floor-divides `product` by `10^decimals` without ever overflowing, by
/// dividing one decimal at a time and stopping once the quotient hits
/// zero.
fn div_pow10(product: u128, decimals: usize) -> (r: u128)
    ensures
        r == product as int / pow10(decimals as nat),
{
    let mut q: u128 = product;
    let mut j: usize = 0;
    proof {
        lemma_pow10_pos(0);
    }
    while j < decimals && q > 0
        invariant
            j <= decimals,
            q == product as int / pow10(j as nat),
        decreases decimals - j,
    {
        proof {
            lemma_pow10_pos(j as nat);
            lemma_div_denominator(product as int, pow10(j as nat), 10);
            assert(pow10((j + 1) as nat) == 10 * pow10(j as nat));
        }
        q = q / 10;
        j += 1;
    }
    proof {
        if j < decimals {
            lemma_pow10_pos(j as nat);
            lemma_pow10_pos(decimals as nat);
            lemma_pow10_mono(j as nat, decimals as nat);
            lemma_div_is_ordered_by_denominator(
                product as int,
                pow10(j as nat),
                pow10(decimals as nat),
            );
            lemma_div_pos_is_pos(product as int, pow10(decimals as nat));
        }
    }
    q
}

} // verus!
