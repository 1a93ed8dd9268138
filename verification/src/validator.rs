use vstd::prelude::*;

use crate::buffers::bytes_eq;
use crate::common_actions::TargetAccount;
use crate::errors::Error;
use crate::identity::{AddressId, IdentityRegistry, NULL_ID};

verus! {

/// Fee percentages are expressed in hundredths of a percent.
pub type Percent = u32;

pub const MAX_PERCENT: Percent = 10_000;

/// A validator's BLS public key, as raw bytes. Signature verification is
/// the host's business; the ledger only books which keys belong to whom.
pub type BlsKey = Vec<u8>;

/// `k` occurs in the key list (by content).
pub open spec fn contains_key_bytes(ks: Seq<BlsKey>, k: Seq<u8>) -> bool {
    exists|i: int| 0 <= i < ks.len() && ks[i]@ == k
}

/// No two entries of the key list share their content.
pub open spec fn keys_distinct(ks: Seq<BlsKey>) -> bool {
    forall|a: int, b: int| 0 <= a < b < ks.len() ==> ks[a]@ != ks[b]@
}

/// What the ledger records about a registered validator.
#[derive(Debug)]
pub struct ValidatorConfig {
    pub name: Vec<u8>,
    pub bls_keys: Vec<BlsKey>,
    pub fee: Percent,
    pub opt_max_delegation: Option<u64>,
}

impl ValidatorConfig {
    pub fn new(name: Vec<u8>) -> (r: Self)
        ensures
            r.name == name,
            r.bls_keys@.len() == 0,
            r.fee == 0,
            r.opt_max_delegation is None,
    {
        ValidatorConfig { name, bls_keys: Vec::new(), fee: 0, opt_max_delegation: None }
    }
}

/// Registry and per-validator accounting: each registered validator has
/// an interned handle, a config record, and a target account holding the
/// value delegated to it.
#[derive(Debug)]
pub struct ValidatorModule {
    pub validator_id: IdentityRegistry,
    pub configs: Vec<ValidatorConfig>,
    pub targets: Vec<TargetAccount>,
}

impl ValidatorModule {
    /// Handles, configs and targets line up slot for slot; names are
    /// unique and non-empty; validators are never unregistered, so every
    /// slot is live.
    pub open spec fn wf(self) -> bool {
        &&& self.validator_id.wf()
        &&& self.configs@.len() == self.validator_id@.len()
        &&& self.targets@.len() == self.validator_id@.len()
        &&& forall|i: int, j: int|
            0 <= i < j < self.configs@.len() ==> self.configs@[i].name@ != self.configs@[j].name@
        &&& forall|i: int|
            0 <= i < self.configs@.len() ==> (#[trigger] self.configs@[i]).name@.len() > 0
        &&& forall|i: int|
            0 <= i < self.configs@.len() ==> keys_distinct((#[trigger] self.configs@[i]).bls_keys@)
        &&& forall|i: int| 0 <= i < self.targets@.len() ==> (#[trigger] self.targets@[i]).wf()
    }

    pub fn new() -> (r: Self)
        ensures
            r.wf(),
            r.validator_id@.len() == 0,
    {
        ValidatorModule {
            validator_id: IdentityRegistry::new(),
            configs: Vec::new(),
            targets: Vec::new(),
        }
    }

    /// The handle registered under `name`, or the null handle.
    pub fn id_for_name(&self, name: &Vec<u8>) -> (r: AddressId)
        requires
            self.wf(),
        ensures
            r == NULL_ID ==> forall|i: int|
                0 <= i < self.configs@.len() ==> (#[trigger] self.configs@[i]).name@ != name@,
            r != NULL_ID ==> 1 <= r <= self.configs@.len() && self.configs@[r - 1].name@ == name@,
    {
        let mut i: usize = 0;
        while i < self.configs.len()
            invariant
                i <= self.configs.len(),
                forall|j: int| 0 <= j < i ==> (#[trigger] self.configs@[j]).name@ != name@,
            decreases self.configs.len() - i,
        {
            if bytes_eq(&self.configs[i].name, name) {
                return i as u64 + 1;
            }
            i += 1;
        }
        NULL_ID
    }

    /// Registers a validator under a fresh handle with an empty config.
    /// Fails when the name is empty or taken, or the caller is already
    /// registered; nothing changes then.
    pub fn register(&mut self, caller: u64, name: Vec<u8>) -> (r: Result<AddressId, Error>)
        requires
            old(self).wf(),
            old(self).validator_id@.len() + 1 < u64::MAX,
        ensures
            final(self).wf(),
            r is Err ==> *final(self) == *old(self),
            match r {
                Ok(id) => {
                    &&& name@.len() > 0
                    &&& crate::identity::absent(old(self).validator_id@, caller)
                    &&& final(self).validator_id@ == old(self).validator_id@.push(Some(caller))
                    &&& id == old(self).validator_id@.len() + 1
                    &&& final(self).configs@.len() == old(self).configs@.len() + 1
                    &&& final(self).configs@[id - 1].name@ == name@
                    &&& final(self).configs@[id - 1].fee == 0
                    &&& final(self).configs@[id - 1].bls_keys@.len() == 0
                    &&& final(self).configs@[id - 1].opt_max_delegation is None
                    &&& final(self).targets@.len() == old(self).targets@.len() + 1
                    &&& forall|j: int|
                        0 <= j < old(self).targets@.len() ==> final(self).targets@[j] == old(self).targets@[j]
                    &&& final(self).targets@[id - 1].total_delegated == 0
                    &&& final(self).targets@[id - 1].edges@.len() == 0
                    &&& final(self).targets@[id - 1].delegators@.len() == 0
                },
                Err(e) => {
                    &&& (e == Error::EmptyName ==> name@.len() == 0)
                    &&& (e == Error::AlreadyRegistered ==> !crate::identity::absent(
                        old(self).validator_id@,
                        caller,
                    ))
                    &&& (e == Error::NameAlreadyTaken ==> exists|i: int|
                        0 <= i < old(self).configs@.len() && (
                        #[trigger] old(self).configs@[i]).name@ == name@)
                    &&& (e == Error::EmptyName || e == Error::AlreadyRegistered || e
                        == Error::NameAlreadyTaken)
                },
            },
    {
        if name.len() == 0 {
            return Err(Error::EmptyName);
        }
        let existing_for_name = self.id_for_name(&name);
        if existing_for_name != NULL_ID {
            return Err(Error::NameAlreadyTaken);
        }
        match self.validator_id.insert_new(caller) {
            Ok(id) => {
                self.configs.push(ValidatorConfig::new(name));
                self.targets.push(TargetAccount::new());
                Ok(id)
            },
            Err(e) => Err(e),
        }
    }

    /// Books already host-verified BLS keys for the calling validator,
    /// refusing a batch in which any key is already known or repeated.
    /// Atomic: on failure nothing changes.
    pub fn add_keys(&mut self, caller: u64, keys: Vec<BlsKey>) -> (r: Result<(), Error>)
        requires
            old(self).wf(),
        ensures
            final(self).wf(),
            r is Err ==> final(self).validator_id == old(self).validator_id && final(self).targets
                == old(self).targets && final(self).configs@ == old(self).configs@,
            crate::identity::absent(old(self).validator_id@, caller) <==> r == Err::<(), Error>(
                Error::UnknownAddress,
            ),
            forall|id: AddressId|
                1 <= id <= old(self).validator_id@.len() && old(self).validator_id@[id - 1]
                    == Some(caller) ==> {
                    &&& (r is Ok <==> batch_ok(
                        (#[trigger] old(self).configs@[id - 1]).bls_keys@,
                        keys@,
                    ))
                    &&& (r is Ok ==> final(self).configs@[id - 1].bls_keys@ == old(self).configs@[id - 1].bls_keys@ + keys@)
                    &&& (r is Ok ==> final(self).configs@[id - 1].name == old(self).configs@[id
                        - 1].name && final(self).configs@[id - 1].fee == old(self).configs@[id
                        - 1].fee && final(self).configs@[id - 1].opt_max_delegation == old(self).configs@[id - 1].opt_max_delegation)
                    &&& (r is Ok ==> forall|j: int|
                        0 <= j < old(self).configs@.len() && j != id - 1 ==> final(self).configs@[j]
                            == old(self).configs@[j])
                    &&& (r is Ok ==> final(self).validator_id == old(self).validator_id && final(self).targets == old(self).targets)
                    &&& (r is Err ==> r == Err::<(), Error>(Error::KeyAlreadyKnown))
                },
    {
        let n = self.configs.len();
        let id = match self.validator_id.get_id_non_zero(caller) {
            Ok(id) => id,
            Err(e) => {
                return Err(e);
            },
        };
        proof {
            assert(1 <= id <= n as u64);
            assert forall|i2: int|
                0 <= i2 < self.validator_id@.len() && self.validator_id@[i2] == Some(caller) implies i2 == id
                - 1 by {
                crate::identity::lemma_slot_unique(self.validator_id@, caller, i2, id - 1);
            }
        }
        let idx = (id - 1) as usize;
        let ghost existing = self.configs@[id - 1].bls_keys@;
        // Check pass: refuse the whole batch if any key collides.
        let mut j: usize = 0;
        while j < keys.len()
            invariant
                j <= keys.len(),
                idx == id - 1,
                1 <= id <= self.configs@.len(),
                old(self).validator_id@[id - 1] == Some(caller),
                id <= old(self).validator_id@.len(),
                forall|i2: int|
                    0 <= i2 < old(self).validator_id@.len() && old(self).validator_id@[i2]
                        == Some(caller) ==> i2 == id - 1,

                existing == self.configs@[id - 1].bls_keys@,
                *self == *old(self),
                self.wf(),
                forall|a: int| 0 <= a < j ==> !contains_key_bytes(existing, (#[trigger] keys@[a])@),
                forall|a: int, b: int| 0 <= a < b < j ==> keys@[a]@ != keys@[b]@,
            decreases keys.len() - j,
        {
            if keys_contain(&self.configs[idx].bls_keys, &keys[j]) {
                proof {
                    assert(contains_key_bytes(existing, keys@[j as int]@));
                    assert(!batch_ok(existing, keys@));
                }
                return Err(Error::KeyAlreadyKnown);
            }
            let mut b: usize = 0;
            while b < j
                invariant
                    b <= j < keys@.len(),
                    idx == id - 1,
                    1 <= id <= self.configs@.len(),
                    old(self).validator_id@[id - 1] == Some(caller),
                    id <= old(self).validator_id@.len(),
                    forall|i2: int|
                        0 <= i2 < old(self).validator_id@.len() && old(self).validator_id@[i2]
                            == Some(caller) ==> i2 == id - 1,
                    existing == self.configs@[id - 1].bls_keys@,
                    *self == *old(self),
                    self.wf(),
                    forall|a: int| 0 <= a < j ==> !contains_key_bytes(
                        existing,
                        (#[trigger] keys@[a])@,
                    ),
                    forall|a0: int, b0: int| 0 <= a0 < b0 < j ==> keys@[a0]@ != keys@[b0]@,
                    forall|a: int| 0 <= a < b ==> keys@[a]@ != keys@[j as int]@,
                decreases j - b,
            {
                if bytes_eq(&keys[b], &keys[j]) {
                    proof {
                        assert(keys@[b as int]@ == keys@[j as int]@);
                        assert(!batch_ok(existing, keys@));
                    }
                    return Err(Error::KeyAlreadyKnown);
                }
                b += 1;
            }
            j += 1;
        }
        // Append pass: the batch is clean, move every key in.
        let mut config = self.configs.remove(idx);
        let mut keys = keys;
        let ghost incoming = keys@;
        let ghost mut moved: int = 0;
        while keys.len() > 0
            invariant
                0 <= moved <= incoming.len(),
                keys@ =~= incoming.subrange(moved, incoming.len() as int),
                config.bls_keys@ == existing + incoming.subrange(0, moved),
                config.name == old(self).configs@[id - 1].name,
                config.fee == old(self).configs@[id - 1].fee,
                config.opt_max_delegation == old(self).configs@[id - 1].opt_max_delegation,
            decreases keys.len(),
        {
            let k = keys.remove(0);
            proof {
                assert(k == incoming[moved]);
                assert(keys@ =~= incoming.subrange(moved + 1, incoming.len() as int));
                assert((existing + incoming.subrange(0, moved)).push(incoming[moved]) =~= existing
                    + incoming.subrange(0, moved + 1));
            }
            config.bls_keys.push(k);
            proof {
                moved = moved + 1;
            }
        }
        proof {
            assert(incoming.subrange(0, incoming.len() as int) =~= incoming);
            assert(keys_distinct(config.bls_keys@)) by {
                assert forall|a: int, b: int|
                    0 <= a < b < config.bls_keys@.len() implies config.bls_keys@[a]@
                    != config.bls_keys@[b]@ by {
                    if b >= existing.len() {
                        if a < existing.len() {
                            assert(!contains_key_bytes(
                                existing,
                                incoming[b - existing.len() as int]@,
                            ));
                            assert(existing[a]@ != incoming[b - existing.len() as int]@);
                        } else {
                            assert(incoming[a - existing.len() as int]@ != incoming[b
                                - existing.len() as int]@);
                        }
                    } else {
                        assert(existing[a]@ != existing[b]@);
                    }
                }
            }
        }
        self.configs.insert(idx, config);
        proof {
            lemma_remove_insert_is_update(old(self).configs@, self.configs@, id - 1);
            lemma_wf_after_config_update(*old(self), *self, id - 1);
        }
        Ok(())
    }

    /// Drops booked BLS keys from the calling validator's config; every
    /// requested key must be present, and no key may be requested twice.
    /// Atomic: on failure nothing changes.
    pub fn remove_keys(&mut self, caller: u64, keys: Vec<BlsKey>) -> (r: Result<(), Error>)
        requires
            old(self).wf(),
        ensures
            final(self).wf(),
            r is Err ==> final(self).validator_id == old(self).validator_id && final(self).targets
                == old(self).targets && final(self).configs@ == old(self).configs@,
            crate::identity::absent(old(self).validator_id@, caller) <==> r == Err::<(), Error>(
                Error::UnknownAddress,
            ),
            forall|id: AddressId|
                1 <= id <= old(self).validator_id@.len() && old(self).validator_id@[id - 1]
                    == Some(caller) ==> {
                    &&& (r is Ok <==> batch_removable(
                        (#[trigger] old(self).configs@[id - 1]).bls_keys@,
                        keys@,
                    ))
                    &&& (r is Ok ==> forall|x: Seq<u8>|
                        #[trigger] contains_key_bytes(final(self).configs@[id - 1].bls_keys@, x)
                            <==> (contains_key_bytes(old(self).configs@[id - 1].bls_keys@, x)
                            && !contains_key_bytes(keys@, x)))
                    &&& (r is Ok ==> forall|j: int|
                        0 <= j < old(self).configs@.len() && j != id - 1 ==> final(self).configs@[j]
                            == old(self).configs@[j])
                    &&& (r is Ok ==> final(self).validator_id == old(self).validator_id && final(self).targets == old(self).targets)
                    &&& (r is Err ==> r == Err::<(), Error>(Error::KeyNotFound))
                },
    {
        let n = self.configs.len();
        let id = match self.validator_id.get_id_non_zero(caller) {
            Ok(id) => id,
            Err(e) => {
                return Err(e);
            },
        };
        proof {
            assert(1 <= id <= n as u64);
            assert forall|i2: int|
                0 <= i2 < self.validator_id@.len() && self.validator_id@[i2] == Some(caller) implies i2 == id
                - 1 by {
                crate::identity::lemma_slot_unique(self.validator_id@, caller, i2, id - 1);
            }
        }
        let idx = (id - 1) as usize;
        let ghost existing = self.configs@[id - 1].bls_keys@;
        // Check pass.
        let mut j: usize = 0;
        while j < keys.len()
            invariant
                j <= keys.len(),
                idx == id - 1,
                1 <= id <= self.configs@.len(),
                old(self).validator_id@[id - 1] == Some(caller),
                id <= old(self).validator_id@.len(),
                forall|i2: int|
                    0 <= i2 < old(self).validator_id@.len() && old(self).validator_id@[i2]
                        == Some(caller) ==> i2 == id - 1,

                existing == self.configs@[id - 1].bls_keys@,
                *self == *old(self),
                self.wf(),
                forall|a: int| 0 <= a < j ==> contains_key_bytes(existing, (#[trigger] keys@[a])@),
                forall|a: int, b: int| 0 <= a < b < j ==> keys@[a]@ != keys@[b]@,
            decreases keys.len() - j,
        {
            if !keys_contain(&self.configs[idx].bls_keys, &keys[j]) {
                proof {
                    assert(!contains_key_bytes(existing, keys@[j as int]@));
                    assert(!batch_removable(existing, keys@));
                }
                return Err(Error::KeyNotFound);
            }
            let mut b: usize = 0;
            while b < j
                invariant
                    b <= j < keys@.len(),
                    idx == id - 1,
                    1 <= id <= self.configs@.len(),
                    old(self).validator_id@[id - 1] == Some(caller),
                    id <= old(self).validator_id@.len(),
                    forall|i2: int|
                        0 <= i2 < old(self).validator_id@.len() && old(self).validator_id@[i2]
                            == Some(caller) ==> i2 == id - 1,
                    existing == self.configs@[id - 1].bls_keys@,
                    *self == *old(self),
                    self.wf(),
                    forall|a: int| 0 <= a < j ==> contains_key_bytes(
                        existing,
                        (#[trigger] keys@[a])@,
                    ),
                    forall|a0: int, b0: int| 0 <= a0 < b0 < j ==> keys@[a0]@ != keys@[b0]@,
                    forall|a: int| 0 <= a < b ==> keys@[a]@ != keys@[j as int]@,
                decreases j - b,
            {
                if bytes_eq(&keys[b], &keys[j]) {
                    proof {
                        assert(keys@[b as int]@ == keys@[j as int]@);
                        assert(!batch_removable(existing, keys@));
                    }
                    return Err(Error::KeyNotFound);
                }
                b += 1;
            }
            j += 1;
        }
        // Removal pass: drop each requested key from the working config.
        // The config's own key list is duplicate-free, since every key
        // entered through a checked batch.
        let mut config = self.configs.remove(idx);
        let mut j: usize = 0;
        while j < keys.len()
            invariant
                j <= keys.len(),
                forall|a: int, b: int|
                    0 <= a < b < config.bls_keys@.len() ==> config.bls_keys@[a]@
                        != config.bls_keys@[b]@,
                idx == id - 1,
                1 <= id <= old(self).configs@.len(),
                old(self).validator_id@[id - 1] == Some(caller),
                id <= old(self).validator_id@.len(),
                forall|i2: int|
                    0 <= i2 < old(self).validator_id@.len() && old(self).validator_id@[i2]
                        == Some(caller) ==> i2 == id - 1,
                forall|x: Seq<u8>| #[trigger] contains_key_bytes(config.bls_keys@, x) <==> (
                contains_key_bytes(existing, x) && !contains_key_bytes(
                    keys@.subrange(0, j as int),
                    x,
                )),
                forall|a: int| 0 <= a < keys@.len() ==> contains_key_bytes(
                    existing,
                    (#[trigger] keys@[a])@,
                ),
                forall|a: int, b: int| 0 <= a < b < keys@.len() ==> keys@[a]@ != keys@[b]@,
                config.name == old(self).configs@[id - 1].name,
                config.fee == old(self).configs@[id - 1].fee,
                config.opt_max_delegation == old(self).configs@[id - 1].opt_max_delegation,
            decreases keys.len() - j,
        {
            let pos = find_key(&config.bls_keys, &keys[j]);
            match pos {
                Some(p) => {
                    let ghost before = config.bls_keys@;
                    config.bls_keys.remove(p);
                    proof {
                        lemma_key_remove_contains(before, p as int);
                        assert(keys@.subrange(0, j + 1) =~= keys@.subrange(0, j as int).push(
                            keys@[j as int],
                        ));
                        assert forall|x: Seq<u8>|
                            #[trigger] contains_key_bytes(config.bls_keys@, x) <==> (
                        contains_key_bytes(existing, x) && !contains_key_bytes(
                            keys@.subrange(0, j + 1),
                            x,
                        )) by {
                            lemma_contains_push(keys@.subrange(0, j as int), keys@[j as int], x);
                            assert(keys@[j as int]@ == before[p as int]@);
                        }
                    }
                },
                None => {
                    proof {
                        assert(contains_key_bytes(existing, keys@[j as int]@));
                        assert(!contains_key_bytes(keys@.subrange(0, j as int), keys@[j as int]@))
                            by {
                            if contains_key_bytes(keys@.subrange(0, j as int), keys@[j as int]@) {
                                let w = choose|w: int|
                                    0 <= w < j && keys@.subrange(0, j as int)[w]@
                                        == keys@[j as int]@;
                                assert(keys@[w]@ == keys@[j as int]@);
                            }
                        }
                        assert(contains_key_bytes(config.bls_keys@, keys@[j as int]@));
                        let w = choose|w: int|
                            0 <= w < config.bls_keys@.len() && config.bls_keys@[w]@
                                == keys@[j as int]@;
                        assert(false);
                    }
                },
            }
            j += 1;
        }
        proof {
            assert(keys@.subrange(0, keys@.len() as int) =~= keys@);
        }
        self.configs.insert(idx, config);
        proof {
            lemma_remove_insert_is_update(old(self).configs@, self.configs@, id - 1);
            lemma_wf_after_config_update(*old(self), *self, id - 1);
        }
        Ok(())
    }

    /// Sets the calling validator's fee, capped at the maximum percent.
    pub fn set_up_fee(&mut self, caller: u64, fee: Percent) -> (r: Result<(), Error>)
        requires
            old(self).wf(),
        ensures
            final(self).wf(),
            r is Err ==> final(self).validator_id == old(self).validator_id && final(self).targets
                == old(self).targets && final(self).configs@ == old(self).configs@,
            fee > MAX_PERCENT <==> r == Err::<(), Error>(Error::InvalidFee),
            (fee <= MAX_PERCENT && crate::identity::absent(old(self).validator_id@, caller)) <==> r
                == Err::<(), Error>(Error::UnknownAddress),
            r is Ok <==> (fee <= MAX_PERCENT && !crate::identity::absent(
                old(self).validator_id@,
                caller,
            )),
            forall|id: AddressId|
                1 <= id <= old(self).validator_id@.len() && old(self).validator_id@[id - 1]
                    == Some(caller) && r is Ok ==> {
                    &&& (#[trigger] final(self).configs@[id - 1]).fee == fee
                    &&& final(self).configs@[id - 1].name == old(self).configs@[id - 1].name
                    &&& final(self).configs@[id - 1].bls_keys == old(self).configs@[id - 1].bls_keys
                    &&& final(self).configs@[id - 1].opt_max_delegation == old(self).configs@[id
                        - 1].opt_max_delegation
                    &&& forall|j: int|
                        0 <= j < old(self).configs@.len() && j != id - 1 ==> final(self).configs@[j]
                            == old(self).configs@[j]
                    &&& final(self).validator_id == old(self).validator_id && final(self).targets
                        == old(self).targets
                },
    {
        if fee > MAX_PERCENT {
            return Err(Error::InvalidFee);
        }
        let n = self.configs.len();
        let id = match self.validator_id.get_id_non_zero(caller) {
            Ok(id) => id,
            Err(e) => {
                return Err(e);
            },
        };
        proof {
            assert(1 <= id <= n as u64);
            assert forall|i2: int|
                0 <= i2 < self.validator_id@.len() && self.validator_id@[i2] == Some(caller) implies i2 == id
                - 1 by {
                crate::identity::lemma_slot_unique(self.validator_id@, caller, i2, id - 1);
            }
        }
        let idx = (id - 1) as usize;
        let config = self.configs.remove(idx);
        let new_config = ValidatorConfig {
            name: config.name,
            bls_keys: config.bls_keys,
            fee,
            opt_max_delegation: config.opt_max_delegation,
        };
        self.configs.insert(idx, new_config);
        proof {
            lemma_remove_insert_is_update(old(self).configs@, self.configs@, id - 1);
            lemma_wf_after_config_update(*old(self), *self, id - 1);
        }
        Ok(())
    }

    /// Tightens (or first sets) the validator's delegation cap; the cap
    /// can never fall below what is already delegated.
    pub fn set_max_delegation(&mut self, caller: u64, max_delegation: u64) -> (r: Result<(), Error>)
        requires
            old(self).wf(),
        ensures
            final(self).wf(),
            r is Err ==> final(self).validator_id == old(self).validator_id && final(self).targets
                == old(self).targets && final(self).configs@ == old(self).configs@,
            crate::identity::absent(old(self).validator_id@, caller) <==> r == Err::<(), Error>(
                Error::UnknownAddress,
            ),
            forall|id: AddressId|
                1 <= id <= old(self).validator_id@.len() && old(self).validator_id@[id - 1]
                    == Some(caller) ==> {
                    &&& (r is Ok <==> max_delegation >= (#[trigger] old(self).targets@[
                        id - 1
                    ]).total_delegated)
                    &&& (r is Ok ==> final(self).configs@[id - 1].opt_max_delegation == Some(
                        max_delegation,
                    ))
                    &&& (r is Ok ==> final(self).configs@[id - 1].name == old(self).configs@[id
                        - 1].name && final(self).configs@[id - 1].fee == old(self).configs@[id
                        - 1].fee && final(self).configs@[id - 1].bls_keys == old(self).configs@[id
                        - 1].bls_keys)
                    &&& (r is Ok ==> forall|j: int|
                        0 <= j < old(self).configs@.len() && j != id - 1 ==> final(self).configs@[j]
                            == old(self).configs@[j])
                    &&& (r is Ok ==> final(self).validator_id == old(self).validator_id && final(self).targets == old(self).targets)
                    &&& (r is Err ==> r == Err::<(), Error>(Error::CapBelowCurrent))
                },
    {
        let n = self.configs.len();
        let id = match self.validator_id.get_id_non_zero(caller) {
            Ok(id) => id,
            Err(e) => {
                return Err(e);
            },
        };
        proof {
            assert(1 <= id <= n as u64);
            assert forall|i2: int|
                0 <= i2 < self.validator_id@.len() && self.validator_id@[i2] == Some(caller) implies i2 == id
                - 1 by {
                crate::identity::lemma_slot_unique(self.validator_id@, caller, i2, id - 1);
            }
        }
        let idx = (id - 1) as usize;
        let current_total = self.targets[idx].total_delegated;
        if max_delegation < current_total {
            return Err(Error::CapBelowCurrent);
        }
        let config = self.configs.remove(idx);
        let new_config = ValidatorConfig {
            name: config.name,
            bls_keys: config.bls_keys,
            fee: config.fee,
            opt_max_delegation: Some(max_delegation),
        };
        self.configs.insert(idx, new_config);
        proof {
            lemma_remove_insert_is_update(old(self).configs@, self.configs@, id - 1);
            lemma_wf_after_config_update(*old(self), *self, id - 1);
        }
        Ok(())
    }

    /// The config of a registered validator.
    pub fn get_validator_config(&self, address: u64) -> (r: Result<&ValidatorConfig, Error>)
        requires
            self.wf(),
        ensures
            r is Err <==> crate::identity::absent(self.validator_id@, address),
            r is Err ==> r == Err::<&ValidatorConfig, Error>(Error::UnknownAddress),
            forall|id: AddressId|
                1 <= id <= self.validator_id@.len() && self.validator_id@[id - 1] == Some(address)
                    && r is Ok ==> #[trigger] self.configs@[id - 1] == *r.unwrap(),
    {
        let n = self.configs.len();
        let id = match self.validator_id.get_id_non_zero(address) {
            Ok(id) => id,
            Err(e) => {
                return Err(e);
            },
        };
        proof {
            assert(1 <= id <= n as u64);
            assert forall|i2: int|
                0 <= i2 < self.validator_id@.len() && self.validator_id@[i2] == Some(address) implies i2 == id
                - 1 by {
                crate::identity::lemma_slot_unique(self.validator_id@, address, i2, id - 1);
            }
        }
        let idx = (id - 1) as usize;
        Ok(&self.configs[idx])
    }

    /// The total base value currently delegated to a registered validator.
    pub fn get_total_delegated_amount(&self, address: u64) -> (r: Result<u64, Error>)
        requires
            self.wf(),
        ensures
            r is Err <==> crate::identity::absent(self.validator_id@, address),
            r is Err ==> r == Err::<u64, Error>(Error::UnknownAddress),
            forall|id: AddressId|
                1 <= id <= self.validator_id@.len() && self.validator_id@[id - 1] == Some(address)
                    && r is Ok ==> #[trigger] self.targets@[id - 1].total_delegated == r.unwrap(),
    {
        let n = self.targets.len();
        let id = match self.validator_id.get_id_non_zero(address) {
            Ok(id) => id,
            Err(e) => {
                return Err(e);
            },
        };
        proof {
            assert(1 <= id <= n as u64);
            assert forall|i2: int|
                0 <= i2 < self.validator_id@.len() && self.validator_id@[i2] == Some(address) implies i2 == id
                - 1 by {
                crate::identity::lemma_slot_unique(self.validator_id@, address, i2, id - 1);
            }
        }
        let idx = (id - 1) as usize;
        Ok(self.targets[idx].total_delegated)
    }
}

/// A config list update that keeps the slot's name and key uniqueness
/// preserves the module invariant.
proof fn lemma_wf_after_config_update(pre: ValidatorModule, post: ValidatorModule, i: int)
    requires
        pre.wf(),
        post.validator_id == pre.validator_id,
        post.targets == pre.targets,
        post.configs@.len() == pre.configs@.len(),
        0 <= i < pre.configs@.len(),
        forall|j: int| 0 <= j < post.configs@.len() && j != i ==> post.configs@[j] == pre.configs@[j],
        post.configs@[i].name == pre.configs@[i].name,
        keys_distinct(post.configs@[i].bls_keys@),
    ensures
        post.wf(),
{
    assert forall|a: int, b: int|
        0 <= a < b < post.configs@.len() implies post.configs@[a].name@
        != post.configs@[b].name@ by {
        assert(pre.configs@[a].name@ != pre.configs@[b].name@);
    }
    assert forall|a: int|
        0 <= a < post.configs@.len() implies (#[trigger] post.configs@[a]).name@.len() > 0 by {
        assert(pre.configs@[a].name@.len() > 0);
    }
    assert forall|a: int|
        0 <= a < post.configs@.len() implies keys_distinct(
        (#[trigger] post.configs@[a]).bls_keys@,
    ) by {
        if a != i {
            assert(keys_distinct(pre.configs@[a].bls_keys@));
        }
    }
}

/// A removable key batch: every requested key is present, and no key is
/// requested twice.
pub open spec fn batch_removable(existing: Seq<BlsKey>, requested: Seq<BlsKey>) -> bool {
    &&& forall|a: int|
        0 <= a < requested.len() ==> contains_key_bytes(existing, (#[trigger] requested[a])@)
    &&& forall|a: int, b: int| 0 <= a < b < requested.len() ==> requested[a]@ != requested[b]@
}

/// A clean key batch: no incoming key is already known, and no two
/// incoming keys coincide.
pub open spec fn batch_ok(existing: Seq<BlsKey>, incoming: Seq<BlsKey>) -> bool {
    &&& forall|a: int|
        0 <= a < incoming.len() ==> !contains_key_bytes(existing, (#[trigger] incoming[a])@)
    &&& forall|a: int, b: int| 0 <= a < b < incoming.len() ==> incoming[a]@ != incoming[b]@
}

/// Whether the key list holds `k`, by content.
fn keys_contain(ks: &Vec<BlsKey>, k: &Vec<u8>) -> (r: bool)
    ensures
        r == contains_key_bytes(ks@, k@),
{
    find_key(ks, k).is_some()
}

/// The index of `k` in the key list, by content.
fn find_key(ks: &Vec<BlsKey>, k: &Vec<u8>) -> (r: Option<usize>)
    ensures
        match r {
            Some(i) => i < ks@.len() && ks@[i as int]@ == k@,
            None => !contains_key_bytes(ks@, k@),
        },
{
    let mut i: usize = 0;
    while i < ks.len()
        invariant
            i <= ks.len(),
            forall|j: int| 0 <= j < i ==> ks@[j]@ != k@,
        decreases ks.len() - i,
    {
        if bytes_eq(&ks[i], k) {
            return Some(i);
        }
        i += 1;
    }
    proof {
        if contains_key_bytes(ks@, k@) {
            let w = choose|w: int| 0 <= w < ks@.len() && ks@[w]@ == k@;
            assert(ks@[w]@ != k@);
        }
    }
    None
}

/// Removing and re-inserting at one position leaves an update.
proof fn lemma_remove_insert_is_update(olds: Seq<ValidatorConfig>, news: Seq<ValidatorConfig>, i: int)
    requires
        0 <= i < olds.len(),
        news.len() == olds.len(),
        news == olds.remove(i).insert(i, news[i]),
    ensures
        forall|j: int| 0 <= j < news.len() && j != i ==> news[j] == olds[j],
{
    assert forall|j: int| 0 <= j < news.len() && j != i implies news[j] == olds[j] by {
        if j < i {
            assert(news[j] == olds.remove(i).insert(i, news[i])[j]);
            assert(olds.remove(i).insert(i, news[i])[j] == olds.remove(i)[j]);
        } else {
            assert(news[j] == olds.remove(i)[j - 1]);
        }
    }
}

/// Removing one entry removes exactly its content from the member set of
/// a duplicate-free key list.
proof fn lemma_key_remove_contains(ks: Seq<BlsKey>, p: int)
    requires
        0 <= p < ks.len(),
        forall|a: int, b: int| 0 <= a < b < ks.len() ==> ks[a]@ != ks[b]@,
    ensures
        forall|x: Seq<u8>| #[trigger] contains_key_bytes(ks.remove(p), x) <==> (contains_key_bytes(
            ks,
            x,
        ) && x != ks[p]@),
        forall|a: int, b: int| 0 <= a < b < ks.remove(p).len() ==> ks.remove(p)[a]@ != ks.remove(
            p,
        )[b]@,
{
    let rem = ks.remove(p);
    assert forall|x: Seq<u8>| #[trigger] contains_key_bytes(rem, x) <==> (contains_key_bytes(ks, x)
        && x != ks[p]@) by {
        if contains_key_bytes(rem, x) {
            let w = choose|w: int| 0 <= w < rem.len() && rem[w]@ == x;
            if w < p {
                assert(ks[w]@ == x);
            } else {
                assert(ks[w + 1]@ == x);
            }
        }
        if contains_key_bytes(ks, x) && x != ks[p]@ {
            let w = choose|w: int| 0 <= w < ks.len() && ks[w]@ == x;
            if w < p {
                assert(rem[w]@ == x);
            } else {
                assert(w > p);
                assert(rem[w - 1]@ == x);
            }
        }
    }
    assert forall|a: int, b: int| 0 <= a < b < rem.len() implies rem[a]@ != rem[b]@ by {
        if b < p {
        } else if a < p {
            assert(rem[a] == ks[a]);
            assert(rem[b] == ks[b + 1]);
        } else {
            assert(rem[a] == ks[a + 1]);
            assert(rem[b] == ks[b + 1]);
        }
    }
}

/// Appending an entry adds exactly its content to the member set.
proof fn lemma_contains_push(ks: Seq<BlsKey>, k: BlsKey, x: Seq<u8>)
    ensures
        contains_key_bytes(ks.push(k), x) <==> (contains_key_bytes(ks, x) || x == k@),
{
    if contains_key_bytes(ks.push(k), x) {
        let w = choose|w: int| 0 <= w < ks.push(k).len() && ks.push(k)[w]@ == x;
        if w < ks.len() {
            assert(ks[w]@ == x);
        }
    }
    if contains_key_bytes(ks, x) {
        let w = choose|w: int| 0 <= w < ks.len() && ks[w]@ == x;
        assert(ks.push(k)[w]@ == x);
    }
    if x == k@ {
        assert(ks.push(k)[ks.len() as int]@ == x);
    }
}

} // verus!
