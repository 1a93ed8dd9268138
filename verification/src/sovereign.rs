use vstd::prelude::*;

use crate::buffers::bytes_eq;
use crate::common_actions::TargetAccount;
use crate::errors::Error;
use crate::identity::{AddressId, IdentityRegistry, NULL_ID};

verus! {

/// The clock's coarse time unit, used for unbond maturity and
/// rate-limiting checks.
pub type Epoch = u64;

/// What the ledger records about a registered sovereign chain.
#[derive(Debug)]
pub struct SovereignInfo {
    pub name: Vec<u8>,
    pub description: Vec<u8>,
    pub opt_max_restaking_cap: Option<u64>,
}

impl SovereignInfo {
    pub fn new(name: Vec<u8>, description: Vec<u8>) -> (r: Self)
        ensures
            r.name == name,
            r.description == description,
            r.opt_max_restaking_cap is None,
    {
        SovereignInfo { name, description, opt_max_restaking_cap: Option::None }
    }
}

/// The slot whose live info carries `name`, or `-1` when no live chain
/// has it.
pub open spec fn sov_name_slot(infos: Seq<Option<SovereignInfo>>, name: Seq<u8>) -> int
    decreases infos.len(),
{
    if infos.len() == 0 {
        -1
    } else if infos.last() is Some && infos.last().unwrap().name@ == name {
        infos.len() - 1
    } else {
        sov_name_slot(infos.drop_last(), name)
    }
}

pub proof fn lemma_sov_name_slot(infos: Seq<Option<SovereignInfo>>, name: Seq<u8>)
    ensures
        sov_name_slot(infos, name) == -1 ==> forall|i: int|
            0 <= i < infos.len() && infos[i] is Some ==> (#[trigger] infos[i]).unwrap().name@
                != name,
        sov_name_slot(infos, name) != -1 ==> {
            &&& 0 <= sov_name_slot(infos, name) < infos.len()
            &&& infos[sov_name_slot(infos, name)] is Some
            &&& infos[sov_name_slot(infos, name)].unwrap().name@ == name
        },
    decreases infos.len(),
{
    if infos.len() > 0 {
        lemma_sov_name_slot(infos.drop_last(), name);
        if !(infos.last() is Some && infos.last().unwrap().name@ == name) {
            if sov_name_slot(infos.drop_last(), name) == -1 {
                assert forall|i: int|
                    0 <= i < infos.len() && infos[i] is Some implies (
                #[trigger] infos[i]).unwrap().name@ != name by {
                    if i < infos.len() - 1 {
                        assert(infos.drop_last()[i] == infos[i]);
                    }
                }
            } else {
                assert(infos[sov_name_slot(infos, name)] == infos.drop_last()[sov_name_slot(
                    infos,
                    name,
                )]);
            }
        }
    }
}

/// Under name uniqueness, any live slot carrying `name` is the one
/// `sov_name_slot` names.
pub proof fn lemma_sov_name_slot_unique(infos: Seq<Option<SovereignInfo>>, name: Seq<u8>, i: int)
    requires
        forall|a: int, b: int|
            0 <= a < b < infos.len() && infos[a] is Some && infos[b] is Some ==> infos[a].unwrap().name@
                != infos[b].unwrap().name@,
        0 <= i < infos.len(),
        infos[i] is Some,
        infos[i].unwrap().name@ == name,
    ensures
        sov_name_slot(infos, name) == i,
{
    lemma_sov_name_slot(infos, name);
    let s = sov_name_slot(infos, name);
    if s != i {
        if s < i {
            assert(infos[s].unwrap().name@ != infos[i].unwrap().name@);
        } else {
            assert(infos[i].unwrap().name@ != infos[s].unwrap().name@);
        }
    }
}

/// Registry and per-chain accounting for sovereign chains: each
/// registered chain has an interned handle, its info record, and a
/// target account holding the security funds delegated to it.
#[derive(Debug)]
pub struct SovereignModule {
    pub sov_id: IdentityRegistry,
    pub infos: Vec<Option<SovereignInfo>>,
    pub targets: Vec<TargetAccount>,
}

/// Removing and re-inserting at one position leaves a pointwise update.
proof fn lemma_info_remove_insert(olds: Seq<Option<SovereignInfo>>, news: Seq<Option<SovereignInfo>>, i: int)
    requires
        0 <= i < olds.len(),
        news.len() == olds.len(),
        news == olds.remove(i).insert(i, news[i]),
    ensures
        forall|j: int| 0 <= j < news.len() && j != i ==> news[j] == olds[j],
        news =~= olds.update(i, news[i]),
{
    assert forall|j: int| 0 <= j < news.len() && j != i implies #[trigger] news[j] == olds[j] by {
        if j < i {
            assert(news[j] == olds.remove(i).insert(i, news[i])[j]);
            assert(olds.remove(i).insert(i, news[i])[j] == olds.remove(i)[j]);
        } else {
            assert(news[j] == olds.remove(i)[j - 1]);
        }
    }
}

impl SovereignModule {
    /// Handles, infos and targets line up slot for slot; a slot holds an
    /// info exactly while its handle is live; live names are unique and
    /// non-empty.
    pub open spec fn wf(self) -> bool {
        &&& self.sov_id.wf()
        &&& self.infos@.len() == self.sov_id@.len()
        &&& self.targets@.len() == self.sov_id@.len()
        &&& forall|i: int|
            0 <= i < self.infos@.len() ==> ((#[trigger] self.infos@[i]) is Some <==> self.sov_id@[i]
                is Some)
        &&& forall|i: int, j: int|
            0 <= i < j < self.infos@.len() && self.infos@[i] is Some && self.infos@[j] is Some
                ==> self.infos@[i].unwrap().name@ != self.infos@[j].unwrap().name@
        &&& forall|i: int|
            0 <= i < self.infos@.len() && self.infos@[i] is Some ==> (
            #[trigger] self.infos@[i]).unwrap().name@.len() > 0
        &&& forall|i: int| 0 <= i < self.targets@.len() ==> (#[trigger] self.targets@[i]).wf()
    }

    pub fn new() -> (r: Self)
        ensures
            r.wf(),
            r.sov_id@.len() == 0,
    {
        SovereignModule {
            sov_id: IdentityRegistry::new(),
            infos: Vec::new(),
            targets: Vec::new(),
        }
    }

    /// The handle registered under `name`, or the null handle.
    pub fn sov_chain_for_name(&self, name: &Vec<u8>) -> (r: AddressId)
        requires
            self.wf(),
        ensures
            r == NULL_ID ==> forall|i: int|
                0 <= i < self.infos@.len() && self.infos@[i] is Some ==> (
                #[trigger] self.infos@[i]).unwrap().name@ != name@,
            r != NULL_ID ==> 1 <= r <= self.infos@.len() && self.infos@[r - 1] is Some
                && self.infos@[r - 1].unwrap().name@ == name@,
    {
        let mut i: usize = 0;
        while i < self.infos.len()
            invariant
                i <= self.infos.len(),
                self.wf(),
                forall|j: int|
                    0 <= j < i && self.infos@[j] is Some ==> (
                    #[trigger] self.infos@[j]).unwrap().name@ != name@,
            decreases self.infos.len() - i,
        {
            match &self.infos[i] {
                Some(info) => {
                    if bytes_eq(&info.name, name) {
                        return i as u64 + 1;
                    }
                },
                None => {},
            }
            i += 1;
        }
        NULL_ID
    }

    /// Registers a sovereign chain: a fresh handle, an info record, and an
    /// empty target account. Fails when the name is empty or taken, or the
    /// caller is already registered; nothing changes then.
    pub fn register_sov(&mut self, caller: u64, name: Vec<u8>, description: Vec<u8>) -> (r: Result<
        AddressId,
        Error,
    >)
        requires
            old(self).wf(),
            old(self).sov_id@.len() + 1 < u64::MAX,
        ensures
            final(self).wf(),
            r is Err ==> *final(self) == *old(self),
            match r {
                Ok(id) => {
                    &&& name@.len() > 0
                    &&& crate::identity::absent(old(self).sov_id@, caller)
                    &&& final(self).sov_id@ == old(self).sov_id@.push(Some(caller))
                    &&& id == old(self).sov_id@.len() + 1
                    &&& final(self).infos@.len() == old(self).infos@.len() + 1
                    &&& final(self).infos@[id - 1] is Some
                    &&& final(self).infos@[id - 1].unwrap().name@ == name@
                    &&& final(self).infos@[id - 1].unwrap().opt_max_restaking_cap is None
                    &&& final(self).targets@.len() == old(self).targets@.len() + 1
                    &&& forall|j: int|
                        0 <= j < old(self).targets@.len() ==> final(self).targets@[j] == old(self).targets@[j]
                    &&& final(self).targets@[id - 1].total_delegated == 0
                    &&& final(self).targets@[id - 1].edges@.len() == 0
                    &&& final(self).targets@[id - 1].delegators@.len() == 0
                },
                Err(e) => {
                    &&& (e == Error::EmptyName ==> name@.len() == 0)
                    &&& (e == Error::AlreadyRegistered ==> !crate::identity::absent(
                        old(self).sov_id@,
                        caller,
                    ))
                    &&& (e == Error::NameAlreadyTaken ==> exists|i: int|
                        0 <= i < old(self).infos@.len() && old(self).infos@[i] is Some && (
                        #[trigger] old(self).infos@[i]).unwrap().name@ == name@)
                    &&& (e == Error::EmptyName || e == Error::AlreadyRegistered || e
                        == Error::NameAlreadyTaken)
                },
            },
    {
        if name.len() == 0 {
            return Err(Error::EmptyName);
        }
        let existing_for_name = self.sov_chain_for_name(&name);
        if existing_for_name != NULL_ID {
            return Err(Error::NameAlreadyTaken);
        }
        match self.sov_id.insert_new(caller) {
            Ok(id) => {
                let info = SovereignInfo::new(name, description);
                self.infos.push(Some(info));
                self.targets.push(TargetAccount::new());
                Ok(id)
            },
            Err(e) => Err(e),
        }
    }

    /// Unregisters the calling chain: its handle is retired (never
    /// reused), its info record and name binding are cleared; its target
    /// account is kept for the delegators' sake.
    pub fn unregister(&mut self, caller: u64) -> (r: Result<AddressId, Error>)
        requires
            old(self).wf(),
        ensures
            final(self).wf(),
            r is Err ==> *final(self) == *old(self) && r == Err::<AddressId, Error>(
                Error::UnknownAddress,
            ),
            r is Err <==> crate::identity::absent(old(self).sov_id@, caller),
            match r {
                Ok(id) => {
                    &&& 1 <= id <= old(self).sov_id@.len()
                    &&& old(self).sov_id@[id - 1] == Some(caller)
                    &&& final(self).sov_id@ == old(self).sov_id@.update(id - 1, None)
                    &&& final(self).infos@ == old(self).infos@.update(id - 1, None)
                    &&& final(self).targets@ == old(self).targets@
                },
                Err(_) => true,
            },
    {
        let n = self.infos.len();
        let id = self.sov_id.remove_by_address(caller);
        if id == NULL_ID {
            return Err(Error::UnknownAddress);
        }
        proof {
            assert(1 <= id <= n as u64);
        }
        let idx = (id - 1) as usize;
        self.infos.remove(idx);
        self.infos.insert(idx, None);
        proof {
            lemma_info_remove_insert(old(self).infos@, self.infos@, id - 1);
            assert(self.infos@ =~= old(self).infos@.update(id - 1, None));
        }
        Ok(id)
    }

    /// Tightens (or first sets) the chain's restaking cap; the cap can
    /// never fall below what is already delegated.
    pub fn set_max_restaking_cap(&mut self, caller: u64, max_cap: u64) -> (r: Result<(), Error>)
        requires
            old(self).wf(),
        ensures
            final(self).wf(),
            r is Err ==> *final(self) == *old(self),
            crate::identity::absent(old(self).sov_id@, caller) ==> r == Err::<(), Error>(
                Error::UnknownAddress,
            ),
            !crate::identity::absent(old(self).sov_id@, caller) ==> r == Err::<(), Error>(
                Error::CapBelowCurrent,
            ) || r is Ok,
            forall|id: AddressId|
                1 <= id <= old(self).sov_id@.len() && old(self).sov_id@[id - 1] == Some(caller)
                    ==> {
                    &&& (r is Ok <==> max_cap >= (#[trigger] old(self).targets@[
                        id - 1
                    ]).total_delegated)
                    &&& (r is Ok ==> final(self).infos@[id - 1].unwrap().opt_max_restaking_cap
                        == Some(max_cap))
                    &&& (r is Ok ==> forall|j: int|
                        0 <= j < old(self).infos@.len() && j != id - 1 ==> final(self).infos@[j]
                            == old(self).infos@[j])
                    &&& (r is Ok ==> final(self).sov_id@ == old(self).sov_id@ && final(self).targets@ == old(self).targets@)
                },
    {
        let n = self.infos.len();
        let id = match self.sov_id.get_id_non_zero(caller) {
            Ok(id) => id,
            Err(e) => {
                return Err(e);
            },
        };
        proof {
            assert(1 <= id <= n as u64);
            assert forall|i2: int|
                0 <= i2 < old(self).sov_id@.len() && old(self).sov_id@[i2] == Some(caller)
                    implies i2 == id - 1 by {
                crate::identity::lemma_slot_unique(old(self).sov_id@, caller, i2, id - 1);
            }
        }
        let idx = (id - 1) as usize;
        let current_total = self.targets[idx].total_delegated;
        if max_cap < current_total {
            return Err(Error::CapBelowCurrent);
        }
        let old_info = self.infos.remove(idx);
        match old_info {
            Some(info) => {
                let new_info = SovereignInfo {
                    name: info.name,
                    description: info.description,
                    opt_max_restaking_cap: Some(max_cap),
                };
                self.infos.insert(idx, Some(new_info));
                proof {
                    lemma_info_remove_insert(old(self).infos@, self.infos@, id - 1);
                }
                Ok(())
            },
            None => {
                // A live handle always has an info record.
                proof {
                    assert(old(self).infos@[id - 1] is Some);
                }
                assert(false);
                Err(Error::UnknownAddress)
            },
        }
    }

    /// The info record of a registered chain.
    pub fn get_sov_info(&self, sov_address: u64) -> (r: Result<&SovereignInfo, Error>)
        requires
            self.wf(),
        ensures
            r is Err <==> crate::identity::absent(self.sov_id@, sov_address),
            r is Err ==> r == Err::<&SovereignInfo, Error>(Error::UnknownAddress),
            forall|id: AddressId|
                1 <= id <= self.sov_id@.len() && self.sov_id@[id - 1] == Some(sov_address) && r
                    is Ok ==> #[trigger] self.infos@[id - 1] == Some(*r.unwrap()),
    {
        let n = self.infos.len();
        let id = match self.sov_id.get_id_non_zero(sov_address) {
            Ok(id) => id,
            Err(e) => {
                return Err(e);
            },
        };
        proof {
            assert(1 <= id <= n as u64);
            assert forall|i2: int|
                0 <= i2 < self.sov_id@.len() && self.sov_id@[i2] == Some(sov_address) implies i2 == id
                - 1 by {
                crate::identity::lemma_slot_unique(self.sov_id@, sov_address, i2, id - 1);
            }
        }
        let idx = (id - 1) as usize;
        let slot = &self.infos[idx];
        match slot {
            Some(info) => Ok(info),
            None => {
                proof {
                    assert(self.infos@[id - 1] is Some);
                }
                assert(false);
                Err(Error::UnknownAddress)
            },
        }
    }

    /// Fails with an unknown-address error exactly on the null handle.
    pub fn require_valid_sov_id(&self, sov_id: AddressId) -> (r: Result<(), Error>)
        ensures
            r is Ok <==> sov_id != NULL_ID,
            r is Err ==> r == Err::<(), Error>(Error::UnknownAddress),
    {
        if sov_id == NULL_ID {
            Err(Error::UnknownAddress)
        } else {
            Ok(())
        }
    }
}

} // verus!
