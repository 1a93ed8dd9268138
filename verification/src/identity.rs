use vstd::prelude::*;

use crate::errors::Error;

verus! {

/// Compact handle for a registered account address. `0` is the reserved
/// null handle meaning "unknown".
pub type AddressId = u64;

pub const NULL_ID: AddressId = 0;

/// Interns account addresses (modeled as plain integers) into compact,
/// monotonically allocated handles. A handle, once given out, is never
/// reassigned to a different address, even after the address is removed:
/// removal leaves a tombstone in the slot table, so stale handles never
/// alias a fresh address.
#[derive(Debug)]
pub struct IdentityRegistry {
    slots: Vec<Option<u64>>,
}

impl View for IdentityRegistry {
    type V = Seq<Option<u64>>;

    closed spec fn view(&self) -> Seq<Option<u64>> {
        self.slots@
    }
}

/// The handle for slot index `i`.
pub open spec fn slot_id(i: int) -> int {
    i + 1
}

/// `addr` occupies no slot of `s`.
pub open spec fn absent(s: Seq<Option<u64>>, addr: u64) -> bool {
    forall|j: int| 0 <= j < s.len() ==> s[j] != Some(addr)
}

impl IdentityRegistry {
    /// Each live address occupies exactly one slot: the address-to-id and
    /// id-to-address mappings are mutual inverses over the live handles.
    /// The slot count stays below the handle type's range so that every
    /// slot has a representable handle.
    pub open spec fn wf(self) -> bool {
        &&& forall|i: int, j: int|
            0 <= i < j < self@.len() && self@[i] is Some ==> self@[i] != self@[j]
        &&& self@.len() < u64::MAX
    }

    /// The id that `get_id` reports for `addr`: the handle of its slot, or
    /// the null handle when absent.
    pub open spec fn id_ok(self, addr: u64, r: AddressId) -> bool {
        if absent(self@, addr) {
            r == NULL_ID
        } else {
            1 <= r <= self@.len() && self@[r - 1] == Some(addr)
        }
    }

    pub fn new() -> (r: Self)
        ensures
            r.wf(),
            r@ == Seq::<Option<u64>>::empty(),
    {
        let slots: Vec<Option<u64>> = Vec::new();
        proof {
            assert(slots@ =~= Seq::<Option<u64>>::empty());
        }
        IdentityRegistry { slots }
    }

    /// Pure lookup: the existing handle, or the null handle if the address
    /// was never registered.
    pub fn get_id(&self, address: u64) -> (r: AddressId)
        requires
            self.wf(),
        ensures
            self.id_ok(address, r),
    {
        match self.find_slot(address) {
            Some(i) => i as u64 + 1,
            None => NULL_ID,
        }
    }

    /// The existing handle, or a fatal `UnknownAddress` when the address
    /// was never registered.
    pub fn get_id_non_zero(&self, address: u64) -> (r: Result<AddressId, Error>)
        requires
            self.wf(),
        ensures
            match r {
                Ok(id) => !absent(self@, address) && id != NULL_ID && self.id_ok(address, id),
                Err(e) => absent(self@, address) && e == Error::UnknownAddress,
            },
    {
        match self.find_slot(address) {
            Some(i) => Ok(i as u64 + 1),
            None => Err(Error::UnknownAddress),
        }
    }

    /// The existing handle, else a freshly allocated one. The registry only
    /// ever grows by one slot at the end, so handles are monotone and never
    /// reused.
    pub fn get_id_or_insert(&mut self, address: u64) -> (r: AddressId)
        requires
            old(self).wf(),
            old(self)@.len() + 1 < u64::MAX,
        ensures
            final(self).wf(),
            r != NULL_ID,
            final(self).id_ok(address, r),
            1 <= r <= final(self)@.len(),
            final(self)@[r - 1] == Some(address),
            if absent(old(self)@, address) {
                final(self)@ == old(self)@.push(Some(address)) && r == old(self)@.len() + 1
            } else {
                *final(self) == *old(self)
            },
    {
        match self.find_slot(address) {
            Some(i) => i as u64 + 1,
            None => {
                self.slots.push(Some(address));
                self.slots.len() as u64
            },
        }
    }

    /// Allocates a fresh handle; fails when the address is already
    /// registered.
    pub fn insert_new(&mut self, address: u64) -> (r: Result<AddressId, Error>)
        requires
            old(self).wf(),
            old(self)@.len() + 1 < u64::MAX,
        ensures
            final(self).wf(),
            match r {
                Ok(id) => absent(old(self)@, address) && final(self)@ == old(self)@.push(
                    Some(address),
                ) && id == old(self)@.len() + 1 && id != NULL_ID,
                Err(e) => !absent(old(self)@, address) && *final(self) == *old(self) && e
                    == Error::AlreadyRegistered,
            },
    {
        match self.find_slot(address) {
            Some(_) => Err(Error::AlreadyRegistered),
            None => {
                self.slots.push(Some(address));
                Ok(self.slots.len() as u64)
            },
        }
    }

    /// Erases the address-to-id mapping, returning the removed handle or
    /// the null handle if the address was absent. The slot is tombstoned,
    /// never reassigned, so the handle count never shrinks.
    pub fn remove_by_address(&mut self, address: u64) -> (r: AddressId)
        requires
            old(self).wf(),
        ensures
            final(self).wf(),
            final(self)@.len() == old(self)@.len(),
            absent(final(self)@, address),
            if absent(old(self)@, address) {
                r == NULL_ID && *final(self) == *old(self)
            } else {
                1 <= r <= old(self)@.len() && old(self)@[r - 1] == Some(address) && final(self)@
                    == old(self)@.update(r - 1, None)
            },
    {
        match self.find_slot(address) {
            Some(i) => {
                self.slots.set(i, None);
                proof {
                    assert forall|j: int| 0 <= j < self@.len() implies self@[j] != Some(
                        address,
                    ) by {
                        if j != i {
                            assert(old(self)@[j] == self@[j]);
                        }
                    }
                }
                i as u64 + 1
            },
            None => NULL_ID,
        }
    }

    /// The address behind a live handle, if the handle is live.
    pub fn get_address(&self, id: AddressId) -> (r: Option<u64>)
        ensures
            match r {
                Some(addr) => 1 <= id <= self@.len() && self@[id - 1] == Some(addr),
                None => id == NULL_ID || id > self@.len() || self@[id - 1] is None,
            },
    {
        if id == NULL_ID || id > self.slots.len() as u64 {
            return None;
        }
        self.slots[(id - 1) as usize]
    }

    /// The number of handles ever allocated.
    pub fn len(&self) -> (r: usize)
        ensures
            r == self@.len(),
    {
        self.slots.len()
    }

    fn find_slot(&self, address: u64) -> (r: Option<usize>)
        ensures
            match r {
                Some(i) => i < self@.len() && self@[i as int] == Some(address),
                None => absent(self@, address),
            },
    {
        let mut i: usize = 0;
        while i < self.slots.len()
            invariant
                i <= self.slots.len(),
                forall|j: int| 0 <= j < i ==> self@[j] != Some(address),
            decreases self.slots.len() - i,
        {
            match self.slots[i] {
                Some(a) => {
                    if a == address {
                        return Some(i);
                    }
                },
                None => {},
            }
            i += 1;
        }
        None
    }
}

/// The slot index holding `a`, or `-1` when absent.
pub open spec fn slot_of(s: Seq<Option<u64>>, a: u64) -> int
    decreases s.len(),
{
    if s.len() == 0 {
        -1
    } else if s.last() == Some(a) {
        s.len() - 1
    } else {
        slot_of(s.drop_last(), a)
    }
}

pub proof fn lemma_slot_of(s: Seq<Option<u64>>, a: u64)
    ensures
        absent(s, a) <==> slot_of(s, a) == -1,
        !absent(s, a) ==> 0 <= slot_of(s, a) < s.len() && s[slot_of(s, a)] == Some(a),
    decreases s.len(),
{
    if s.len() > 0 {
        lemma_slot_of(s.drop_last(), a);
        if s.last() != Some(a) {
            if absent(s.drop_last(), a) {
                assert forall|j: int| 0 <= j < s.len() implies s[j] != Some(a) by {
                    if j < s.len() - 1 {
                        assert(s.drop_last()[j] != Some(a));
                    }
                }
            } else {
                let i = slot_of(s.drop_last(), a);
                assert(s[i] == s.drop_last()[i]);
                assert(!absent(s, a));
            }
        } else {
            assert(!absent(s, a));
        }
    }
}

/// Under injectivity, any slot holding `a` is the slot `slot_of` names.
pub proof fn lemma_slot_of_unique(s: Seq<Option<u64>>, a: u64, i: int)
    requires
        forall|x: int, y: int| 0 <= x < y < s.len() && s[x] is Some ==> s[x] != s[y],
        0 <= i < s.len(),
        s[i] == Some(a),
    ensures
        slot_of(s, a) == i,
{
    lemma_slot_of(s, a);
    assert(!absent(s, a));
    lemma_slot_unique(s, a, slot_of(s, a), i);
}

/// Two live slots holding the same address coincide.
pub proof fn lemma_slot_unique(s: Seq<Option<u64>>, a: u64, i: int, j: int)
    requires
        forall|x: int, y: int| 0 <= x < y < s.len() && s[x] is Some ==> s[x] != s[y],
        0 <= i < s.len(),
        0 <= j < s.len(),
        s[i] == Some(a),
        s[j] == Some(a),
    ensures
        i == j,
{
    if i < j {
        assert(s[i] != s[j]);
    } else if j < i {
        assert(s[j] != s[i]);
    }
}

/// Fails with `UnknownAddress` exactly when the handle is the null handle.
pub fn require_non_null(id: AddressId) -> (r: Result<(), Error>)
    ensures
        r is Ok <==> id != NULL_ID,
        r is Err ==> r == Err::<(), Error>(Error::UnknownAddress),
{
    if id == NULL_ID {
        Err(Error::UnknownAddress)
    } else {
        Ok(())
    }
}

} // verus!
