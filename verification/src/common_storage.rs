use vstd::prelude::*;

use crate::identity::{AddressId, IdentityRegistry};
use crate::unique_payments::UniquePayments;

verus! {

/// The per-user storage every user-facing action starts from: the
/// address registry and each user's free (undelegated) balance.
#[derive(Debug)]
pub struct CommonStorageModule {
    pub user_ids: IdentityRegistry,
    pub user_tokens: Vec<UniquePayments>,
}

impl CommonStorageModule {
    /// One balance per allocated handle, each a valid balance.
    pub open spec fn wf(self) -> bool {
        &&& self.user_ids.wf()
        &&& self.user_tokens@.len() == self.user_ids@.len()
        &&& forall|i: int| 0 <= i < self.user_tokens@.len() ==> (#[trigger] self.user_tokens@[i]).wf()
    }

    pub fn new() -> (r: Self)
        ensures
            r.wf(),
            r.user_ids@.len() == 0,
    {
        CommonStorageModule { user_ids: IdentityRegistry::new(), user_tokens: Vec::new() }
    }

    /// The caller's handle, allocating one (with an empty balance) on
    /// first sight.
    pub fn get_or_insert_user(&mut self, address: u64) -> (r: AddressId)
        requires
            old(self).wf(),
            old(self).user_ids@.len() + 1 < u64::MAX,
        ensures
            final(self).wf(),
            r != crate::identity::NULL_ID,
            1 <= r <= final(self).user_ids@.len(),
            final(self).user_ids@[r - 1] == Some(address),
            if crate::identity::absent(old(self).user_ids@, address) {
                final(self).user_ids@ == old(self).user_ids@.push(Some(address))
                    && final(self).user_tokens@.len() == old(self).user_tokens@.len() + 1
                    && final(self).user_tokens@[r - 1]@ == Seq::<
                    crate::unique_payments::Payment,
                >::empty() && r == old(self).user_ids@.len() + 1 && forall|j: int|
                    0 <= j < old(self).user_tokens@.len() ==> final(self).user_tokens@[j] == old(self).user_tokens@[j]
            } else {
                *final(self) == *old(self)
            },
    {
        let existing = self.user_ids.get_id(address);
        if existing != crate::identity::NULL_ID {
            return existing;
        }
        let id = self.user_ids.get_id_or_insert(address);
        self.user_tokens.push(UniquePayments::new());
        id
    }
}

} // verus!
