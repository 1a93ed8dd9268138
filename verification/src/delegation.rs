use vstd::prelude::*;

use crate::errors::Error;
use crate::sovereign::Epoch;

verus! {

/// Lifecycle phase of the reward-claim cycle.
#[derive(Clone, Copy, Debug, PartialEq, Eq, Structural)]
pub enum ClaimStatusType {
    NotStarted,
    Pending,
    Finished,
    Delegable,
    Insufficient,
    Redelegated,
}

/// Checkpointed state of the reward-claim cycle: its phase, when it last
/// ran, the directory node the sweep stands at, and the base-asset
/// reserve snapshotted when the cycle started.
#[derive(Clone, Copy, Debug, PartialEq, Eq, Structural)]
pub struct ClaimStatus {
    pub status: ClaimStatusType,
    pub last_claim_epoch: Epoch,
    pub last_claim_block: u64,
    pub current_node: u32,
    pub starting_token_reserve: u64,
}

impl Default for ClaimStatus {
    fn default() -> (r: Self)
        ensures
            r.status == ClaimStatusType::NotStarted,
            r.last_claim_epoch == 0,
            r.last_claim_block == 0,
            r.current_node == 0,
            r.starting_token_reserve == 0,
    {
        ClaimStatus {
            status: ClaimStatusType::NotStarted,
            last_claim_epoch: 0,
            last_claim_block: 0,
            current_node: 0,
            starting_token_reserve: 0,
        }
    }
}

/// Everything the ledger tracks about one downstream delegation
/// contract.
#[derive(Clone, Copy, Debug, PartialEq, Eq, Structural)]
pub struct DelegationContractData {
    pub admin_address: u64,
    pub total_staked: u64,
    pub delegation_contract_cap: u64,
    pub nr_nodes: u64,
    pub apy: u64,
    pub total_staked_from_ls_contract: u64,
    pub total_unstaked_from_ls_contract: u64,
    pub total_unbonded_from_ls_contract: u64,
}

/// One directory node: a stable handle, the contract's address, and its
/// data.
#[derive(Clone, Copy, Debug, PartialEq, Eq, Structural)]
pub struct DirectoryEntry {
    pub node_id: u32,
    pub address: u64,
    pub data: DelegationContractData,
}

/// Yields never increase along the list.
pub open spec fn sorted_by_apy(s: Seq<DirectoryEntry>) -> bool {
    forall|i: int, j: int| 0 <= i < j < s.len() ==> s[i].data.apy >= s[j].data.apy
}

pub open spec fn contains_address(s: Seq<DirectoryEntry>, a: u64) -> bool {
    exists|i: int| 0 <= i < s.len() && s[i].address == a
}

/// The index of the entry for address `a`, or `-1` when absent.
pub open spec fn addr_index(s: Seq<DirectoryEntry>, a: u64) -> int
    decreases s.len(),
{
    if s.len() == 0 {
        -1
    } else if s[0].address == a {
        0
    } else {
        let rest = addr_index(s.subrange(1, s.len() as int), a);
        if rest == -1 {
            -1
        } else {
            rest + 1
        }
    }
}

pub proof fn lemma_addr_index(s: Seq<DirectoryEntry>, a: u64)
    ensures
        addr_index(s, a) == -1 <==> !contains_address(s, a),
        addr_index(s, a) != -1 ==> 0 <= addr_index(s, a) < s.len() && s[addr_index(s, a)].address
            == a && (forall|i: int| 0 <= i < addr_index(s, a) ==> (#[trigger] s[i]).address != a),
    decreases s.len(),
{
    if s.len() > 0 && s[0].address != a {
        let tail = s.subrange(1, s.len() as int);
        lemma_addr_index(tail, a);
        if addr_index(tail, a) == -1 {
            assert forall|i: int| 0 <= i < s.len() implies (#[trigger] s[i]).address != a by {
                if i > 0 {
                    assert(tail[i - 1] == s[i]);
                }
            }
        } else {
            assert(s[addr_index(s, a)] == tail[addr_index(tail, a)]);
            assert forall|i: int| 0 <= i < addr_index(s, a) implies (#[trigger] s[i]).address
                != a by {
                if i > 0 {
                    assert(tail[i - 1] == s[i]);
                }
            }
            assert(contains_address(s, a));
        }
    } else if s.len() > 0 {
        assert(contains_address(s, a));
    }
}

/// The data stored for address `a`, or all-zero data when absent.
pub open spec fn data_of(s: Seq<DirectoryEntry>, a: u64) -> DelegationContractData {
    if addr_index(s, a) == -1 {
        empty_contract_data()
    } else {
        s[addr_index(s, a)].data
    }
}

pub open spec fn empty_contract_data() -> DelegationContractData {
    DelegationContractData {
        admin_address: 0,
        total_staked: 0,
        delegation_contract_cap: 0,
        nr_nodes: 0,
        apy: 0,
        total_staked_from_ls_contract: 0,
        total_unstaked_from_ls_contract: 0,
        total_unbonded_from_ls_contract: 0,
    }
}

/// The position the ordering rule assigns to a new entry with this
/// yield: before the first entry whose yield is not above it.
pub open spec fn insert_pos(s: Seq<DirectoryEntry>, apy: u64) -> int
    decreases s.len(),
{
    if s.len() == 0 {
        0
    } else if s[0].data.apy <= apy {
        0
    } else {
        1 + insert_pos(s.subrange(1, s.len() as int), apy)
    }
}

pub proof fn lemma_insert_pos(s: Seq<DirectoryEntry>, apy: u64)
    ensures
        0 <= insert_pos(s, apy) <= s.len(),
        forall|i: int| 0 <= i < insert_pos(s, apy) ==> (#[trigger] s[i]).data.apy > apy,
        insert_pos(s, apy) < s.len() ==> s[insert_pos(s, apy)].data.apy <= apy,
    decreases s.len(),
{
    if s.len() > 0 && s[0].data.apy > apy {
        let tail = s.subrange(1, s.len() as int);
        lemma_insert_pos(tail, apy);
        assert forall|i: int| 0 <= i < insert_pos(s, apy) implies (#[trigger] s[i]).data.apy
            > apy by {
            if i > 0 {
                assert(tail[i - 1] == s[i]);
            }
        }
        if insert_pos(s, apy) < s.len() {
            assert(s[insert_pos(s, apy)] == tail[insert_pos(tail, apy)]);
        }
    }
}

/// Inserting by the ordering rule keeps the list sorted.
pub proof fn lemma_insert_sorted(s: Seq<DirectoryEntry>, e: DirectoryEntry)
    requires
        sorted_by_apy(s),
    ensures
        sorted_by_apy(s.insert(insert_pos(s, e.data.apy), e)),
{
    let p = insert_pos(s, e.data.apy);
    lemma_insert_pos(s, e.data.apy);
    let t = s.insert(p, e);
    assert forall|i: int, j: int| 0 <= i < j < t.len() implies t[i].data.apy >= t[j].data.apy by {
        if j < p {
            assert(t[i] == s[i] && t[j] == s[j]);
        } else if i < p && j == p {
            assert(t[i] == s[i]);
        } else if i < p {
            assert(t[i] == s[i] && t[j] == s[j - 1]);
            assert(s[i].data.apy >= s[j - 1].data.apy);
        } else if i == p {
            assert(t[j] == s[j - 1]);
            assert(s[p].data.apy >= s[j - 1].data.apy);
        } else {
            assert(t[i] == s[i - 1] && t[j] == s[j - 1]);
        }
    }
}

/// Removing an entry keeps the list sorted.
pub proof fn lemma_remove_sorted(s: Seq<DirectoryEntry>, p: int)
    requires
        sorted_by_apy(s),
        0 <= p < s.len(),
    ensures
        sorted_by_apy(s.remove(p)),
{
    let t = s.remove(p);
    assert forall|i: int, j: int| 0 <= i < j < t.len() implies t[i].data.apy >= t[j].data.apy by {
        if j < p {
            assert(t[i] == s[i] && t[j] == s[j]);
        } else if i < p {
            assert(t[i] == s[i] && t[j] == s[j + 1]);
        } else {
            assert(t[i] == s[i + 1] && t[j] == s[j + 1]);
        }
    }
}

/// Demotion keeps the descending-yield order whenever the demoted entry
/// already carries the lowest yield of the directory; a demoted entry
/// with a higher yield deliberately leaves the order, deprioritized
/// until its next reorder.
pub proof fn lemma_demote_sorted(s: Seq<DirectoryEntry>, p: int)
    requires
        sorted_by_apy(s),
        0 <= p < s.len(),
        forall|i: int| 0 <= i < s.len() ==> s[p].data.apy <= (#[trigger] s[i]).data.apy,
    ensures
        sorted_by_apy(s.remove(p).push(s[p])),
{
    lemma_remove_sorted(s, p);
    let rem = s.remove(p);
    let t = rem.push(s[p]);
    assert forall|i: int, j: int| 0 <= i < j < t.len() implies t[i].data.apy >= t[j].data.apy by {
        if j == t.len() - 1 {
            assert(t[j] == s[p]);
            if i < p {
                assert(t[i] == s[i]);
            } else {
                assert(t[i] == s[i + 1]);
            }
        } else {
            assert(t[i] == rem[i] && t[j] == rem[j]);
        }
    }
}

/// The first entry able to take `amount` more stake, or `-1`.
pub open spec fn select_stake_pos(s: Seq<DirectoryEntry>, amount: u64) -> int
    decreases s.len(),
{
    if s.len() == 0 {
        -1
    } else if s[0].data.delegation_contract_cap - s[0].data.total_staked >= amount {
        0
    } else {
        let rest = select_stake_pos(s.subrange(1, s.len() as int), amount);
        if rest == -1 {
            -1
        } else {
            rest + 1
        }
    }
}

pub proof fn lemma_select_stake_pos(s: Seq<DirectoryEntry>, amount: u64)
    requires
        forall|i: int| 0 <= i < s.len() ==> (#[trigger] s[i]).data.total_staked
            <= s[i].data.delegation_contract_cap,
    ensures
        select_stake_pos(s, amount) == -1 ==> forall|i: int|
            0 <= i < s.len() ==> (#[trigger] s[i]).data.delegation_contract_cap
                - s[i].data.total_staked < amount,
        select_stake_pos(s, amount) != -1 ==> {
            &&& 0 <= select_stake_pos(s, amount) < s.len()
            &&& s[select_stake_pos(s, amount)].data.delegation_contract_cap - s[select_stake_pos(
                s,
                amount,
            )].data.total_staked >= amount
            &&& forall|i: int|
                0 <= i < select_stake_pos(s, amount)
                    ==> (#[trigger] s[i]).data.delegation_contract_cap - s[i].data.total_staked
                    < amount
        },
    decreases s.len(),
{
    if s.len() > 0 && !(s[0].data.delegation_contract_cap - s[0].data.total_staked >= amount) {
        let tail = s.subrange(1, s.len() as int);
        assert forall|i: int| 0 <= i < tail.len() implies (#[trigger] tail[i]).data.total_staked
            <= tail[i].data.delegation_contract_cap by {
            assert(tail[i] == s[i + 1]);
        }
        lemma_select_stake_pos(tail, amount);
        if select_stake_pos(tail, amount) == -1 {
            assert forall|i: int|
                0 <= i < s.len() implies (#[trigger] s[i]).data.delegation_contract_cap
                - s[i].data.total_staked < amount by {
                if i > 0 {
                    assert(tail[i - 1] == s[i]);
                }
            }
        } else {
            assert(s[select_stake_pos(s, amount)] == tail[select_stake_pos(tail, amount)]);
            assert forall|i: int|
                0 <= i < select_stake_pos(s, amount) implies (
            #[trigger] s[i]).data.delegation_contract_cap - s[i].data.total_staked < amount by {
                if i > 0 {
                    assert(tail[i - 1] == s[i]);
                }
            }
        }
    }
}

/// The first entry holding at least `amount` of this ledger's stake, or
/// `-1`.
pub open spec fn select_unstake_pos(s: Seq<DirectoryEntry>, amount: u64) -> int
    decreases s.len(),
{
    if s.len() == 0 {
        -1
    } else if s[0].data.total_staked_from_ls_contract >= amount {
        0
    } else {
        let rest = select_unstake_pos(s.subrange(1, s.len() as int), amount);
        if rest == -1 {
            -1
        } else {
            rest + 1
        }
    }
}

pub proof fn lemma_select_unstake_pos(s: Seq<DirectoryEntry>, amount: u64)
    ensures
        select_unstake_pos(s, amount) == -1 ==> forall|i: int|
            0 <= i < s.len() ==> (#[trigger] s[i]).data.total_staked_from_ls_contract < amount,
        select_unstake_pos(s, amount) != -1 ==> {
            &&& 0 <= select_unstake_pos(s, amount) < s.len()
            &&& s[select_unstake_pos(s, amount)].data.total_staked_from_ls_contract >= amount
        },
    decreases s.len(),
{
    if s.len() > 0 && !(s[0].data.total_staked_from_ls_contract >= amount) {
        let tail = s.subrange(1, s.len() as int);
        lemma_select_unstake_pos(tail, amount);
        if select_unstake_pos(tail, amount) == -1 {
            assert forall|i: int|
                0 <= i < s.len() implies (#[trigger] s[i]).data.total_staked_from_ls_contract
                < amount by {
                if i > 0 {
                    assert(tail[i - 1] == s[i]);
                }
            }
        } else {
            assert(s[select_unstake_pos(s, amount)] == tail[select_unstake_pos(tail, amount)]);
        }
    }
}

/// The position of the node with this handle, or `-1`.
pub open spec fn pos_of_node(s: Seq<DirectoryEntry>, id: u32) -> int
    decreases s.len(),
{
    if s.len() == 0 {
        -1
    } else if s[0].node_id == id {
        0
    } else {
        let rest = pos_of_node(s.subrange(1, s.len() as int), id);
        if rest == -1 {
            -1
        } else {
            rest + 1
        }
    }
}

pub proof fn lemma_pos_of_node(s: Seq<DirectoryEntry>, id: u32)
    ensures
        pos_of_node(s, id) == -1 ==> forall|i: int|
            0 <= i < s.len() ==> (#[trigger] s[i]).node_id != id,
        pos_of_node(s, id) != -1 ==> 0 <= pos_of_node(s, id) < s.len() && s[pos_of_node(
            s,
            id,
        )].node_id == id,
    decreases s.len(),
{
    if s.len() > 0 && s[0].node_id != id {
        let tail = s.subrange(1, s.len() as int);
        lemma_pos_of_node(tail, id);
        if pos_of_node(tail, id) == -1 {
            assert forall|i: int| 0 <= i < s.len() implies (#[trigger] s[i]).node_id != id by {
                if i > 0 {
                    assert(tail[i - 1] == s[i]);
                }
            }
        } else {
            assert(s[pos_of_node(s, id)] == tail[pos_of_node(tail, id)]);
        }
    }
}

/// When no earlier entry carries the handle and entry `i` does, `i` is
/// the handle's position.
pub proof fn lemma_pos_of_node_at(s: Seq<DirectoryEntry>, i: int)
    requires
        0 <= i < s.len(),
        forall|j: int| 0 <= j < i ==> (#[trigger] s[j]).node_id != s[i].node_id,
    ensures
        pos_of_node(s, s[i].node_id) == i,
    decreases s.len(),
{
    if i > 0 {
        let tail = s.subrange(1, s.len() as int);
        assert forall|j: int| 0 <= j < i - 1 implies (#[trigger] tail[j]).node_id
            != tail[i - 1].node_id by {
            assert(tail[j] == s[j + 1]);
            assert(tail[i - 1] == s[i]);
        }
        assert(tail[i - 1] == s[i]);
        lemma_pos_of_node_at(tail, i - 1);
    }
}

/// The ordered registry of downstream delegation contracts, with the
/// reward-claim cycle's checkpoint state.
#[derive(Debug)]
pub struct DelegationModule {
    pub entries: Vec<DirectoryEntry>,
    pub next_node_id: u32,
    pub max_delegation_addresses: usize,
    pub claim_status: ClaimStatus,
    pub ongoing: Option<ClaimStatus>,
}

impl DelegationModule {
    /// Addresses and node handles are unique; handles stay below the
    /// allocator; used capacity never exceeds its limit.
    pub open spec fn wf(self) -> bool {
        &&& forall|i: int, j: int|
            0 <= i < j < self.entries@.len() ==> self.entries@[i].address
                != self.entries@[j].address
        &&& forall|i: int, j: int|
            0 <= i < j < self.entries@.len() ==> self.entries@[i].node_id
                != self.entries@[j].node_id
        &&& forall|i: int|
            0 <= i < self.entries@.len() ==> 1 <= (#[trigger] self.entries@[i]).node_id
                < self.next_node_id
        &&& self.next_node_id >= 1
        &&& forall|i: int|
            0 <= i < self.entries@.len() ==> (#[trigger] self.entries@[i]).data.total_staked
                <= self.entries@[i].data.delegation_contract_cap
    }

    pub fn new(max_delegation_addresses: usize, current_epoch: Epoch) -> (r: Self)
        ensures
            r.wf(),
            r.entries@.len() == 0,
            r.max_delegation_addresses == max_delegation_addresses,
            r.claim_status.status == ClaimStatusType::Insufficient,
            r.claim_status.last_claim_epoch == current_epoch,
            r.claim_status.last_claim_block == 0,
            r.claim_status.current_node == 0,
            r.claim_status.starting_token_reserve == 0,
            r.ongoing is None,
    {
        DelegationModule {
            entries: Vec::new(),
            next_node_id: 1,
            max_delegation_addresses,
            claim_status: ClaimStatus {
                status: ClaimStatusType::Insufficient,
                last_claim_epoch: current_epoch,
                last_claim_block: 0,
                current_node: 0,
                starting_token_reserve: 0,
            },
            ongoing: None,
        }
    }

    /// Owner action: resizes the directory's capacity.
    pub fn update_max_delegation_addresses_number(&mut self, number: usize)
        requires
            old(self).wf(),
        ensures
            final(self).wf(),
            final(self).max_delegation_addresses == number,
            final(self).entries@ == old(self).entries@,
            final(self).next_node_id == old(self).next_node_id,
            final(self).claim_status == old(self).claim_status,
            final(self).ongoing == old(self).ongoing,
    {
        self.max_delegation_addresses = number;
    }

    /// Whitelists a delegation contract, inserting it at the position the
    /// descending-yield order assigns. Atomic: on failure nothing
    /// changes.
    pub fn whitelist_delegation_contract(
        &mut self,
        contract_address: u64,
        admin_address: u64,
        total_staked: u64,
        delegation_contract_cap: u64,
        nr_nodes: u64,
        apy: u64,
    ) -> (r: Result<(), Error>)
        requires
            old(self).wf(),
            old(self).next_node_id < u32::MAX,
        ensures
            final(self).wf(),
            r is Err ==> *final(self) == *old(self),
            r == Err::<(), Error>(Error::DirectoryFull) <==> old(self).entries@.len() > old(self).max_delegation_addresses,
            old(self).entries@.len() <= old(self).max_delegation_addresses ==> (r == Err::<
                (),
                Error,
            >(Error::AlreadyWhitelisted) <==> contains_address(
                old(self).entries@,
                contract_address,
            )),
            old(self).entries@.len() <= old(self).max_delegation_addresses && !contains_address(
                old(self).entries@,
                contract_address,
            ) ==> (r == Err::<(), Error>(Error::CapacityExceeded) <==> total_staked
                > delegation_contract_cap),
            r is Ok <==> old(self).entries@.len() <= old(self).max_delegation_addresses
                && !contains_address(old(self).entries@, contract_address) && total_staked
                <= delegation_contract_cap,
            r is Ok ==> {
                let e = DirectoryEntry {
                    node_id: old(self).next_node_id,
                    address: contract_address,
                    data: DelegationContractData {
                        admin_address,
                        total_staked,
                        delegation_contract_cap,
                        nr_nodes,
                        apy,
                        total_staked_from_ls_contract: 0,
                        total_unstaked_from_ls_contract: 0,
                        total_unbonded_from_ls_contract: 0,
                    },
                };
                &&& final(self).entries@ == old(self).entries@.insert(
                    insert_pos(old(self).entries@, apy),
                    e,
                )
                &&& final(self).next_node_id == old(self).next_node_id + 1
                &&& (sorted_by_apy(old(self).entries@) ==> sorted_by_apy(final(self).entries@))
                &&& final(self).claim_status == old(self).claim_status
                &&& final(self).ongoing == old(self).ongoing
                &&& final(self).max_delegation_addresses == old(self).max_delegation_addresses
            },
    {
        if self.entries.len() > self.max_delegation_addresses {
            return Err(Error::DirectoryFull);
        }
        if find_address(&self.entries, contract_address).is_some() {
            return Err(Error::AlreadyWhitelisted);
        }
        proof {
            lemma_addr_index(self.entries@, contract_address);
        }
        if total_staked > delegation_contract_cap {
            return Err(Error::CapacityExceeded);
        }
        let entry = DirectoryEntry {
            node_id: self.next_node_id,
            address: contract_address,
            data: DelegationContractData {
                admin_address,
                total_staked,
                delegation_contract_cap,
                nr_nodes,
                apy,
                total_staked_from_ls_contract: 0,
                total_unstaked_from_ls_contract: 0,
                total_unbonded_from_ls_contract: 0,
            },
        };
        self.next_node_id = self.next_node_id + 1;
        add_and_order_delegation_address_in_list(&mut self.entries, entry);
        proof {
            let olds = old(self).entries@;
            let p = insert_pos(olds, apy);
            lemma_insert_pos(olds, apy);
            if sorted_by_apy(olds) {
                lemma_insert_sorted(olds, entry);
            }
            assert forall|i: int, j: int|
                0 <= i < j < self.entries@.len() implies self.entries@[i].address
                != self.entries@[j].address by {
                lemma_insert_distinct_addr(olds, entry, p, i, j);
            }
            assert forall|i: int, j: int|
                0 <= i < j < self.entries@.len() implies self.entries@[i].node_id
                != self.entries@[j].node_id by {
                lemma_insert_distinct_node(olds, entry, p, i, j, old(self).next_node_id);
            }
            assert forall|i: int|
                0 <= i < self.entries@.len() implies 1 <= (#[trigger] self.entries@[i]).node_id
                < self.next_node_id by {
                lemma_insert_index_cases(olds, entry, p, i);
            }
            assert forall|i: int|
                0 <= i < self.entries@.len() implies (
            #[trigger] self.entries@[i]).data.total_staked
                <= self.entries@[i].data.delegation_contract_cap by {
                lemma_insert_index_cases(olds, entry, p, i);
            }
        }
        Ok(())
    }

    /// Hands the contract's admin role to a new address.
    pub fn change_delegation_contract_admin(&mut self, contract_address: u64, admin_address: u64)
        -> (r: Result<(), Error>)
        requires
            old(self).wf(),
        ensures
            final(self).wf(),
            r is Err ==> *final(self) == *old(self) && r == Err::<(), Error>(Error::UnknownTarget),
            r is Ok <==> contains_address(old(self).entries@, contract_address),
            r is Ok ==> {
                let p = addr_index(old(self).entries@, contract_address);
                &&& final(self).entries@ == old(self).entries@.update(
                    p,
                    DirectoryEntry {
                        node_id: old(self).entries@[p].node_id,
                        address: contract_address,
                        data: DelegationContractData {
                            admin_address,
                            ..old(self).entries@[p].data
                        },
                    },
                )
                &&& final(self).next_node_id == old(self).next_node_id
                &&& final(self).claim_status == old(self).claim_status
                &&& final(self).ongoing == old(self).ongoing
                &&& final(self).max_delegation_addresses == old(self).max_delegation_addresses
                &&& (sorted_by_apy(old(self).entries@) ==> sorted_by_apy(final(self).entries@))
            },
    {
        let p = match find_address(&self.entries, contract_address) {
            Some(p) => p,
            None => {
                return Err(Error::UnknownTarget);
            },
        };
        let e = self.entries[p];
        let updated = DirectoryEntry {
            node_id: e.node_id,
            address: e.address,
            data: DelegationContractData { admin_address, ..e.data },
        };
        self.entries.set(p, updated);
        proof {
            lemma_update_same_shape(old(self).entries@, self.entries@, p as int);
        }
        Ok(())
    }

    /// Updates a contract's parameters; only its admin may. When the
    /// yield changes, the entry is taken out and re-inserted at the
    /// position the ordering rule assigns, under a fresh handle. Atomic:
    /// on failure nothing changes.
    pub fn change_delegation_contract_params(
        &mut self,
        caller: u64,
        contract_address: u64,
        total_staked: u64,
        delegation_contract_cap: u64,
        nr_nodes: u64,
        apy: u64,
    ) -> (r: Result<(), Error>)
        requires
            old(self).wf(),
            old(self).next_node_id < u32::MAX,
        ensures
            final(self).wf(),
            r is Err ==> *final(self) == *old(self),
            r == Err::<(), Error>(Error::UnknownTarget) <==> !contains_address(
                old(self).entries@,
                contract_address,
            ),
            contains_address(old(self).entries@, contract_address) ==> (r == Err::<(), Error>(
                Error::OnlyAdmin,
            ) <==> data_of(old(self).entries@, contract_address).admin_address != caller),
            contains_address(old(self).entries@, contract_address) && data_of(
                old(self).entries@,
                contract_address,
            ).admin_address == caller ==> (r == Err::<(), Error>(Error::CapacityExceeded)
                <==> total_staked > delegation_contract_cap),
            r is Ok <==> contains_address(old(self).entries@, contract_address) && data_of(
                old(self).entries@,
                contract_address,
            ).admin_address == caller && total_staked <= delegation_contract_cap,
            r is Ok ==> {
                let p = addr_index(old(self).entries@, contract_address);
                let new_data = DelegationContractData {
                    total_staked,
                    delegation_contract_cap,
                    nr_nodes,
                    apy,
                    ..old(self).entries@[p].data
                };
                &&& (old(self).entries@[p].data.apy == apy ==> final(self).entries@ == old(self).entries@.update(
                    p,
                    DirectoryEntry {
                        node_id: old(self).entries@[p].node_id,
                        address: contract_address,
                        data: new_data,
                    },
                ) && final(self).next_node_id == old(self).next_node_id)
                &&& (old(self).entries@[p].data.apy != apy ==> {
                    let shrunk = old(self).entries@.remove(p);
                    final(self).entries@ == shrunk.insert(
                        insert_pos(shrunk, apy),
                        DirectoryEntry {
                            node_id: old(self).next_node_id,
                            address: contract_address,
                            data: new_data,
                        },
                    ) && final(self).next_node_id == old(self).next_node_id + 1
                })
                &&& (sorted_by_apy(old(self).entries@) ==> sorted_by_apy(final(self).entries@))
                &&& final(self).claim_status == old(self).claim_status
                &&& final(self).ongoing == old(self).ongoing
                &&& final(self).max_delegation_addresses == old(self).max_delegation_addresses
            },
    {
        let p = match find_address(&self.entries, contract_address) {
            Some(p) => p,
            None => {
                proof {
                    lemma_addr_index(self.entries@, contract_address);
                }
                return Err(Error::UnknownTarget);
            },
        };
        let e = self.entries[p];
        if e.data.admin_address != caller {
            return Err(Error::OnlyAdmin);
        }
        if total_staked > delegation_contract_cap {
            return Err(Error::CapacityExceeded);
        }
        let new_data = DelegationContractData {
            admin_address: e.data.admin_address,
            total_staked,
            delegation_contract_cap,
            nr_nodes,
            apy,
            total_staked_from_ls_contract: e.data.total_staked_from_ls_contract,
            total_unstaked_from_ls_contract: e.data.total_unstaked_from_ls_contract,
            total_unbonded_from_ls_contract: e.data.total_unbonded_from_ls_contract,
        };
        if e.data.apy == apy {
            let updated = DirectoryEntry {
                node_id: e.node_id,
                address: e.address,
                data: new_data,
            };
            self.entries.set(p, updated);
            proof {
                lemma_update_same_shape(old(self).entries@, self.entries@, p as int);
                assert forall|i: int, j: int|
                    0 <= i < j < self.entries@.len() && sorted_by_apy(old(self).entries@) implies
                    self.entries@[i].data.apy >= self.entries@[j].data.apy by {
                    assert(self.entries@[i].data.apy == old(self).entries@[i].data.apy);
                    assert(self.entries@[j].data.apy == old(self).entries@[j].data.apy);
                }
            }
            Ok(())
        } else {
            self.entries.remove(p);
            let ghost shrunk = self.entries@;
            let fresh_entry = DirectoryEntry {
                node_id: self.next_node_id,
                address: contract_address,
                data: new_data,
            };
            self.next_node_id = self.next_node_id + 1;
            add_and_order_delegation_address_in_list(&mut self.entries, fresh_entry);
            proof {
                let olds = old(self).entries@;
                let q = insert_pos(shrunk, apy);
                lemma_insert_pos(shrunk, apy);
                assert forall|a: int| 0 <= a < shrunk.len() implies (#[trigger] shrunk[a]).address
                    != contract_address && shrunk[a].node_id < old(self).next_node_id
                    && 1 <= shrunk[a].node_id && shrunk[a].data.total_staked
                    <= shrunk[a].data.delegation_contract_cap by {
                    if a < p {
                        assert(shrunk[a] == olds[a]);
                        if olds[a].address == contract_address {
                            assert(olds[a].address != olds[p as int].address);
                        }
                    } else {
                        assert(shrunk[a] == olds[a + 1]);
                        if olds[a + 1].address == contract_address {
                            assert(olds[p as int].address != olds[a + 1].address);
                        }
                    }
                }
                assert forall|a: int, b: int| 0 <= a < b < shrunk.len() implies shrunk[a].address
                    != shrunk[b].address && shrunk[a].node_id != shrunk[b].node_id by {
                    if b < p {
                    } else if a < p {
                        assert(shrunk[a] == olds[a] && shrunk[b] == olds[b + 1]);
                    } else {
                        assert(shrunk[a] == olds[a + 1] && shrunk[b] == olds[b + 1]);
                    }
                }
                if sorted_by_apy(olds) {
                    lemma_remove_sorted(olds, p as int);
                    lemma_insert_sorted(shrunk, fresh_entry);
                }
                assert forall|i: int, j: int|
                    0 <= i < j < self.entries@.len() implies self.entries@[i].address
                    != self.entries@[j].address by {
                    lemma_insert_distinct_addr(shrunk, fresh_entry, q, i, j);
                }
                assert forall|i: int, j: int|
                    0 <= i < j < self.entries@.len() implies self.entries@[i].node_id
                    != self.entries@[j].node_id by {
                    lemma_insert_distinct_node(shrunk, fresh_entry, q, i, j, old(self).next_node_id);
                }
                assert forall|i: int|
                    0 <= i < self.entries@.len() implies 1 <= (
                #[trigger] self.entries@[i]).node_id < self.next_node_id
                    && self.entries@[i].data.total_staked
                    <= self.entries@[i].data.delegation_contract_cap by {
                    lemma_insert_index_cases(shrunk, fresh_entry, q, i);
                }
            }
            Ok(())
        }
    }

    /// Demotes a failing contract: it is taken out of the order and
    /// re-appended at the tail, deprioritized but not excluded.
    pub fn move_delegation_contract_to_back(&mut self, delegation_contract: u64) -> (r: Result<
        (),
        Error,
    >)
        requires
            old(self).wf(),
        ensures
            final(self).wf(),
            r is Err ==> *final(self) == *old(self) && r == Err::<(), Error>(Error::UnknownTarget),
            r is Ok <==> contains_address(old(self).entries@, delegation_contract),
            r is Ok ==> {
                let p = addr_index(old(self).entries@, delegation_contract);
                &&& final(self).entries@ == old(self).entries@.remove(p).push(
                    old(self).entries@[p],
                )
                &&& final(self).next_node_id == old(self).next_node_id
                &&& final(self).claim_status == old(self).claim_status
                &&& final(self).ongoing == old(self).ongoing
                &&& final(self).max_delegation_addresses == old(self).max_delegation_addresses
            },
    {
        let p = match find_address(&self.entries, delegation_contract) {
            Some(p) => p,
            None => {
                return Err(Error::UnknownTarget);
            },
        };
        let e = self.entries.remove(p);
        self.entries.push(e);
        proof {
            let olds = old(self).entries@;
            let shrunk = olds.remove(p as int);
            assert forall|a: int| 0 <= a < shrunk.len() implies (#[trigger] shrunk[a]).address
                != e.address && shrunk[a].node_id != e.node_id by {
                if a < p {
                    assert(shrunk[a] == olds[a]);
                    assert(olds[a].address != olds[p as int].address || a == p);
                    if olds[a].address == e.address {
                        assert(olds[a].address != olds[p as int].address);
                    }
                    if olds[a].node_id == e.node_id {
                        assert(olds[a].node_id != olds[p as int].node_id);
                    }
                } else {
                    assert(shrunk[a] == olds[a + 1]);
                    if olds[a + 1].address == e.address {
                        assert(olds[p as int].address != olds[a + 1].address);
                    }
                    if olds[a + 1].node_id == e.node_id {
                        assert(olds[p as int].node_id != olds[a + 1].node_id);
                    }
                }
            }
            assert forall|a: int, b: int| 0 <= a < b < shrunk.len() implies shrunk[a].address
                != shrunk[b].address && shrunk[a].node_id != shrunk[b].node_id by {
                if b < p {
                } else if a < p {
                    assert(shrunk[a] == olds[a] && shrunk[b] == olds[b + 1]);
                } else {
                    assert(shrunk[a] == olds[a + 1] && shrunk[b] == olds[b + 1]);
                }
            }
            assert forall|a: int|
                0 <= a < shrunk.len() implies 1 <= (#[trigger] shrunk[a]).node_id
                < self.next_node_id && shrunk[a].data.total_staked
                <= shrunk[a].data.delegation_contract_cap by {
                if a < p {
                    assert(shrunk[a] == olds[a]);
                } else {
                    assert(shrunk[a] == olds[a + 1]);
                }
            }
        }
        Ok(())
    }

    /// The greedy best-yield-first allocator: the first entry with room
    /// for `amount` more stake.
    pub fn get_delegation_contract_for_delegate(&self, amount_to_delegate: u64) -> (r: Result<
        u64,
        Error,
    >)
        requires
            self.wf(),
        ensures
            r is Ok <==> select_stake_pos(self.entries@, amount_to_delegate) != -1,
            r is Err ==> r == Err::<u64, Error>(Error::NoEligibleTarget),
            r is Ok ==> r.unwrap() == self.entries@[select_stake_pos(
                self.entries@,
                amount_to_delegate,
            )].address,
    {
        let mut i: usize = 0;
        while i < self.entries.len()
            invariant
                i <= self.entries@.len(),
                self.wf(),
                forall|j: int|
                    0 <= j < i ==> (#[trigger] self.entries@[j]).data.delegation_contract_cap
                        - self.entries@[j].data.total_staked < amount_to_delegate,
            decreases self.entries@.len() - i,
        {
            let e = self.entries[i];
            if e.data.delegation_contract_cap - e.data.total_staked >= amount_to_delegate {
                proof {
                    lemma_select_stake_at(self.entries@, amount_to_delegate, i as int);
                }
                return Ok(e.address);
            }
            i += 1;
        }
        proof {
            lemma_select_stake_pos(self.entries@, amount_to_delegate);
            if select_stake_pos(self.entries@, amount_to_delegate) != -1 {
                let w = select_stake_pos(self.entries@, amount_to_delegate);
                assert(self.entries@[w].data.delegation_contract_cap
                    - self.entries@[w].data.total_staked < amount_to_delegate);
            }
        }
        Err(Error::NoEligibleTarget)
    }

    /// The first entry holding at least `amount` of this ledger's stake.
    pub fn get_delegation_contract_for_undelegate(&self, amount_to_undelegate: u64) -> (r: Result<
        u64,
        Error,
    >)
        requires
            self.wf(),
        ensures
            r is Ok <==> select_unstake_pos(self.entries@, amount_to_undelegate) != -1,
            r is Err ==> r == Err::<u64, Error>(Error::NoEligibleTarget),
            r is Ok ==> r.unwrap() == self.entries@[select_unstake_pos(
                self.entries@,
                amount_to_undelegate,
            )].address,
    {
        let mut i: usize = 0;
        while i < self.entries.len()
            invariant
                i <= self.entries@.len(),
                self.wf(),
                forall|j: int|
                    0 <= j < i
                        ==> (#[trigger] self.entries@[j]).data.total_staked_from_ls_contract
                        < amount_to_undelegate,
            decreases self.entries@.len() - i,
        {
            let e = self.entries[i];
            if e.data.total_staked_from_ls_contract >= amount_to_undelegate {
                proof {
                    lemma_select_unstake_at(self.entries@, amount_to_undelegate, i as int);
                }
                return Ok(e.address);
            }
            i += 1;
        }
        proof {
            lemma_select_unstake_pos(self.entries@, amount_to_undelegate);
            if select_unstake_pos(self.entries@, amount_to_undelegate) != -1 {
                let w = select_unstake_pos(self.entries@, amount_to_undelegate);
                assert(self.entries@[w].data.total_staked_from_ls_contract < amount_to_undelegate);
            }
        }
        Err(Error::NoEligibleTarget)
    }

    /// The reward-claim cycle's current phase.
    pub fn get_delegation_status(&self) -> (r: ClaimStatusType)
        ensures
            r == self.claim_status.status,
    {
        self.claim_status.status
    }

    /// This ledger's staked amount at the contract (zero when unknown).
    pub fn get_delegation_contract_staked_amount(&self, delegation_address: u64) -> (r: u64)
        ensures
            r == data_of(self.entries@, delegation_address).total_staked_from_ls_contract,
    {
        match find_address(&self.entries, delegation_address) {
            Some(p) => self.entries[p].data.total_staked_from_ls_contract,
            None => 0,
        }
    }

    /// This ledger's unstaked amount at the contract (zero when unknown).
    pub fn get_delegation_contract_unstaked_amount(&self, delegation_address: u64) -> (r: u64)
        ensures
            r == data_of(self.entries@, delegation_address).total_unstaked_from_ls_contract,
    {
        match find_address(&self.entries, delegation_address) {
            Some(p) => self.entries[p].data.total_unstaked_from_ls_contract,
            None => 0,
        }
    }

    /// This ledger's unbonded amount at the contract (zero when unknown).
    pub fn get_delegation_contract_unbonded_amount(&self, delegation_address: u64) -> (r: u64)
        ensures
            r == data_of(self.entries@, delegation_address).total_unbonded_from_ls_contract,
    {
        match find_address(&self.entries, delegation_address) {
            Some(p) => self.entries[p].data.total_unbonded_from_ls_contract,
            None => 0,
        }
    }
}

/// Inserts the entry at the position the descending-yield rule assigns:
/// before the first entry whose yield does not exceed the new one, else
/// at the tail.
fn add_and_order_delegation_address_in_list(entries: &mut Vec<DirectoryEntry>, entry: DirectoryEntry)
    ensures
        final(entries)@ == old(entries)@.insert(
            insert_pos(old(entries)@, entry.data.apy),
            entry,
        ),
{
    let pos = find_insert_pos(entries, entry.data.apy);
    proof {
        lemma_insert_pos(entries@, entry.data.apy);
    }
    entries.insert(pos, entry);
}

/// The position the descending-yield rule assigns for this yield.
fn find_insert_pos(entries: &Vec<DirectoryEntry>, apy: u64) -> (r: usize)
    ensures
        r == insert_pos(entries@, apy),
{
    let mut i: usize = 0;
    while i < entries.len()
        invariant
            i <= entries.len(),
            forall|j: int| 0 <= j < i ==> (#[trigger] entries@[j]).data.apy > apy,
        decreases entries.len() - i,
    {
        if entries[i].data.apy <= apy {
            proof {
                lemma_insert_pos_at(entries@, apy, i as int);
            }
            return i;
        }
        i += 1;
    }
    proof {
        lemma_insert_pos_end(entries@, apy);
    }
    entries.len()
}

/// When no earlier entry's yield is low enough and entry `i`'s is, `i`
/// is the rule's position.
proof fn lemma_insert_pos_at(s: Seq<DirectoryEntry>, apy: u64, i: int)
    requires
        0 <= i < s.len(),
        s[i].data.apy <= apy,
        forall|j: int| 0 <= j < i ==> (#[trigger] s[j]).data.apy > apy,
    ensures
        insert_pos(s, apy) == i,
    decreases s.len(),
{
    if i > 0 {
        let tail = s.subrange(1, s.len() as int);
        assert forall|j: int| 0 <= j < i - 1 implies (#[trigger] tail[j]).data.apy > apy by {
            assert(tail[j] == s[j + 1]);
        }
        assert(tail[i - 1] == s[i]);
        lemma_insert_pos_at(tail, apy, i - 1);
    }
}

/// When every entry's yield is above the new one, the rule appends.
proof fn lemma_insert_pos_end(s: Seq<DirectoryEntry>, apy: u64)
    requires
        forall|j: int| 0 <= j < s.len() ==> (#[trigger] s[j]).data.apy > apy,
    ensures
        insert_pos(s, apy) == s.len(),
    decreases s.len(),
{
    if s.len() > 0 {
        let tail = s.subrange(1, s.len() as int);
        assert forall|j: int| 0 <= j < tail.len() implies (#[trigger] tail[j]).data.apy > apy by {
            assert(tail[j] == s[j + 1]);
        }
        lemma_insert_pos_end(tail, apy);
    }
}

/// Finds the (unique) entry for an address, scanning from the front.
pub(crate) fn find_address(entries: &Vec<DirectoryEntry>, a: u64) -> (r: Option<usize>)
    ensures
        match r {
            Some(i) => i < entries@.len() && entries@[i as int].address == a && addr_index(
                entries@,
                a,
            ) == i,
            None => !contains_address(entries@, a) && addr_index(entries@, a) == -1,
        },
{
    let mut i: usize = 0;
    while i < entries.len()
        invariant
            i <= entries.len(),
            forall|j: int| 0 <= j < i ==> (#[trigger] entries@[j]).address != a,
        decreases entries.len() - i,
    {
        if entries[i].address == a {
            proof {
                lemma_addr_index_at(entries@, a, i as int);
            }
            return Some(i);
        }
        i += 1;
    }
    proof {
        lemma_addr_index(entries@, a);
        if contains_address(entries@, a) {
            let w = choose|w: int| 0 <= w < entries@.len() && entries@[w].address == a;
            assert(entries@[w].address != a);
        }
    }
    None
}

proof fn lemma_addr_index_at(s: Seq<DirectoryEntry>, a: u64, i: int)
    requires
        0 <= i < s.len(),
        s[i].address == a,
        forall|j: int| 0 <= j < i ==> (#[trigger] s[j]).address != a,
    ensures
        addr_index(s, a) == i,
    decreases s.len(),
{
    if i > 0 {
        let tail = s.subrange(1, s.len() as int);
        assert forall|j: int| 0 <= j < i - 1 implies (#[trigger] tail[j]).address != a by {
            assert(tail[j] == s[j + 1]);
        }
        assert(tail[i - 1] == s[i]);
        lemma_addr_index_at(tail, a, i - 1);
    }
}

/// Case analysis for an element of `s.insert(p, e)`.
proof fn lemma_insert_index_cases(s: Seq<DirectoryEntry>, e: DirectoryEntry, p: int, i: int)
    requires
        0 <= p <= s.len(),
        0 <= i < s.len() + 1,
    ensures
        s.insert(p, e)[i] == if i < p {
            s[i]
        } else if i == p {
            e
        } else {
            s[i - 1]
        },
{
}

proof fn lemma_insert_distinct_addr(
    s: Seq<DirectoryEntry>,
    e: DirectoryEntry,
    p: int,
    i: int,
    j: int,
)
    requires
        0 <= p <= s.len(),
        0 <= i < j < s.len() + 1,
        forall|a: int, b: int| 0 <= a < b < s.len() ==> s[a].address != s[b].address,
        forall|a: int| 0 <= a < s.len() ==> (#[trigger] s[a]).address != e.address,
    ensures
        s.insert(p, e)[i].address != s.insert(p, e)[j].address,
{
    lemma_insert_index_cases(s, e, p, i);
    lemma_insert_index_cases(s, e, p, j);
}

proof fn lemma_insert_distinct_node(
    s: Seq<DirectoryEntry>,
    e: DirectoryEntry,
    p: int,
    i: int,
    j: int,
    fresh: u32,
)
    requires
        0 <= p <= s.len(),
        0 <= i < j < s.len() + 1,
        forall|a: int, b: int| 0 <= a < b < s.len() ==> s[a].node_id != s[b].node_id,
        forall|a: int| 0 <= a < s.len() ==> (#[trigger] s[a]).node_id < fresh,
        e.node_id == fresh,
    ensures
        s.insert(p, e)[i].node_id != s.insert(p, e)[j].node_id,
{
    lemma_insert_index_cases(s, e, p, i);
    lemma_insert_index_cases(s, e, p, j);
}

/// Gates a sweep invocation: the sweep at hand must be new or pending,
/// the stored cycle must have ended in redelegation or insufficiency,
/// and the epoch must have moved on.
pub fn check_claim_operation(
    current_claim_status: &ClaimStatus,
    old_claim_status: &ClaimStatus,
    current_epoch: Epoch,
) -> (r: Result<(), Error>)
    ensures
        r is Ok <==> (current_claim_status.status == ClaimStatusType::NotStarted
            || current_claim_status.status == ClaimStatusType::Pending) && (
        old_claim_status.status == ClaimStatusType::Redelegated || old_claim_status.status
            == ClaimStatusType::Insufficient) && current_epoch > old_claim_status.last_claim_epoch,
        r is Err ==> r == Err::<(), Error>(Error::PreconditionFailed),
{
    if !(current_claim_status.status == ClaimStatusType::NotStarted || current_claim_status.status
        == ClaimStatusType::Pending) {
        return Err(Error::PreconditionFailed);
    }
    if !(old_claim_status.status == ClaimStatusType::Redelegated || old_claim_status.status
        == ClaimStatusType::Insufficient) {
        return Err(Error::PreconditionFailed);
    }
    if !(current_epoch > old_claim_status.last_claim_epoch) {
        return Err(Error::PreconditionFailed);
    }
    Ok(())
}

proof fn lemma_update_same_shape(olds: Seq<DirectoryEntry>, news: Seq<DirectoryEntry>, p: int)
    requires
        0 <= p < olds.len(),
        news == olds.update(p, news[p]),
        news[p].node_id == olds[p].node_id,
        news[p].address == olds[p].address,
        news[p].data.total_staked <= news[p].data.delegation_contract_cap
            || (news[p].data.total_staked == olds[p].data.total_staked
            && news[p].data.delegation_contract_cap == olds[p].data.delegation_contract_cap),
    ensures
        forall|j: int| 0 <= j < news.len() && j != p ==> news[j] == olds[j],
{
}

proof fn lemma_select_stake_at(s: Seq<DirectoryEntry>, amount: u64, i: int)
    requires
        0 <= i < s.len(),
        s[i].data.delegation_contract_cap - s[i].data.total_staked >= amount,
        s[i].data.total_staked <= s[i].data.delegation_contract_cap,
        forall|j: int|
            0 <= j < i ==> (#[trigger] s[j]).data.delegation_contract_cap - s[j].data.total_staked
                < amount,
    ensures
        select_stake_pos(s, amount) == i,
    decreases s.len(),
{
    if i > 0 {
        let tail = s.subrange(1, s.len() as int);
        assert forall|j: int|
            0 <= j < i - 1 implies (#[trigger] tail[j]).data.delegation_contract_cap
            - tail[j].data.total_staked < amount by {
            assert(tail[j] == s[j + 1]);
        }
        assert(tail[i - 1] == s[i]);
        lemma_select_stake_at(tail, amount, i - 1);
    }
}

proof fn lemma_select_unstake_at(s: Seq<DirectoryEntry>, amount: u64, i: int)
    requires
        0 <= i < s.len(),
        s[i].data.total_staked_from_ls_contract >= amount,
        forall|j: int|
            0 <= j < i ==> (#[trigger] s[j]).data.total_staked_from_ls_contract < amount,
    ensures
        select_unstake_pos(s, amount) == i,
    decreases s.len(),
{
    if i > 0 {
        let tail = s.subrange(1, s.len() as int);
        assert forall|j: int|
            0 <= j < i - 1 implies (#[trigger] tail[j]).data.total_staked_from_ls_contract
            < amount by {
            assert(tail[j] == s[j + 1]);
        }
        assert(tail[i - 1] == s[i]);
        lemma_select_unstake_at(tail, amount, i - 1);
    }
}

} // verus!
