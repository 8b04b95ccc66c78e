//! A group of processes sharing one executable name: its per-pid map and
//! its running totals.

use vstd::prelude::*;
use std::collections::HashMap;

use crate::memory::MemTotals;
use crate::memory::MemoryUsage;

verus! {

broadcast use vstd::std_specs::hash::group_hash_axioms;

/// The field-wise sum of all values of a finite map, the mathematical
/// quantity that a group's running totals must always equal.
pub open spec fn sum_map(m: Map<i32, MemoryUsage>) -> MemTotals
    decreases m.dom().len(),
{
    if m.dom().finite() && m.dom().len() > 0 {
        let k = m.dom().choose();
        sum_map(m.remove(k)).combine(m[k]@)
    } else {
        MemTotals::zero()
    }
}

/// The sum of an empty map is the identity.
pub proof fn lemma_sum_map_empty()
    ensures
        sum_map(Map::<i32, MemoryUsage>::empty()) == MemTotals::zero(),
{
    assert(Map::<i32, MemoryUsage>::empty().dom().len() == 0);
}

/// Splitting off any one entry splits the sum: the sum of a map is the sum
/// without one of its keys, combined with that key's value.
pub proof fn lemma_sum_map_remove(m: Map<i32, MemoryUsage>, k: i32)
    requires
        m.dom().finite(),
        m.contains_key(k),
    ensures
        sum_map(m) == sum_map(m.remove(k)).combine(m[k]@),
    decreases m.dom().len(),
{
    let k0 = m.dom().choose();
    assert(m.dom().len() > 0);
    if k0 == k {
    } else {
        let m0 = m.remove(k0);
        assert(m0.contains_key(k));
        lemma_sum_map_remove(m0, k);
        let mk = m.remove(k);
        assert(mk.contains_key(k0));
        lemma_sum_map_remove(mk, k0);
        assert(m0.remove(k) =~= mk.remove(k0));
        assert(sum_map(m) == sum_map(m0.remove(k)).combine(m[k]@).combine(m[k0]@));
        assert(sum_map(mk).combine(m[k]@) == sum_map(m0.remove(k)).combine(m[k0]@).combine(
            m[k]@,
        ));
        assert(sum_map(m0.remove(k)).combine(m[k]@).combine(m[k0]@) == sum_map(
            m0.remove(k),
        ).combine(m[k0]@).combine(m[k]@));
    }
}

/// Inserting a value makes the sum the sum without that key, combined with
/// the new value; on a fresh key the sum simply grows by the new value.
pub proof fn lemma_sum_map_insert(m: Map<i32, MemoryUsage>, k: i32, v: MemoryUsage)
    requires
        m.dom().finite(),
    ensures
        sum_map(m.insert(k, v)) == sum_map(m.remove(k)).combine(v@),
        !m.contains_key(k) ==> sum_map(m.insert(k, v)) == sum_map(m).combine(v@),
{
    let mi = m.insert(k, v);
    lemma_sum_map_remove(mi, k);
    assert(mi.remove(k) =~= m.remove(k));
    if !m.contains_key(k) {
        assert(m.remove(k) =~= m);
    }
}

/// Every field of a sum of usage records is non-negative.
pub proof fn lemma_sum_map_nonneg(m: Map<i32, MemoryUsage>)
    requires
        m.dom().finite(),
    ensures
        sum_map(m).memory >= 0,
        sum_map(m).resident >= 0,
        sum_map(m).shared >= 0,
    decreases m.dom().len(),
{
    if m.dom().len() > 0 {
        let k = m.dom().choose();
        lemma_sum_map_nonneg(m.remove(k));
    }
}

/// A sum of well-formed usage records is itself well-formed: its shared
/// figure stays below its resident figure and its memory figure is exactly
/// their difference.
pub proof fn lemma_sum_map_wf(m: Map<i32, MemoryUsage>)
    requires
        m.dom().finite(),
        forall|k: i32| m.contains_key(k) ==> m[k].wf(),
    ensures
        sum_map(m).wf(),
    decreases m.dom().len(),
{
    if m.dom().len() > 0 {
        let k = m.dom().choose();
        lemma_sum_map_wf(m.remove(k));
        assert(m[k].wf());
    }
}

/// Per-process memory usage for the processes behind one executable name,
/// with a running total over all of them.
#[derive(Debug, Clone)]
pub struct ProcessGroups {
    /// PID to memory usage mapping.
    pid_to_usage: HashMap<i32, MemoryUsage>,
    /// Total memory usage over all PIDs in the map.
    usage_totals: MemoryUsage,
}

impl View for ProcessGroups {
    type V = Map<i32, MemoryUsage>;

    closed spec fn view(&self) -> Map<i32, MemoryUsage> {
        self.pid_to_usage@
    }
}

impl ProcessGroups {
    /// The group's invariant: the stored totals equal the sum of the map's
    /// values, and every stored record is well-formed.
    pub closed spec fn wf(self) -> bool {
        &&& self.pid_to_usage@.dom().finite()
        &&& self.usage_totals@ == sum_map(self.pid_to_usage@)
        &&& forall|k: i32| self.pid_to_usage@.contains_key(k) ==> self.pid_to_usage@[k].wf()
    }

    /// The domain of a group's map is always finite.
    pub proof fn lemma_wf_finite(&self)
        requires
            self.wf(),
        ensures
            self@.dom().finite(),
            forall|k: i32| self@.contains_key(k) ==> self@[k].wf(),
    {
    }

    /// An empty group: no pids, zero totals.
    pub fn new() -> (r: ProcessGroups)
        ensures
            r@ == Map::<i32, MemoryUsage>::empty(),
            r.wf(),
    {
        let r = ProcessGroups {
            pid_to_usage: HashMap::new(),
            usage_totals: MemoryUsage::default(),
        };
        proof {
            lemma_sum_map_empty();
        }
        r
    }

    /// PID to memory usage mapping.
    pub fn pid_to_usage(&self) -> (r: &HashMap<i32, MemoryUsage>)
        ensures
            r@ == self@,
    {
        &self.pid_to_usage
    }

    /// Total memory usage for all PIDs: always the sum of the map's values,
    /// and itself a well-formed usage record.
    pub fn usage_totals(&self) -> (r: MemoryUsage)
        requires
            self.wf(),
        ensures
            r@ == sum_map(self@),
            r.wf(),
    {
        proof {
            lemma_sum_map_wf(self@);
        }
        self.usage_totals
    }

    /// Records one process's usage under its pid and grows the totals by the
    /// same amount. If the pid was already present the old entry is replaced
    /// and the totals are adjusted so that they keep equalling the sum of the
    /// map — the last write wins, and nothing is ever double-counted.
    pub fn add_usage(&mut self, pid: i32, usage: MemoryUsage)
        requires
            old(self).wf(),
            usage.wf(),
            sum_map(old(self)@.insert(pid, usage)).resident <= u64::MAX,
        ensures
            final(self).wf(),
            final(self)@ == old(self)@.insert(pid, usage),
    {
        proof {
            lemma_sum_map_insert(old(self)@, pid, usage);
            lemma_sum_map_nonneg(old(self)@.remove(pid));
            assert forall|k: i32| old(self)@.insert(pid, usage).contains_key(k) implies old(
                self,
            )@.insert(pid, usage)[k].wf() by {}
            lemma_sum_map_wf(old(self)@.insert(pid, usage));
        }
        let prev = self.pid_to_usage.insert(pid, usage);
        match prev {
            None => {
                self.usage_totals = self.usage_totals.add(usage);
            },
            Some(old_usage) => {
                proof {
                    lemma_sum_map_remove(old(self)@, pid);
                }
                let totals = self.usage_totals;
                self.usage_totals = MemoryUsage {
                    memory: totals.memory - old_usage.memory + usage.memory,
                    resident: totals.resident - old_usage.resident + usage.resident,
                    shared: totals.shared - old_usage.shared + usage.shared,
                };
            },
        }
    }
}

impl Default for ProcessGroups {
    /// Same as [`ProcessGroups::new`]: an empty group.
    fn default() -> (r: ProcessGroups)
        ensures
            r@ == Map::<i32, MemoryUsage>::empty(),
            r.wf(),
    {
        ProcessGroups::new()
    }
}

} // verus!
