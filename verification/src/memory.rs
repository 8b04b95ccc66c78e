//! The memory-usage value type and its arithmetic.

use vstd::prelude::*;

verus! {

/// Memory figures of one process, or the totals of one group, in kilobytes.
///
/// A well-formed value satisfies `shared <= resident` and
/// `memory == resident - shared`; see [`MemoryUsage::wf`].
#[derive(Debug, Clone, Copy)]
pub struct MemoryUsage {
    /// Private resident memory, `resident - shared`, in kB.
    pub memory: u64,
    /// Resident set size in kB.
    pub resident: u64,
    /// Resident memory shared with other processes, in kB.
    pub shared: u64,
}

/// The mathematical counterpart of [`MemoryUsage`]: the same three figures
/// as unbounded integers, so that sums never wrap.
pub struct MemTotals {
    pub memory: int,
    pub resident: int,
    pub shared: int,
}

impl MemTotals {
    /// The identity element of [`MemTotals::combine`]: all figures zero.
    pub open spec fn zero() -> MemTotals {
        MemTotals { memory: 0, resident: 0, shared: 0 }
    }

    /// Field-wise addition; total, associative and commutative over `int`.
    pub open spec fn combine(self, other: MemTotals) -> MemTotals {
        MemTotals {
            memory: self.memory + other.memory,
            resident: self.resident + other.resident,
            shared: self.shared + other.shared,
        }
    }

    /// Well-formedness of the figures: the derived field is consistent and
    /// nothing is negative.
    pub open spec fn wf(self) -> bool {
        &&& 0 <= self.shared <= self.resident
        &&& self.memory == self.resident - self.shared
    }
}

impl View for MemoryUsage {
    type V = MemTotals;

    open spec fn view(&self) -> MemTotals {
        MemTotals {
            memory: self.memory as int,
            resident: self.resident as int,
            shared: self.shared as int,
        }
    }
}

impl MemoryUsage {
    /// The invariant of a usage record: shared memory never exceeds resident
    /// memory, and `memory` is exactly the private remainder.
    pub open spec fn wf(self) -> bool {
        self@.wf()
    }

    /// Builds a usage record from kernel-reported resident and shared sizes.
    ///
    /// A record whose shared size exceeds its resident size is inconsistent
    /// input and is rejected with `None` rather than wrapped silently.
    pub fn new(resident: u64, shared: u64) -> (r: Option<MemoryUsage>)
        ensures
            r is Some <==> shared <= resident,
            r is Some ==> r.unwrap()@ == (MemTotals {
                memory: resident - shared,
                resident: resident as int,
                shared: shared as int,
            }),
            r is Some ==> r.unwrap().wf(),
    {
        if shared <= resident {
            Some(MemoryUsage { memory: resident - shared, resident, shared })
        } else {
            None
        }
    }

    /// Field-wise addition of two usage records.
    pub fn add(self, other: MemoryUsage) -> (r: MemoryUsage)
        requires
            self@.combine(other@).memory <= u64::MAX,
            self@.combine(other@).resident <= u64::MAX,
            self@.combine(other@).shared <= u64::MAX,
        ensures
            r@ == self@.combine(other@),
    {
        MemoryUsage {
            memory: self.memory + other.memory,
            resident: self.resident + other.resident,
            shared: self.shared + other.shared,
        }
    }
}

/// The field-wise sum of a sequence of usage records, folded left to right.
pub open spec fn sum_usage_seq(s: Seq<MemoryUsage>) -> MemTotals
    decreases s.len(),
{
    if s.len() == 0 {
        MemTotals::zero()
    } else {
        sum_usage_seq(s.drop_last()).combine(s.last()@)
    }
}

/// Combination is commutative.
pub proof fn lemma_combine_commutative(a: MemTotals, b: MemTotals)
    ensures
        a.combine(b) == b.combine(a),
{
}

/// Combination is associative.
pub proof fn lemma_combine_associative(a: MemTotals, b: MemTotals, c: MemTotals)
    ensures
        a.combine(b).combine(c) == a.combine(b.combine(c)),
{
}

/// The all-zero totals are the identity of combination.
pub proof fn lemma_combine_identity(a: MemTotals)
    ensures
        a.combine(MemTotals::zero()) == a,
        MemTotals::zero().combine(a) == a,
{
}

/// Summing may be grouped freely: the sum of two sequences laid end to end
/// is the combination of their sums.
pub proof fn lemma_sum_seq_append(s1: Seq<MemoryUsage>, s2: Seq<MemoryUsage>)
    ensures
        sum_usage_seq(s1 + s2) == sum_usage_seq(s1).combine(sum_usage_seq(s2)),
    decreases s2.len(),
{
    if s2.len() == 0 {
        assert(s1 + s2 =~= s1);
    } else {
        assert((s1 + s2).drop_last() =~= s1 + s2.drop_last());
        assert((s1 + s2).last() == s2.last());
        lemma_sum_seq_append(s1, s2.drop_last());
    }
}

/// Splitting off any one element splits the sum.
pub proof fn lemma_sum_seq_remove(s: Seq<MemoryUsage>, j: int)
    requires
        0 <= j < s.len(),
    ensures
        sum_usage_seq(s) == sum_usage_seq(s.remove(j)).combine(s[j]@),
    decreases s.len(),
{
    if j == s.len() - 1 {
        assert(s.remove(j) =~= s.drop_last());
    } else {
        assert(s.remove(j).drop_last() =~= s.drop_last().remove(j));
        assert(s.remove(j).last() == s.last());
        lemma_sum_seq_remove(s.drop_last(), j);
    }
}

/// Summing is independent of order: two sequences holding the same
/// multiset of usage records have the same sum.
pub proof fn lemma_sum_seq_permutation(s1: Seq<MemoryUsage>, s2: Seq<MemoryUsage>)
    requires
        s1.to_multiset() == s2.to_multiset(),
    ensures
        sum_usage_seq(s1) == sum_usage_seq(s2),
    decreases s1.len(),
{
    broadcast use vstd::seq_lib::group_to_multiset_ensures;

    if s1.len() == 0 {
        assert(s2.to_multiset().len() == 0);
    } else {
        let x = s1.last();
        assert(s1.contains(x));
        assert(s2.to_multiset().count(x) > 0);
        assert(s2.contains(x));
        let j = choose|j: int| 0 <= j < s2.len() && s2[j] == x;
        assert(s1.drop_last() =~= s1.remove(s1.len() - 1));
        assert(s1.drop_last().to_multiset() =~= s1.to_multiset().remove(x));
        assert(s2.remove(j).to_multiset() =~= s2.to_multiset().remove(x));
        lemma_sum_seq_permutation(s1.drop_last(), s2.remove(j));
        lemma_sum_seq_remove(s2, j);
    }
}

impl MemoryUsage {
    /// Field-wise sum of a collection of usage records. The bounds keep the
    /// running total within `u64`; they are the sums over the whole input,
    /// so any prefix fits as well.
    pub fn sum(items: &Vec<MemoryUsage>) -> (r: MemoryUsage)
        requires
            sum_usage_seq(items@).memory <= u64::MAX,
            sum_usage_seq(items@).resident <= u64::MAX,
            sum_usage_seq(items@).shared <= u64::MAX,
        ensures
            r@ == sum_usage_seq(items@),
    {
        let mut acc = MemoryUsage::default();
        let mut i: usize = 0;
        while i < items.len()
            invariant
                0 <= i <= items@.len(),
                acc@ == sum_usage_seq(items@.take(i as int)),
                sum_usage_seq(items@).memory <= u64::MAX,
                sum_usage_seq(items@).resident <= u64::MAX,
                sum_usage_seq(items@).shared <= u64::MAX,
            decreases items@.len() - i,
        {
            proof {
                assert(items@.take(i as int + 1).drop_last() =~= items@.take(i as int));
                assert(items@.take(i as int + 1).last() == items@[i as int]);
                lemma_sum_seq_take_le(items@, i as int + 1);
            }
            acc = acc.add(items[i]);
            i += 1;
        }
        proof {
            assert(items@.take(items@.len() as int) =~= items@);
        }
        acc
    }
}

/// The sum of a prefix never exceeds the sum of the whole, field by field.
pub proof fn lemma_sum_seq_take_le(s: Seq<MemoryUsage>, i: int)
    requires
        0 <= i <= s.len(),
    ensures
        sum_usage_seq(s.take(i)).memory <= sum_usage_seq(s).memory,
        sum_usage_seq(s.take(i)).resident <= sum_usage_seq(s).resident,
        sum_usage_seq(s.take(i)).shared <= sum_usage_seq(s).shared,
    decreases s.len() - i,
{
    if i == s.len() {
        assert(s.take(i) =~= s);
    } else {
        lemma_sum_seq_take_le(s, i + 1);
        assert(s.take(i + 1).drop_last() =~= s.take(i));
        assert(s.take(i + 1).last() == s[i]);
    }
}

impl Default for MemoryUsage {
    /// The all-zero usage record, the identity of [`MemoryUsage::add`].
    fn default() -> (r: MemoryUsage)
        ensures
            r@ == MemTotals::zero(),
    {
        MemoryUsage { memory: 0, resident: 0, shared: 0 }
    }
}

} // verus!
