//! Folding a sequence of per-process records into groups keyed by
//! executable basename.

use vstd::prelude::*;

use crate::groups::lemma_sum_map_insert;
use crate::groups::lemma_sum_map_nonneg;
use crate::groups::lemma_sum_map_remove;
use crate::groups::sum_map;
use crate::groups::ProcessGroups;
use crate::memory::MemoryUsage;

verus! {

/// One process as the snapshot source reports it: its pid, the basename of
/// its executable as raw bytes (basenames are OS-level strings and need not
/// be valid text), and its resident and shared sizes in kilobytes.
pub struct ProcessRecord {
    /// Process identifier.
    pub pid: i32,
    /// Executable basename, an opaque byte string.
    pub name: Vec<u8>,
    /// Resident set size in kB.
    pub resident: u64,
    /// Resident memory shared with other processes, in kB.
    pub shared: u64,
}

impl ProcessRecord {
    /// A record is consistent when its shared size does not exceed its
    /// resident size; anything else is a malformed kernel read and is
    /// skipped by the aggregator.
    pub open spec fn valid(self) -> bool {
        self.shared <= self.resident
    }

    /// The usage record a valid process record turns into.
    pub open spec fn spec_usage(self) -> MemoryUsage {
        MemoryUsage {
            memory: (self.resident - self.shared) as u64,
            resident: self.resident,
            shared: self.shared,
        }
    }
}

/// Whether a snapshot entry carries a complete, consistent record; absent
/// or inconsistent entries contribute nothing to any group.
pub open spec fn is_valid_entry(rec: Option<ProcessRecord>) -> bool {
    match rec {
        Some(r) => r.valid(),
        None => false,
    }
}

/// The groups that a sequence of snapshot entries folds into, processed
/// left to right: an absent or inconsistent entry is skipped, and a valid
/// record is inserted into the group of its basename, where the last write
/// for a pid wins.
pub open spec fn aggregate_spec(s: Seq<Option<ProcessRecord>>) -> Map<
    Seq<u8>,
    Map<i32, MemoryUsage>,
>
    decreases s.len(),
{
    if s.len() == 0 {
        Map::empty()
    } else {
        let prev = aggregate_spec(s.drop_last());
        if is_valid_entry(s.last()) {
            let r = s.last().unwrap();
            let g = if prev.contains_key(r.name@) {
                prev[r.name@]
            } else {
                Map::empty()
            };
            prev.insert(r.name@, g.insert(r.pid, r.spec_usage()))
        } else {
            prev
        }
    }
}

/// The total resident kilobytes that the valid entries of a snapshot carry;
/// every group total stays below this figure, so it bounds the arithmetic
/// of the whole aggregation.
pub open spec fn records_resident_sum(s: Seq<Option<ProcessRecord>>) -> int
    decreases s.len(),
{
    if s.len() == 0 {
        0int
    } else {
        records_resident_sum(s.drop_last()) + if is_valid_entry(s.last()) {
            s.last().unwrap().resident as int
        } else {
            0int
        }
    }
}

/// Aggregating zero records yields no groups.
pub proof fn lemma_aggregate_empty(s: Seq<Option<ProcessRecord>>)
    requires
        s.len() == 0,
    ensures
        aggregate_spec(s) == Map::<Seq<u8>, Map<i32, MemoryUsage>>::empty(),
{
}

/// An absent or inconsistent entry contributes nothing: appending it leaves
/// every group, and so every total, exactly as it was.
pub proof fn lemma_skip_contributes_nothing(
    s: Seq<Option<ProcessRecord>>,
    rec: Option<ProcessRecord>,
)
    requires
        !is_valid_entry(rec),
    ensures
        aggregate_spec(s.push(rec)) == aggregate_spec(s),
{
    assert(s.push(rec).drop_last() =~= s);
}

/// Appending one more entry never removes a group, nor a pid from a group.
pub proof fn lemma_aggregate_preserves(s: Seq<Option<ProcessRecord>>, rec: Option<ProcessRecord>)
    ensures
        forall|n: Seq<u8>|
            aggregate_spec(s).contains_key(n) ==> #[trigger] aggregate_spec(
                s.push(rec),
            ).contains_key(n),
        forall|n: Seq<u8>, p: i32|
            aggregate_spec(s).contains_key(n) && #[trigger] aggregate_spec(s)[n].contains_key(p)
                ==> aggregate_spec(s.push(rec)).contains_key(n) && #[trigger] aggregate_spec(
                s.push(rec),
            )[n].contains_key(p),
{
    assert(s.push(rec).drop_last() =~= s);
    assert(s.push(rec).last() == rec);
}

/// The total resident figure of a snapshot is never negative.
pub proof fn lemma_rsum_nonneg(s: Seq<Option<ProcessRecord>>)
    ensures
        records_resident_sum(s) >= 0,
    decreases s.len(),
{
    if s.len() > 0 {
        lemma_rsum_nonneg(s.drop_last());
    }
}

/// A prefix of a snapshot carries at most the resident total of the whole.
pub proof fn lemma_rsum_take_le(s: Seq<Option<ProcessRecord>>, i: int)
    requires
        0 <= i <= s.len(),
    ensures
        records_resident_sum(s.take(i)) <= records_resident_sum(s),
    decreases s.len() - i,
{
    if i == s.len() {
        assert(s.take(i) =~= s);
    } else {
        lemma_rsum_take_le(s, i + 1);
        assert(s.take(i + 1).drop_last() =~= s.take(i));
        assert(s.take(i + 1).last() == s[i]);
    }
}

/// Every valid record lands in the group of its basename: the group exists
/// and the record's pid appears in it. Two valid records with the same
/// basename therefore share one group, with both pids present, and two
/// valid records with different basenames sit under different keys.
pub proof fn lemma_record_lands_in_its_group(s: Seq<Option<ProcessRecord>>, i: int)
    requires
        0 <= i < s.len(),
        is_valid_entry(s[i]),
    ensures
        aggregate_spec(s).contains_key(s[i].unwrap().name@),
        aggregate_spec(s)[s[i].unwrap().name@].contains_key(s[i].unwrap().pid),
    decreases s.len(),
{
    if i == s.len() - 1 {
        assert(s.drop_last().push(s.last()) =~= s);
    } else {
        lemma_record_lands_in_its_group(s.drop_last(), i);
        lemma_aggregate_preserves(s.drop_last(), s.last());
        assert(s.drop_last().push(s.last()) =~= s);
    }
}

/// Every usage record found in an aggregated snapshot is well-formed: its
/// memory figure is exactly its resident figure minus its shared figure,
/// and so never negative.
pub proof fn lemma_aggregated_usages_wf(s: Seq<Option<ProcessRecord>>, n: Seq<u8>, p: i32)
    requires
        aggregate_spec(s).contains_key(n),
        aggregate_spec(s)[n].contains_key(p),
    ensures
        aggregate_spec(s)[n][p].wf(),
    decreases s.len(),
{
    if s.len() == 0 {
    } else {
        let prev = aggregate_spec(s.drop_last());
        if is_valid_entry(s.last()) {
            let r = s.last().unwrap();
            if n == r.name@ && p == r.pid {
                assert(aggregate_spec(s)[n][p] == r.spec_usage());
            } else if n == r.name@ {
                if prev.contains_key(n) {
                    lemma_aggregated_usages_wf(s.drop_last(), n, p);
                }
            } else {
                lemma_aggregated_usages_wf(s.drop_last(), n, p);
            }
        } else {
            lemma_aggregated_usages_wf(s.drop_last(), n, p);
        }
    }
}

/// Whether some entry of the association list carries the given basename.
spec fn has_name(es: Seq<(Vec<u8>, ProcessGroups)>, n: Seq<u8>) -> bool {
    exists|i: int| 0 <= i < es.len() && es[i].0@ == n
}

/// The index of the entry carrying the given basename; meaningful only
/// under `has_name` and distinct names.
spec fn name_index(es: Seq<(Vec<u8>, ProcessGroups)>, n: Seq<u8>) -> int {
    choose|i: int| 0 <= i < es.len() && es[i].0@ == n
}

/// No two entries share a basename.
spec fn entries_distinct(es: Seq<(Vec<u8>, ProcessGroups)>) -> bool {
    forall|i: int, j: int| 0 <= i < j < es.len() ==> es[i].0@ != es[j].0@
}

/// Every entry's group satisfies its own invariant.
spec fn entries_wf(es: Seq<(Vec<u8>, ProcessGroups)>) -> bool {
    forall|i: int| 0 <= i < es.len() ==> (#[trigger] es[i].1).wf()
}

/// The mapping from basename to group contents that the association list
/// denotes.
spec fn entries_map(es: Seq<(Vec<u8>, ProcessGroups)>) -> Map<Seq<u8>, Map<i32, MemoryUsage>> {
    Map::new(|n: Seq<u8>| has_name(es, n), |n: Seq<u8>| es[name_index(es, n)].1@)
}

proof fn lemma_entries_map_empty(es: Seq<(Vec<u8>, ProcessGroups)>)
    requires
        es.len() == 0,
    ensures
        entries_map(es) == Map::<Seq<u8>, Map<i32, MemoryUsage>>::empty(),
{
    assert(entries_map(es) =~= Map::<Seq<u8>, Map<i32, MemoryUsage>>::empty());
}

/// With distinct names, the entry found for a name is the unique one.
proof fn lemma_name_index_unique(es: Seq<(Vec<u8>, ProcessGroups)>, n: Seq<u8>)
    requires
        entries_distinct(es),
        has_name(es, n),
    ensures
        0 <= name_index(es, n) < es.len(),
        es[name_index(es, n)].0@ == n,
        forall|i: int| 0 <= i < es.len() && es[i].0@ == n ==> i == name_index(es, n),
{
    let ix = name_index(es, n);
    assert(0 <= ix < es.len() && es[ix].0@ == n);
    assert forall|i: int| 0 <= i < es.len() && es[i].0@ == n implies i == ix by {
        if i < ix {
            assert(es[i].0@ != es[ix].0@);
        } else if ix < i {
            assert(es[ix].0@ != es[i].0@);
        }
    }
}

/// Each entry appears in the denoted map under its own name.
proof fn lemma_entries_map_index(es: Seq<(Vec<u8>, ProcessGroups)>, j: int)
    requires
        entries_distinct(es),
        0 <= j < es.len(),
    ensures
        entries_map(es).contains_key(es[j].0@),
        entries_map(es)[es[j].0@] == es[j].1@,
{
    assert(has_name(es, es[j].0@));
    lemma_name_index_unique(es, es[j].0@);
}

/// Replacing one entry's group rewrites exactly that name's value in the
/// denoted map.
proof fn lemma_entries_map_update(es: Seq<(Vec<u8>, ProcessGroups)>, j: int, g2: ProcessGroups)
    requires
        entries_distinct(es),
        0 <= j < es.len(),
    ensures
        entries_distinct(es.update(j, (es[j].0, g2))),
        entries_map(es.update(j, (es[j].0, g2))) == entries_map(es).insert(es[j].0@, g2@),
{
    let es2 = es.update(j, (es[j].0, g2));
    assert(forall|i: int| 0 <= i < es.len() ==> es2[i].0 == es[i].0);
    let m2 = entries_map(es2);
    let m1 = entries_map(es).insert(es[j].0@, g2@);
    assert forall|n: Seq<u8>| has_name(es2, n) <==> has_name(es, n) by {
        if has_name(es2, n) {
            let i = choose|i: int| 0 <= i < es2.len() && es2[i].0@ == n;
            assert(es[i].0@ == n);
        }
        if has_name(es, n) {
            let i = choose|i: int| 0 <= i < es.len() && es[i].0@ == n;
            assert(es2[i].0@ == n);
        }
    }
    assert forall|n: Seq<u8>| m2.contains_key(n) implies m2[n] == m1[n] by {
        lemma_name_index_unique(es2, n);
        lemma_name_index_unique(es, n);
        let ix = name_index(es2, n);
        assert(es[ix].0@ == n);
        assert(name_index(es, n) == ix);
        if n == es[j].0@ {
            assert(ix == j);
        } else {
            assert(ix != j);
            assert(es2[ix].1 == es[ix].1);
        }
    }
    assert(m2 =~= m1);
}

/// Appending an entry under a fresh name adds exactly that name to the
/// denoted map.
proof fn lemma_entries_map_push(es: Seq<(Vec<u8>, ProcessGroups)>, name: Vec<u8>, g: ProcessGroups)
    requires
        entries_distinct(es),
        !has_name(es, name@),
    ensures
        entries_distinct(es.push((name, g))),
        entries_map(es.push((name, g))) == entries_map(es).insert(name@, g@),
{
    let es2 = es.push((name, g));
    assert(forall|i: int| 0 <= i < es.len() ==> es2[i] == es[i]);
    assert(es2[es.len() as int].0@ == name@);
    assert forall|i: int, j: int| 0 <= i < j < es2.len() implies es2[i].0@ != es2[j].0@ by {
        if j < es.len() {
            assert(es[i].0@ != es[j].0@);
        } else {
            assert(es2[i].0@ == es[i].0@);
            assert(has_name(es, es[i].0@));
        }
    }
    let m2 = entries_map(es2);
    let m1 = entries_map(es).insert(name@, g@);
    assert forall|n: Seq<u8>| m2.contains_key(n) <==> m1.contains_key(n) by {
        if has_name(es2, n) {
            let i = choose|i: int| 0 <= i < es2.len() && es2[i].0@ == n;
            if i < es.len() {
                assert(has_name(es, n));
            } else {
                assert(n == name@);
            }
        }
        if has_name(es, n) {
            let i = choose|i: int| 0 <= i < es.len() && es[i].0@ == n;
            assert(es2[i].0@ == n);
        }
        assert(has_name(es2, name@));
    }
    assert forall|n: Seq<u8>| m2.contains_key(n) implies m2[n] == m1[n] by {
        lemma_name_index_unique(es2, n);
        let ix = name_index(es2, n);
        if n == name@ {
            assert(ix == es.len());
        } else {
            assert(ix < es.len());
            assert(has_name(es, n));
            lemma_name_index_unique(es, n);
            assert(name_index(es, n) == ix);
        }
    }
    assert(m2 =~= m1);
}

/// Byte-wise equality of two byte strings.
fn bytes_eq(a: &Vec<u8>, b: &Vec<u8>) -> (r: bool)
    ensures
        r <==> a@ == b@,
{
    if a.len() != b.len() {
        return false;
    }
    let mut i: usize = 0;
    while i < a.len()
        invariant
            a@.len() == b@.len(),
            0 <= i <= a@.len(),
            forall|k: int| 0 <= k < i ==> a@[k] == b@[k],
        decreases a@.len() - i,
    {
        if a[i] != b[i] {
            return false;
        }
        i += 1;
    }
    proof {
        assert(a@ =~= b@);
    }
    true
}

/// An owned copy of a byte string.
pub(crate) fn copy_bytes(a: &Vec<u8>) -> (r: Vec<u8>)
    ensures
        r@ == a@,
{
    let mut r: Vec<u8> = Vec::new();
    let mut i: usize = 0;
    while i < a.len()
        invariant
            0 <= i <= a@.len(),
            r@ == a@.take(i as int),
        decreases a@.len() - i,
    {
        r.push(a[i]);
        proof {
            assert(a@.take(i as int).push(a@[i as int]) =~= a@.take(i + 1));
        }
        i += 1;
    }
    proof {
        assert(a@.take(a@.len() as int) =~= a@);
    }
    r
}

/// The index of the entry holding the given basename, if any.
fn find_group(groups: &Vec<(Vec<u8>, ProcessGroups)>, name: &Vec<u8>) -> (r: Option<usize>)
    ensures
        match r {
            Some(j) => 0 <= j < groups@.len() && groups@[j as int].0@ == name@,
            None => !has_name(groups@, name@),
        },
{
    let mut j: usize = 0;
    while j < groups.len()
        invariant
            0 <= j <= groups@.len(),
            forall|k: int| 0 <= k < j ==> groups@[k].0@ != name@,
        decreases groups@.len() - j,
    {
        let entry = &groups[j];
        if bytes_eq(&entry.0, name) {
            return Some(j);
        }
        j += 1;
    }
    None
}

/// Running processes grouped by executable basename.
#[derive(Debug, Clone)]
pub struct GroupedProcess {
    /// Association from basename to its group; names are distinct.
    name_to_group: Vec<(Vec<u8>, ProcessGroups)>,
}

impl View for GroupedProcess {
    type V = Map<Seq<u8>, Map<i32, MemoryUsage>>;

    closed spec fn view(&self) -> Map<Seq<u8>, Map<i32, MemoryUsage>> {
        entries_map(self.name_to_group@)
    }
}

impl GroupedProcess {
    /// The snapshot's invariant: basenames are distinct and every group
    /// satisfies its own invariant, totals included.
    pub closed spec fn wf(self) -> bool {
        &&& entries_distinct(self.name_to_group@)
        &&& entries_wf(self.name_to_group@)
    }

    /// Name of process to process groups, as basename/group pairs.
    ///
    /// The pairs enumerate the snapshot exactly: each pair is one group of
    /// the snapshot under its own basename, no basename repeats, and every
    /// group of the snapshot appears.
    pub fn name_to_group(&self) -> (r: &Vec<(Vec<u8>, ProcessGroups)>)
        requires
            self.wf(),
        ensures
            forall|i: int| 0 <= i < r@.len() ==> (#[trigger] r@[i]).1.wf(),
            forall|i: int|
                0 <= i < r@.len() ==> self@.contains_key((#[trigger] r@[i]).0@) && self@[r@[i].0@]
                    == r@[i].1@,
            forall|i: int, j: int| 0 <= i < j < r@.len() ==> r@[i].0@ != r@[j].0@,
            forall|n: Seq<u8>|
                self@.contains_key(n) ==> exists|i: int| 0 <= i < r@.len() && (#[trigger] r@[i]).0@
                    == n,
    {
        proof {
            let es = self.name_to_group@;
            assert forall|i: int| 0 <= i < es.len() implies self@.contains_key(
                (#[trigger] es[i]).0@,
            ) && self@[es[i].0@] == es[i].1@ by {
                lemma_entries_map_index(es, i);
            }
        }
        &self.name_to_group
    }

    /// Folds a snapshot of records into groups, one pass, left to right.
    ///
    /// Absent entries and entries whose shared size exceeds their resident
    /// size are skipped. A valid record is added to the group of its
    /// basename, creating the group if needed; if its pid is already in the
    /// group the last write wins. The bound on the snapshot's total
    /// resident kilobytes keeps every running total within `u64`.
    pub fn from_records(records: &Vec<Option<ProcessRecord>>) -> (r: GroupedProcess)
        requires
            records_resident_sum(records@) <= u64::MAX,
        ensures
            r.wf(),
            r@ == aggregate_spec(records@),
    {
        let mut groups: Vec<(Vec<u8>, ProcessGroups)> = Vec::new();
        proof {
            assert(records@.take(0) =~= Seq::<Option<ProcessRecord>>::empty());
            lemma_entries_map_empty(groups@);
        }
        let n = records.len();
        let mut i: usize = 0;
        while i < n
            invariant
                n == records@.len(),
                0 <= i <= n,
                records_resident_sum(records@) <= u64::MAX,
                entries_distinct(groups@),
                entries_wf(groups@),
                entries_map(groups@) == aggregate_spec(records@.take(i as int)),
                forall|j: int|
                    0 <= j < groups@.len() ==> sum_map(
                        (#[trigger] groups@[j]).1@,
                    ).resident <= records_resident_sum(records@.take(i as int)),
            decreases n - i,
        {
            let ghost prefix = records@.take(i as int);
            let ghost prefix1 = records@.take(i as int + 1);
            proof {
                assert(prefix1.drop_last() =~= prefix);
                assert(prefix1.last() == records@[i as int]);
                lemma_rsum_nonneg(prefix);
                lemma_rsum_take_le(records@, i as int + 1);
            }
            let rec = &records[i];
            match rec {
                None => {},
                Some(r) => {
                    if r.shared <= r.resident {
                        let usage = MemoryUsage::new(r.resident, r.shared).unwrap();
                        proof {
                            assert(usage == r.spec_usage());
                            assert(is_valid_entry(records@[i as int]));
                            assert(records@[i as int].unwrap() == *r);
                        }
                        match find_group(&groups, &r.name) {
                            Some(j) => {
                                let ghost es0 = groups@;
                                proof {
                                    let g = es0[j as int].1;
                                    assert(g.wf());
                                    g.lemma_wf_finite();
                                    lemma_sum_map_insert(g@, r.pid, usage);
                                    if g@.contains_key(r.pid) {
                                        lemma_sum_map_remove(g@, r.pid);
                                        lemma_sum_map_nonneg(g@.remove(r.pid));
                                    } else {
                                        assert(g@.remove(r.pid) =~= g@);
                                    }
                                    assert(sum_map(g@.insert(r.pid, usage)).resident
                                        <= records_resident_sum(prefix1));
                                }
                                let entry = &mut groups[j];
                                entry.1.add_usage(r.pid, usage);
                                proof {
                                    let g2 = groups@[j as int].1;
                                    assert(g2@ == es0[j as int].1@.insert(r.pid, usage));
                                    assert(groups@ =~= es0.update(
                                        j as int,
                                        (es0[j as int].0, g2),
                                    ));
                                    lemma_entries_map_index(es0, j as int);
                                    lemma_entries_map_update(es0, j as int, g2);
                                    assert(entries_map(groups@) == aggregate_spec(prefix1));
                                    assert forall|k: int|
                                        0 <= k < groups@.len() implies sum_map(
                                        (#[trigger] groups@[k]).1@,
                                    ).resident <= records_resident_sum(prefix1) by {
                                        if k != j as int {
                                            assert(groups@[k].1 == es0[k].1);
                                        }
                                    }
                                }
                            },
                            None => {
                                let mut g = ProcessGroups::new();
                                proof {
                                    g.lemma_wf_finite();
                                    crate::groups::lemma_sum_map_empty();
                                    lemma_sum_map_insert(g@, r.pid, usage);
                                    assert(g@.remove(r.pid) =~= g@);
                                }
                                g.add_usage(r.pid, usage);
                                let name_copy = copy_bytes(&r.name);
                                let ghost es0 = groups@;
                                proof {
                                    lemma_entries_map_push(es0, name_copy, g);
                                }
                                groups.push((name_copy, g));
                                proof {
                                    assert(groups@ =~= es0.push((name_copy, g)));
                                    assert(!aggregate_spec(prefix).contains_key(r.name@));
                                    assert(entries_map(groups@) == aggregate_spec(prefix1));
                                    assert forall|k: int|
                                        0 <= k < groups@.len() implies sum_map(
                                        (#[trigger] groups@[k]).1@,
                                    ).resident <= records_resident_sum(prefix1) by {
                                        if k < es0.len() {
                                            assert(groups@[k].1 == es0[k].1);
                                        } else {
                                            assert(groups@[k].1 == g);
                                        }
                                    }
                                }
                            },
                        }
                    }
                },
            }
            i += 1;
        }
        proof {
            assert(records@.take(n as int) =~= records@);
        }
        GroupedProcess { name_to_group: groups }
    }
}

impl Default for GroupedProcess {
    /// A snapshot with no groups, the result of aggregating no records.
    fn default() -> (r: GroupedProcess)
        ensures
            r.wf(),
            r@ == Map::<Seq<u8>, Map<i32, MemoryUsage>>::empty(),
    {
        let r = GroupedProcess { name_to_group: Vec::new() };
        proof {
            lemma_entries_map_empty(r.name_to_group@);
        }
        r
    }
}

} // verus!
