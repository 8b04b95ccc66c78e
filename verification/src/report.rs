//! The deterministic order a report lists groups in, and the rendering of
//! byte counts.

use vstd::prelude::*;

use crate::groups::sum_map;
use crate::snapshot::copy_bytes;
use crate::snapshot::GroupedProcess;

verus! {

/// Strict lexicographic order on byte strings.
pub open spec fn lex_lt(a: Seq<u8>, b: Seq<u8>) -> bool
    decreases a.len(),
{
    if b.len() == 0 {
        false
    } else if a.len() == 0 {
        true
    } else if a[0] < b[0] {
        true
    } else if a[0] > b[0] {
        false
    } else {
        lex_lt(a.drop_first(), b.drop_first())
    }
}

/// Any two byte strings are ordered one way, the other way, or equal.
pub proof fn lemma_lex_lt_trichotomy(a: Seq<u8>, b: Seq<u8>)
    ensures
        lex_lt(a, b) || lex_lt(b, a) || a == b,
    decreases a.len(),
{
    if a.len() == 0 {
        if b.len() == 0 {
            assert(a =~= b);
        }
    } else if b.len() == 0 {
    } else if a[0] == b[0] {
        lemma_lex_lt_trichotomy(a.drop_first(), b.drop_first());
        if a.drop_first() == b.drop_first() {
            assert(a.drop_first().len() == a.len() - 1);
            assert(b.drop_first().len() == b.len() - 1);
            assert(a.len() == b.len());
            assert forall|i: int| 0 <= i < a.len() implies a[i] == b[i] by {
                if i > 0 {
                    assert(a.drop_first()[i - 1] == b.drop_first()[i - 1]);
                }
            }
            assert(a =~= b);
        }
    }
}

/// The lexicographic order is transitive.
pub proof fn lemma_lex_lt_transitive(a: Seq<u8>, b: Seq<u8>, c: Seq<u8>)
    requires
        lex_lt(a, b),
        lex_lt(b, c),
    ensures
        lex_lt(a, c),
    decreases a.len(),
{
    if a.len() == 0 {
    } else {
        if a[0] == b[0] && b[0] == c[0] {
            lemma_lex_lt_transitive(a.drop_first(), b.drop_first(), c.drop_first());
        }
    }
}

/// One report line, mathematically: a basename and its group's private
/// memory total in kilobytes.
pub open spec fn line_view(e: (Vec<u8>, u64)) -> (Seq<u8>, int) {
    (e.0@, e.1 as int)
}

/// The report order: larger memory totals first, ties broken by ascending
/// basename, so that identical snapshots always render identically.
pub open spec fn report_lt(a: (Seq<u8>, int), b: (Seq<u8>, int)) -> bool {
    b.1 < a.1 || (a.1 == b.1 && lex_lt(a.0, b.0))
}

/// Lines with different basenames are always ordered one way or the other.
pub proof fn lemma_report_lt_total(a: (Seq<u8>, int), b: (Seq<u8>, int))
    requires
        a.0 != b.0,
    ensures
        report_lt(a, b) || report_lt(b, a),
{
    if a.1 == b.1 {
        lemma_lex_lt_trichotomy(a.0, b.0);
    }
}

/// The report order is transitive.
pub proof fn lemma_report_lt_transitive(a: (Seq<u8>, int), b: (Seq<u8>, int), c: (Seq<u8>, int))
    requires
        report_lt(a, b),
        report_lt(b, c),
    ensures
        report_lt(a, c),
{
    if a.1 == b.1 && b.1 == c.1 {
        lemma_lex_lt_transitive(a.0, b.0, c.0);
    }
}

/// No byte string is lexicographically below itself.
pub proof fn lemma_lex_lt_irreflexive(a: Seq<u8>)
    ensures
        !lex_lt(a, a),
    decreases a.len(),
{
    if a.len() > 0 {
        lemma_lex_lt_irreflexive(a.drop_first());
    }
}

/// No line comes before itself in the report.
pub proof fn lemma_report_lt_irreflexive(a: (Seq<u8>, int))
    ensures
        !report_lt(a, a),
{
    lemma_lex_lt_irreflexive(a.0);
}

/// Rendering is deterministic: two listings that are both strictly in
/// report order and hold the same lines are the same listing, line for
/// line. In particular, groups whose memory totals tie can appear in only
/// one order, the ascending order of their basenames.
pub proof fn lemma_report_order_unique(r1: Seq<(Seq<u8>, int)>, r2: Seq<(Seq<u8>, int)>)
    requires
        forall|i: int, j: int|
            0 <= i < j < r1.len() ==> report_lt(#[trigger] r1[i], #[trigger] r1[j]),
        forall|i: int, j: int|
            0 <= i < j < r2.len() ==> report_lt(#[trigger] r2[i], #[trigger] r2[j]),
        forall|e: (Seq<u8>, int)| r1.contains(e) <==> r2.contains(e),
    ensures
        r1 =~= r2,
    decreases r1.len(),
{
    if r1.len() == 0 {
        if r2.len() > 0 {
            assert(r2.contains(r2[0]));
            assert(r1.contains(r2[0]));
        }
        assert(r1 =~= r2);
    } else {
        assert(r1.contains(r1[0]));
        assert(r2.contains(r1[0]));
        let k = choose|k: int| 0 <= k < r2.len() && r2[k] == r1[0];
        if r1[0] != r2[0] {
            assert(k > 0);
            assert(report_lt(r2[0], r2[k]));
            assert(r2.contains(r2[0]));
            assert(r1.contains(r2[0]));
            let m = choose|m: int| 0 <= m < r1.len() && r1[m] == r2[0];
            assert(m > 0);
            assert(report_lt(r1[0], r1[m]));
            lemma_report_lt_transitive(r1[0], r2[0], r1[0]);
            lemma_report_lt_irreflexive(r1[0]);
        }
        let t1 = r1.drop_first();
        let t2 = r2.drop_first();
        assert forall|i: int, j: int| 0 <= i < j < t1.len() implies report_lt(
            #[trigger] t1[i],
            #[trigger] t1[j],
        ) by {
            assert(t1[i] == r1[i + 1]);
            assert(t1[j] == r1[j + 1]);
        }
        assert forall|i: int, j: int| 0 <= i < j < t2.len() implies report_lt(
            #[trigger] t2[i],
            #[trigger] t2[j],
        ) by {
            assert(t2[i] == r2[i + 1]);
            assert(t2[j] == r2[j + 1]);
        }
        assert forall|e: (Seq<u8>, int)| t1.contains(e) <==> t2.contains(e) by {
            if t1.contains(e) {
                let i = choose|i: int| 0 <= i < t1.len() && t1[i] == e;
                assert(r1[i + 1] == e);
                assert(r1.contains(e));
                assert(r2.contains(e));
                let k2 = choose|k2: int| 0 <= k2 < r2.len() && r2[k2] == e;
                if k2 == 0 {
                    assert(report_lt(r1[0], r1[i + 1]));
                    lemma_report_lt_irreflexive(e);
                }
                assert(t2[k2 - 1] == e);
                assert(t2.contains(e));
            }
            if t2.contains(e) {
                let i = choose|i: int| 0 <= i < t2.len() && t2[i] == e;
                assert(r2[i + 1] == e);
                assert(r2.contains(e));
                assert(r1.contains(e));
                let k2 = choose|k2: int| 0 <= k2 < r1.len() && r1[k2] == e;
                if k2 == 0 {
                    assert(report_lt(r2[0], r2[i + 1]));
                    lemma_report_lt_irreflexive(e);
                }
                assert(t1[k2 - 1] == e);
                assert(t1.contains(e));
            }
        }
        lemma_report_order_unique(t1, t2);
        assert(r1.len() == r2.len());
        assert forall|i: int| 0 <= i < r1.len() implies r1[i] == r2[i] by {
            if i > 0 {
                assert(t1[i - 1] == t2[i - 1]);
            }
        }
        assert(r1 =~= r2);
    }
}

/// Identical snapshots render identically: any two listings that satisfy
/// the contract of [`GroupedProcess::sorted_totals`] against the same
/// snapshot contents agree line for line.
pub proof fn lemma_sorted_totals_unique(
    m: Map<Seq<u8>, Map<i32, crate::memory::MemoryUsage>>,
    s1: Seq<(Seq<u8>, int)>,
    s2: Seq<(Seq<u8>, int)>,
)
    requires
        forall|i: int|
            0 <= i < s1.len() ==> m.contains_key((#[trigger] s1[i]).0) && s1[i].1 == sum_map(
                m[s1[i].0],
            ).memory,
        forall|i: int|
            0 <= i < s2.len() ==> m.contains_key((#[trigger] s2[i]).0) && s2[i].1 == sum_map(
                m[s2[i].0],
            ).memory,
        forall|n: Seq<u8>|
            m.contains_key(n) ==> exists|i: int| 0 <= i < s1.len() && (#[trigger] s1[i]).0 == n,
        forall|n: Seq<u8>|
            m.contains_key(n) ==> exists|i: int| 0 <= i < s2.len() && (#[trigger] s2[i]).0 == n,
        forall|i: int, j: int|
            0 <= i < j < s1.len() ==> report_lt(#[trigger] s1[i], #[trigger] s1[j]),
        forall|i: int, j: int|
            0 <= i < j < s2.len() ==> report_lt(#[trigger] s2[i], #[trigger] s2[j]),
    ensures
        s1 =~= s2,
{
    assert forall|e: (Seq<u8>, int)| s1.contains(e) <==> s2.contains(e) by {
        if s1.contains(e) {
            let i = choose|i: int| 0 <= i < s1.len() && s1[i] == e;
            let k = choose|k: int| 0 <= k < s2.len() && (#[trigger] s2[k]).0 == e.0;
            assert(s2[k].1 == sum_map(m[e.0]).memory);
            assert(s2[k] == e);
            assert(s2.contains(e));
        }
        if s2.contains(e) {
            let i = choose|i: int| 0 <= i < s2.len() && s2[i] == e;
            let k = choose|k: int| 0 <= k < s1.len() && (#[trigger] s1[k]).0 == e.0;
            assert(s1[k].1 == sum_map(m[e.0]).memory);
            assert(s1[k] == e);
            assert(s1.contains(e));
        }
    }
    lemma_report_order_unique(s1, s2);
}

/// Byte-wise lexicographic comparison of two byte strings.
fn bytes_lt(a: &Vec<u8>, b: &Vec<u8>) -> (r: bool)
    ensures
        r == lex_lt(a@, b@),
{
    let mut i: usize = 0;
    proof {
        assert(a@.skip(0) =~= a@);
        assert(b@.skip(0) =~= b@);
    }
    while i < a.len() && i < b.len()
        invariant
            0 <= i <= a@.len(),
            i <= b@.len(),
            lex_lt(a@, b@) == lex_lt(a@.skip(i as int), b@.skip(i as int)),
            lex_lt(b@, a@) == lex_lt(b@.skip(i as int), a@.skip(i as int)),
        decreases a@.len() - i,
    {
        proof {
            assert(a@.skip(i as int)[0] == a@[i as int]);
            assert(b@.skip(i as int)[0] == b@[i as int]);
        }
        if a[i] < b[i] {
            return true;
        }
        if a[i] > b[i] {
            return false;
        }
        proof {
            assert(a@.skip(i as int).drop_first() =~= a@.skip(i as int + 1));
            assert(b@.skip(i as int).drop_first() =~= b@.skip(i as int + 1));
        }
        i += 1;
    }
    proof {
        assert(a@.skip(i as int).len() == a@.len() - i);
        assert(b@.skip(i as int).len() == b@.len() - i);
    }
    i < b.len()
}

/// Whether line `a` comes before line `b` in the report.
fn line_before(a: &(Vec<u8>, u64), b: &(Vec<u8>, u64)) -> (r: bool)
    ensures
        r == report_lt(line_view(*a), line_view(*b)),
{
    if b.1 < a.1 {
        true
    } else if a.1 == b.1 {
        bytes_lt(&a.0, &b.0)
    } else {
        false
    }
}

impl GroupedProcess {
    /// The report lines of a snapshot, in render order: one line per group,
    /// carrying the group's basename and its private memory total in
    /// kilobytes, sorted by descending total with ties broken by ascending
    /// basename. The order is strict, so the layout of a given snapshot is
    /// unique.
    pub fn sorted_totals(&self) -> (r: Vec<(Vec<u8>, u64)>)
        requires
            self.wf(),
        ensures
            forall|i: int|
                0 <= i < r@.len() ==> self@.contains_key((#[trigger] r@[i]).0@) && r@[i].1
                    == sum_map(self@[r@[i].0@]).memory,
            forall|i: int, j: int| 0 <= i < j < r@.len() ==> r@[i].0@ != r@[j].0@,
            forall|n: Seq<u8>|
                self@.contains_key(n) ==> exists|i: int| 0 <= i < r@.len() && (#[trigger] r@[i]).0@
                    == n,
            forall|i: int, j: int|
                0 <= i < j < r@.len() ==> report_lt(
                    line_view(#[trigger] r@[i]),
                    line_view(#[trigger] r@[j]),
                ),
    {
        let groups = self.name_to_group();
        let mut lines: Vec<(Vec<u8>, u64)> = Vec::new();
        let mut i: usize = 0;
        while i < groups.len()
            invariant
                0 <= i <= groups@.len(),
                lines@.len() == i,
                forall|k: int| 0 <= k < i ==> (#[trigger] lines@[k]).0@ == groups@[k].0@,
                forall|k: int|
                    0 <= k < i ==> self@.contains_key((#[trigger] lines@[k]).0@) && lines@[k].1
                        == sum_map(self@[lines@[k].0@]).memory,
                forall|k: int| 0 <= k < groups@.len() ==> (#[trigger] groups@[k]).1.wf(),
                forall|k: int|
                    0 <= k < groups@.len() ==> self@.contains_key((#[trigger] groups@[k]).0@)
                        && self@[groups@[k].0@] == groups@[k].1@,
                forall|k1: int, k2: int|
                    0 <= k1 < k2 < groups@.len() ==> groups@[k1].0@ != groups@[k2].0@,
                forall|n: Seq<u8>|
                    self@.contains_key(n) ==> exists|k: int|
                        0 <= k < groups@.len() && (#[trigger] groups@[k]).0@ == n,
            decreases groups@.len() - i,
        {
            let entry = &groups[i];
            let totals = entry.1.usage_totals();
            lines.push((copy_bytes(&entry.0), totals.memory));
            i += 1;
        }
        proof {
            assert forall|n: Seq<u8>| self@.contains_key(n) implies exists|k: int|
                0 <= k < lines@.len() && (#[trigger] lines@[k]).0@ == n by {
                let k = choose|k: int| 0 <= k < groups@.len() && (#[trigger] groups@[k]).0@ == n;
                assert(lines@[k].0@ == n);
            }
        }
        let mut out: Vec<(Vec<u8>, u64)> = Vec::new();
        while lines.len() > 0
            invariant
                forall|k: int|
                    0 <= k < out@.len() ==> self@.contains_key((#[trigger] out@[k]).0@) && out@[k].1
                        == sum_map(self@[out@[k].0@]).memory,
                forall|k: int|
                    0 <= k < lines@.len() ==> self@.contains_key((#[trigger] lines@[k]).0@)
                        && lines@[k].1 == sum_map(self@[lines@[k].0@]).memory,
                forall|k1: int, k2: int| 0 <= k1 < k2 < out@.len() ==> out@[k1].0@ != out@[k2].0@,
                forall|k1: int, k2: int|
                    0 <= k1 < k2 < lines@.len() ==> lines@[k1].0@ != lines@[k2].0@,
                forall|k1: int, k2: int|
                    0 <= k1 < out@.len() && 0 <= k2 < lines@.len() ==> out@[k1].0@
                        != lines@[k2].0@,
                forall|n: Seq<u8>|
                    self@.contains_key(n) ==> (exists|k: int|
                        0 <= k < out@.len() && (#[trigger] out@[k]).0@ == n) || (exists|k: int|
                        0 <= k < lines@.len() && (#[trigger] lines@[k]).0@ == n),
                forall|k1: int, k2: int|
                    0 <= k1 < k2 < out@.len() ==> report_lt(
                        line_view(#[trigger] out@[k1]),
                        line_view(#[trigger] out@[k2]),
                    ),
            decreases lines@.len(),
        {
            let ghost lines0 = lines@;
            let line = lines.pop().unwrap();
            proof {
                assert(line == lines0.last());
                assert(lines@ =~= lines0.drop_last());
            }
            let mut p: usize = 0;
            while p < out.len() && line_before(&out[p], &line)
                invariant
                    0 <= p <= out@.len(),
                    forall|k: int|
                        0 <= k < p ==> report_lt(
                            line_view(#[trigger] out@[k]),
                            line_view(line),
                        ),
                decreases out@.len() - p,
            {
                p += 1;
            }
            let ghost out0 = out@;
            proof {
                assert forall|k: int| 0 <= k < out0.len() implies out0[k].0@ != line.0@ by {
                    assert(lines0[lines0.len() - 1].0@ == line.0@);
                }
                assert forall|k: int| p <= k < out0.len() implies report_lt(
                    line_view(line),
                    line_view(out0[k]),
                ) by {
                    assert(!report_lt(line_view(out0[p as int]), line_view(line)));
                    lemma_report_lt_total(line_view(line), line_view(out0[p as int]));
                    if k > p {
                        lemma_report_lt_transitive(
                            line_view(line),
                            line_view(out0[p as int]),
                            line_view(out0[k]),
                        );
                    }
                }
            }
            out.insert(p, line);
            proof {
                out0.insert_ensures(p as int, line);
                assert forall|k1: int, k2: int| 0 <= k1 < k2 < out@.len() implies report_lt(
                    line_view(#[trigger] out@[k1]),
                    line_view(#[trigger] out@[k2]),
                ) by {
                    if k1 < p && k2 < p {
                    } else if k1 < p && k2 == p {
                    } else if k1 < p && k2 > p {
                        assert(out@[k2] == out0[k2 - 1]);
                    } else if k1 == p {
                        assert(out@[k2] == out0[k2 - 1]);
                    } else {
                        assert(out@[k1] == out0[k1 - 1]);
                        assert(out@[k2] == out0[k2 - 1]);
                    }
                }
                assert forall|k1: int, k2: int| 0 <= k1 < k2 < out@.len() implies out@[k1].0@
                    != out@[k2].0@ by {
                    if k1 < p && k2 > p {
                        assert(out@[k2] == out0[k2 - 1]);
                    } else if k1 == p {
                        assert(out@[k2] == out0[k2 - 1]);
                    } else if k1 > p {
                        assert(out@[k1] == out0[k1 - 1]);
                        assert(out@[k2] == out0[k2 - 1]);
                    }
                }
                assert forall|k: int| 0 <= k < out@.len() implies self@.contains_key(
                    (#[trigger] out@[k]).0@,
                ) && out@[k].1 == sum_map(self@[out@[k].0@]).memory by {
                    if k < p {
                        assert(out@[k] == out0[k]);
                    } else if k == p {
                        assert(out@[k] == line);
                        assert(lines0[lines0.len() - 1] == line);
                    } else {
                        assert(out@[k] == out0[k - 1]);
                    }
                }
                assert forall|k1: int, k2: int|
                    0 <= k1 < out@.len() && 0 <= k2 < lines@.len() implies out@[k1].0@
                    != lines@[k2].0@ by {
                    assert(lines@[k2] == lines0[k2]);
                    if k1 < p {
                        assert(out@[k1] == out0[k1]);
                    } else if k1 == p {
                        assert(out@[k1] == line);
                        assert(lines0[lines0.len() - 1].0@ == line.0@);
                    } else {
                        assert(out@[k1] == out0[k1 - 1]);
                    }
                }
                assert forall|n: Seq<u8>| self@.contains_key(n) implies (exists|k: int|
                    0 <= k < out@.len() && (#[trigger] out@[k]).0@ == n) || (exists|k: int|
                    0 <= k < lines@.len() && (#[trigger] lines@[k]).0@ == n) by {
                    if exists|k: int| 0 <= k < out0.len() && (#[trigger] out0[k]).0@ == n {
                        let k = choose|k: int| 0 <= k < out0.len() && (#[trigger] out0[k]).0@ == n;
                        if k < p {
                            assert(out@[k].0@ == n);
                        } else {
                            assert(out@[k + 1] == out0[k]);
                            assert(out@[k + 1].0@ == n);
                        }
                    } else {
                        let k = choose|k: int|
                            0 <= k < lines0.len() && (#[trigger] lines0[k]).0@ == n;
                        if k < lines0.len() - 1 {
                            assert(lines@[k].0@ == n);
                        } else {
                            assert(out@[p as int].0@ == n);
                        }
                    }
                }
            }
        }
        out
    }
}

/// What `size_format`'s SI formatter renders a byte count as, followed by a
/// `B` unit; a pure function of the count alone.
pub uninterp spec fn si_size_text(bytes: u64) -> Seq<char>;

/// Relies on `size_format::SizeFormatterSI` (through its `Display` impl):
/// the rendering it writes depends on the numeric byte count alone.
#[verifier::external_body]
fn format_si_bytes(bytes: u64) -> (r: String)
    ensures
        r@ == si_size_text(bytes),
{
    format!("{}B", size_format::SizeFormatterSI::new(bytes))
}

/// Renders a kilobyte figure as an SI-scaled byte count, multiplying by
/// 1000 first since the snapshot reports kilobytes. Returns `None` exactly
/// when the figure is too large for the byte count to fit in `u64`.
pub fn format_kb(kb: u64) -> (r: Option<String>)
    ensures
        kb <= u64::MAX / 1000 ==> r is Some && r.unwrap()@ == si_size_text((kb * 1000) as u64),
        kb > u64::MAX / 1000 ==> r is None,
{
    if kb <= u64::MAX / 1000 {
        Some(format_si_bytes(kb * 1000))
    } else {
        None
    }
}

} // verus!
