use vstd::prelude::*;

use crate::types::{Range, Version, ranges_contain, ranges_wf};

verus! {

/// A closed interval of versions, `(lower, upper)`.
pub type Interval = (Version, Version);

pub type ISet = Vec<Interval>;

pub open spec fn in_interval(a: Interval, x: int) -> bool {
    a.0 <= x <= a.1
}

/// Whether some interval of `s` contains `x`.
pub open spec fn in_iset(s: Seq<Interval>, x: int) -> bool {
    exists|i: int| 0 <= i < s.len() && in_interval(#[trigger] s[i], x)
}

/// Every interval is non-empty, and each one ends at least two before the
/// next one starts: the intervals are sorted, disjoint and not adjacent.
pub open spec fn canonical(s: Seq<Interval>) -> bool {
    &&& forall|i: int| 0 <= i < s.len() ==> (#[trigger] s[i]).0 <= s[i].1
    &&& forall|i: int, j: int| 0 <= i < j < s.len() ==> (#[trigger] s[i]).1 + 1 < (#[trigger] s[j]).0
}

pub open spec fn lo(r: Range) -> int {
    match r {
        Range::Interval { lower, .. } => lower as int,
        Range::Point(v) => v as int,
        Range::All => 1,
    }
}

pub open spec fn hi(r: Range) -> int {
    match r {
        Range::Interval { upper, .. } => upper as int,
        Range::Point(v) => v as int,
        Range::All => u64::MAX as int,
    }
}

/// Ranges in canonical form: intervals and points only, an interval never
/// of a single version, ordered, disjoint and not adjacent.
pub open spec fn ranges_canonical(rs: Seq<Range>) -> bool {
    &&& forall|i: int| 0 <= i < rs.len() ==> !((#[trigger] rs[i]) is All)
    &&& forall|i: int| 0 <= i < rs.len() ==> ((#[trigger] rs[i]) is Interval ==> lo(rs[i]) < hi(rs[i]))
    &&& forall|i: int| 0 <= i < rs.len() ==> lo(#[trigger] rs[i]) <= hi(rs[i])
    &&& forall|i: int, j: int| 0 <= i < j < rs.len() ==> hi(#[trigger] rs[i]) + 1 < lo(#[trigger] rs[j])
}

pub open spec fn has_all(rs: Seq<Range>) -> bool {
    exists|i: int| 0 <= i < rs.len() && (#[trigger] rs[i]) is All
}

/// `out` is what merging and sorting `inp` gives: `[All]` where `inp` holds
/// `All`, else the canonical ranges that contain exactly what `inp` contains.
pub open spec fn is_merge_of(out: Seq<Range>, inp: Seq<Range>) -> bool {
    &&& has_all(inp) ==> out == seq![Range::All]
    &&& !has_all(inp) ==> ranges_canonical(out) && forall|x: int|
        ranges_contain(out, x) == ranges_contain(inp, x)
}

pub proof fn lemma_merge_interval_ordered(rs: Seq<Range>, inp: Seq<Range>, i: int)
    requires
        is_merge_of(rs, inp),
        0 <= i < rs.len(),
    ensures
        rs[i] matches Range::Interval { lower, upper } ==> lower < upper,
{
    if has_all(inp) {
        assert(rs[0] == Range::All);
    }
}

pub proof fn lemma_merge_all_alone(rs: Seq<Range>, inp: Seq<Range>, i: int)
    requires
        is_merge_of(rs, inp),
        0 <= i < rs.len(),
        rs[i] is All,
    ensures
        rs == seq![Range::All],
        i == 0,
{
}

/// Merging well-formed ranges, at least one of them, leaves at least one.
pub proof fn lemma_merge_nonempty(rs: Seq<Range>, inp: Seq<Range>)
    requires
        is_merge_of(rs, inp),
        ranges_wf(inp),
        inp.len() > 0,
    ensures
        rs.len() > 0,
{
    if !has_all(inp) {
        let x = lo(inp[0]);
        assert(inp[0].wf());
        assert(inp[0].contains(x));
        assert(ranges_contain(inp, x));
        assert(ranges_contain(rs, x));
    }
}

pub fn less_no_overlap(a: Interval, b: Interval) -> (r: bool)
    ensures
        r == (a.1 + 1 < b.0),
{
    b.0 > 0 && a.1 < b.0 - 1
}

pub fn greater_no_overlap(a: Interval, b: Interval) -> (r: bool)
    ensures
        r == (b.1 + 1 < a.0),
{
    less_no_overlap(b, a)
}

/// Whether the two intervals share a version or touch.
pub fn overlaps(a: Interval, b: Interval) -> (r: bool)
    ensures
        r == !(a.1 + 1 < b.0 || b.1 + 1 < a.0),
{
    !(less_no_overlap(a, b) || greater_no_overlap(a, b))
}

/// The smallest interval that covers both.
pub fn merge(a: Interval, b: Interval) -> (r: Interval)
    ensures
        r.0 == if a.0 <= b.0 { a.0 } else { b.0 },
        r.1 == if a.1 >= b.1 { a.1 } else { b.1 },
{
    let l = if a.0 <= b.0 { a.0 } else { b.0 };
    let u = if a.1 >= b.1 { a.1 } else { b.1 };
    (l, u)
}

/// Inserts `interval` into the canonical set `iset`, merging it with every
/// interval that it overlaps or touches.
pub fn merge_insert(iset: ISet, interval: Interval) -> (r: ISet)
    requires
        canonical(iset@),
        interval.0 <= interval.1,
    ensures
        canonical(r@),
        forall|x: int| in_iset(r@, x) == (in_iset(iset@, x) || in_interval(interval, x)),
{
    let mut result: Vec<Interval> = Vec::new();
    let mut merged = interval;
    let mut i: usize = 0;
    while i < iset.len() && less_no_overlap(iset[i], interval)
        invariant
            canonical(iset@),
            i <= iset@.len(),
            result@ == iset@.subrange(0, i as int),
            forall|k: int| 0 <= k < i ==> (#[trigger] iset@[k]).1 + 1 < interval.0,
        decreases iset@.len() - i,
    {
        result.push(iset[i]);
        i += 1;
    }
    let ghost start = i as int;
    while i < iset.len() && overlaps(iset[i], interval)
        invariant
            canonical(iset@),
            interval.0 <= interval.1,
            0 <= start <= i <= iset@.len(),
            result@ == iset@.subrange(0, start),
            forall|k: int| 0 <= k < start ==> (#[trigger] iset@[k]).1 + 1 < interval.0,
            start < iset@.len() ==> !(iset@[start].1 + 1 < interval.0),
            merged.0 <= interval.0,
            interval.1 <= merged.1,
            i > start ==> merged.1 == iset@[i - 1].1 || merged.1 == interval.1,
            i > start ==> merged.0 == iset@[start].0 || merged.0 == interval.0,
            i == start ==> merged == interval,
            forall|x: int|
                in_interval(merged, x) == (in_interval(interval, x) || exists|k: int|
                    start <= k < i && in_interval(#[trigger] iset@[k], x)),
        decreases iset@.len() - i,
    {
        let c = iset[i];
        let ghost old_merged = merged;
        proof {
            if i > start {
                assert(iset@[start].1 + 1 < iset@[i as int].0);
                assert(iset@[i - 1].1 + 1 < iset@[i as int].0);
            }
        }
        merged = merge(merged, c);
        assert forall|x: int|
            in_interval(merged, x) == (in_interval(interval, x) || exists|k: int|
                start <= k < i + 1 && in_interval(#[trigger] iset@[k], x)) by {
            if in_interval(merged, x) && !in_interval(old_merged, x) && !in_interval(c, x) {
                assert(false);
            }
            if exists|k: int| start <= k < i + 1 && in_interval(#[trigger] iset@[k], x) {
                let k = choose|k: int| start <= k < i + 1 && in_interval(#[trigger] iset@[k], x);
                if k < i {
                    assert(in_interval(old_merged, x));
                }
            }
        }
        i += 1;
    }
    let ghost end = i as int;
    result.push(merged);
    let ghost mid = result@;
    assert(mid =~= iset@.subrange(0, start).push(merged));
    assert(result@ =~= mid + iset@.subrange(end, i as int));
    assert(end < iset@.len() ==> interval.1 + 1 < iset@[end].0) by {
        if end < iset@.len() {
            if start < end {
                assert(iset@[start].1 + 1 < iset@[end].0);
            }
        }
    }
    assert(end < iset@.len() ==> merged.1 + 1 < iset@[end].0) by {
        if end < iset@.len() && end > start {
            assert(iset@[end - 1].1 + 1 < iset@[end].0);
        }
    }
    while i < iset.len()
        invariant
            0 <= start <= end <= i <= iset@.len(),
            result@ == mid + iset@.subrange(end, i as int),
        decreases iset@.len() - i,
    {
        let ghost prev = result@;
        result.push(iset[i]);
        proof {
            assert(prev == mid + iset@.subrange(end, i as int));
            assert(iset@.subrange(end, i + 1) =~= iset@.subrange(end, i as int).push(iset@[i as int]));
            assert(result@ =~= mid + iset@.subrange(end, i + 1));
        }
        i += 1;
    }
    assert(result@ =~= iset@.subrange(0, start).push(merged) + iset@.subrange(end, iset@.len() as int));
    let ghost r = result@;
    assert forall|a: int, b: int| 0 <= a < b < r.len() implies (#[trigger] r[a]).1 + 1 < (#[trigger] r[b]).0 by {
        if a < start && b == start {
            if end > start {
                assert(iset@[a].1 + 1 < iset@[start].0);
            }
        } else if a < start && b > start {
            assert(r[b] == iset@[b - start - 1 + end]);
            assert(iset@[a].1 + 1 < iset@[b - start - 1 + end].0);
        } else if a == start && b > start {
            assert(r[b] == iset@[b - start - 1 + end]);
            if b - start - 1 + end > end {
                assert(iset@[end].1 + 1 < iset@[b - start - 1 + end].0);
            }
        } else if a > start {
            assert(r[a] == iset@[a - start - 1 + end]);
            assert(r[b] == iset@[b - start - 1 + end]);
        }
    }
    assert forall|x: int| in_iset(r, x) == (in_iset(iset@, x) || in_interval(interval, x)) by {
        if in_iset(r, x) {
            let a = choose|a: int| 0 <= a < r.len() && in_interval(#[trigger] r[a], x);
            if a < start {
                assert(in_interval(iset@[a], x));
            } else if a > start {
                assert(r[a] == iset@[a - start - 1 + end]);
                assert(in_interval(iset@[a - start - 1 + end], x));
            }
        }
        if in_iset(iset@, x) {
            let k = choose|k: int| 0 <= k < iset@.len() && in_interval(#[trigger] iset@[k], x);
            if k < start {
                assert(r[k] == iset@[k]);
            } else if k < end {
                assert(in_interval(merged, x));
                assert(r[start] == merged);
            } else {
                assert(r[k - end + start + 1] == iset@[k]);
            }
        }
        if in_interval(interval, x) {
            assert(r[start] == merged);
        }
    }
    result
}

/// Merges `ranges` into canonical form; any `All` makes the result `[All]`.
pub fn merge_and_sort_ranges(ranges: &Vec<Range>) -> (r: Vec<Range>)
    ensures
        is_merge_of(r@, ranges@),
        ranges_wf(ranges@) ==> forall|x: int| ranges_contain(r@, x) == ranges_contain(ranges@, x),
{
    let mut iset: Vec<Interval> = Vec::new();
    let mut i: usize = 0;
    while i < ranges.len()
        invariant
            i <= ranges@.len(),
            canonical(iset@),
            forall|k: int| 0 <= k < i ==> !((#[trigger] ranges@[k]) is All),
            forall|x: int| in_iset(iset@, x) == ranges_contain(ranges@.subrange(0, i as int), x),
        decreases ranges@.len() - i,
    {
        let ghost before = iset@;
        let rg = ranges[i];
        match rg {
            Range::Interval { lower, upper } => {
                if lower <= upper {
                    iset = merge_insert(iset, (lower, upper));
                }
                assert forall|x: int| in_iset(iset@, x) == (in_iset(before, x) || rg.contains(x)) by {
                    if lower <= upper {
                        assert(in_interval((lower, upper), x) == rg.contains(x));
                    }
                }
            },
            Range::Point(p) => {
                iset = merge_insert(iset, (p, p));
                assert forall|x: int| in_iset(iset@, x) == (in_iset(before, x) || rg.contains(x)) by {
                    assert(in_interval((p, p), x) == rg.contains(x));
                }
            },
            Range::All => {
                let mut out = Vec::new();
                out.push(Range::All);
                proof {
                    assert(out@ =~= seq![Range::All]);
                    if ranges_wf(ranges@) {
                        assert forall|x: int| ranges_contain(out@, x) == ranges_contain(ranges@, x) by {
                            assert(out@[0] == Range::All);
                            if ranges_contain(ranges@, x) {
                                let k = choose|k: int| 0 <= k < ranges@.len() && (#[trigger] ranges@[k]).contains(x);
                                assert(ranges@[k].wf());
                            }
                            if x != 0 {
                                assert(ranges@[i as int].contains(x));
                            }
                        }
                    }
                }
                return out;
            },
        }
        proof {
            assert forall|x: int| in_iset(iset@, x) == ranges_contain(ranges@.subrange(0, i + 1), x) by {
                let s = ranges@.subrange(0, i + 1);
                assert(s[i as int] == rg);
                assert(in_iset(before, x) == ranges_contain(ranges@.subrange(0, i as int), x));
                if ranges_contain(s, x) {
                    let k = choose|k: int| 0 <= k < s.len() && (#[trigger] s[k]).contains(x);
                    if k < i {
                        assert(ranges@.subrange(0, i as int)[k] == s[k]);
                    }
                }
                if ranges_contain(ranges@.subrange(0, i as int), x) {
                    let k = choose|k: int| 0 <= k < i && (#[trigger] ranges@.subrange(0, i as int)[k]).contains(x);
                    assert(s[k] == ranges@.subrange(0, i as int)[k]);
                }
            }
        }
        i += 1;
    }
    assert(ranges@.subrange(0, i as int) == ranges@);
    let mut out: Vec<Range> = Vec::new();
    let mut j: usize = 0;
    while j < iset.len()
        invariant
            j <= iset@.len(),
            canonical(iset@),
            out@.len() == j,
            forall|k: int| 0 <= k < j ==> lo(#[trigger] out@[k]) == iset@[k].0 && hi(out@[k]) == iset@[k].1,
            forall|k: int| 0 <= k < j ==> !((#[trigger] out@[k]) is All),
            forall|k: int| 0 <= k < j ==> ((#[trigger] out@[k]) is Interval ==> lo(out@[k]) < hi(out@[k])),
            forall|k: int| 0 <= k < j ==> forall|x: int| (#[trigger] out@[k]).contains(x) == in_interval(iset@[k], x),
        decreases iset@.len() - j,
    {
        let (l, u) = iset[j];
        if l == u {
            out.push(Range::Point(l));
        } else {
            out.push(Range::Interval { lower: l, upper: u });
        }
        j += 1;
    }
    proof {
        assert(!has_all(ranges@));
        assert forall|a: int, b: int| 0 <= a < b < out@.len() implies hi(#[trigger] out@[a]) + 1 < lo(#[trigger] out@[b]) by {
            assert(iset@[a].1 + 1 < iset@[b].0);
        }
        assert forall|x: int| ranges_contain(out@, x) == ranges_contain(ranges@, x) by {
            if ranges_contain(out@, x) {
                let k = choose|k: int| 0 <= k < out@.len() && (#[trigger] out@[k]).contains(x);
                assert(in_interval(iset@[k], x));
            }
            if in_iset(iset@, x) {
                let k = choose|k: int| 0 <= k < iset@.len() && in_interval(#[trigger] iset@[k], x);
                assert(out@[k].contains(x));
            }
        }
    }
    out
}

} // verus!

verus! {

proof fn lemma_canonical_first_lowest(s: Seq<Range>, j: int)
    requires
        ranges_canonical(s),
        0 <= j < s.len(),
    ensures
        lo(s[0]) <= lo(s[j]),
{
    if j > 0 {
        assert(hi(s[0]) + 1 < lo(s[j]));
        assert(lo(s[0]) <= hi(s[0]));
    }
}

proof fn lemma_canonical_contains(r: Range, x: int)
    requires
        !(r is All),
    ensures
        r.contains(x) == (lo(r) <= x <= hi(r)),
{
}

proof fn lemma_canonical_tail(s: Seq<Range>, x: int)
    requires
        ranges_canonical(s),
        s.len() > 0,
    ensures
        ranges_canonical(s.drop_first()),
        ranges_contain(s.drop_first(), x) == (ranges_contain(s, x) && x > hi(s[0])),
{
    let d = s.drop_first();
    assert forall|i: int, j: int| 0 <= i < j < d.len() implies hi(#[trigger] d[i]) + 1 < lo(#[trigger] d[j]) by {
        assert(d[i] == s[i + 1] && d[j] == s[j + 1]);
    }
    assert forall|i: int| 0 <= i < d.len() implies !((#[trigger] d[i]) is All) && lo(d[i]) <= hi(d[i])
        && (d[i] is Interval ==> lo(d[i]) < hi(d[i])) by {
        assert(d[i] == s[i + 1]);
    }
    if ranges_contain(d, x) {
        let i = choose|i: int| 0 <= i < d.len() && (#[trigger] d[i]).contains(x);
        assert(d[i] == s[i + 1]);
        assert(hi(s[0]) + 1 < lo(s[i + 1]));
        lemma_canonical_contains(s[i + 1], x);
    }
    if ranges_contain(s, x) && x > hi(s[0]) {
        let i = choose|i: int| 0 <= i < s.len() && (#[trigger] s[i]).contains(x);
        lemma_canonical_contains(s[0], x);
        assert(i > 0);
        assert(d[i - 1] == s[i]);
    }
}

/// Canonical ranges are determined by what they contain.
pub proof fn lemma_canonical_unique(s: Seq<Range>, t: Seq<Range>)
    requires
        ranges_canonical(s),
        ranges_canonical(t),
        forall|x: int| ranges_contain(s, x) == ranges_contain(t, x),
    ensures
        s == t,
    decreases s.len() + t.len(),
{
    if s.len() == 0 || t.len() == 0 {
        if s.len() > 0 {
            lemma_canonical_contains(s[0], lo(s[0]));
            assert(ranges_contain(s, lo(s[0])));
        }
        if t.len() > 0 {
            lemma_canonical_contains(t[0], lo(t[0]));
            assert(ranges_contain(t, lo(t[0])));
        }
        assert(s =~= t);
    } else {
        let s0 = s[0];
        let t0 = t[0];
        lemma_canonical_contains(s0, lo(s0));
        assert(ranges_contain(s, lo(s0)));
        let j = choose|j: int| 0 <= j < t.len() && (#[trigger] t[j]).contains(lo(s0));
        lemma_canonical_first_lowest(t, j);
        lemma_canonical_contains(t[j], lo(s0));
        lemma_canonical_contains(t0, lo(t0));
        assert(ranges_contain(t, lo(t0)));
        let k = choose|k: int| 0 <= k < s.len() && (#[trigger] s[k]).contains(lo(t0));
        lemma_canonical_first_lowest(s, k);
        lemma_canonical_contains(s[k], lo(t0));
        assert(lo(s0) == lo(t0));
        if hi(s0) < hi(t0) {
            let y = hi(s0) + 1;
            lemma_canonical_contains(t0, y);
            assert(ranges_contain(t, y));
            let k2 = choose|k: int| 0 <= k < s.len() && (#[trigger] s[k]).contains(y);
            lemma_canonical_contains(s[k2], y);
            if k2 > 0 {
                assert(hi(s[0]) + 1 < lo(s[k2]));
            }
            assert(false);
        }
        if hi(t0) < hi(s0) {
            let y = hi(t0) + 1;
            lemma_canonical_contains(s0, y);
            assert(ranges_contain(s, y));
            let k2 = choose|k: int| 0 <= k < t.len() && (#[trigger] t[k]).contains(y);
            lemma_canonical_contains(t[k2], y);
            if k2 > 0 {
                assert(hi(t[0]) + 1 < lo(t[k2]));
            }
            assert(false);
        }
        assert(s0 == t0);
        assert forall|x: int| ranges_contain(s.drop_first(), x) == ranges_contain(t.drop_first(), x) by {
            lemma_canonical_tail(s, x);
            lemma_canonical_tail(t, x);
        }
        lemma_canonical_tail(s, 0);
        lemma_canonical_tail(t, 0);
        lemma_canonical_unique(s.drop_first(), t.drop_first());
        assert(s =~= seq![s0] + s.drop_first());
        assert(t =~= seq![t0] + t.drop_first());
    }
}

/// Merging is idempotent: merging the result of a merge gives it back.
pub proof fn lemma_merge_idempotent(inp: Seq<Range>, once: Seq<Range>, twice: Seq<Range>)
    requires
        is_merge_of(once, inp),
        is_merge_of(twice, once),
    ensures
        twice == once,
{
    if has_all(inp) {
        assert(once[0] is All);
        assert(has_all(once));
    } else {
        if has_all(once) {
            let i = choose|i: int| 0 <= i < once.len() && (#[trigger] once[i]) is All;
            assert(false);
        }
        lemma_canonical_unique(twice, once);
    }
}

} // verus!
