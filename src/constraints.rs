// The dual encoder: every constraint for the solver comes paired with its
// symbolic mirror.
use vstd::prelude::*;

use crate::expr::{AtomicExpr, Expr};
use crate::intervals::{has_all, is_merge_of, merge_and_sort_ranges};
use crate::mirror::{conflict_mirror_wf, decoded_ranges, range_mirror_wf};
use crate::smt::{Formula, var_eq, var_ge, var_le};
use crate::types::{
    Assignment, Package, PackageId, Range, ReqSetView, ReqView, Repository, Requirement, RequirementSet, Version,
    ranges_contain, ranges_wf,
};
use bumpalo::Bump;

verus! {

/// A solver constraint and its mirror.
pub type Pair<'b> = (Formula, Expr<'b>);

/// The constraint and its mirror hold on the same assignments.
pub open spec fn lockstep(p: Pair) -> bool {
    forall|a: Assignment| #[trigger] p.0.holds(a) == p.1.holds(a)
}

pub open spec fn guard_holds(guard: Option<(PackageId, Version)>, a: Assignment) -> bool {
    match guard {
        Some((id, k)) => a(id) == k,
        None => true,
    }
}

/// The mirror under the guard: `m` itself without one, the consequent of the
/// implication with one.
pub open spec fn unguarded(m: Expr, guard: Option<(PackageId, Version)>) -> Expr {
    match guard {
        Some(_) => match m {
            Expr::Implies(_, r) => *r,
            _ => m,
        },
        None => m,
    }
}

pub open spec fn guard_shape(m: Expr, guard: Option<(PackageId, Version)>) -> bool {
    match guard {
        Some((id, k)) => m matches Expr::Implies(l, _) && *l == Expr::Atom(AtomicExpr::VerEq { pid: id, version: k }),
        None => true,
    }
}

/// `p` encodes requirement `r` as a dependency (or, with `conflict`, as a
/// conflict), under the guard "package `id` has version `k`" when there is one.
pub open spec fn pair_ok(p: Pair, guard: Option<(PackageId, Version)>, r: ReqView, conflict: bool) -> bool {
    &&& lockstep(p)
    &&& guard_shape(p.1, guard)
    &&& r.wf() ==> if conflict {
        conflict_mirror_wf(unguarded(p.1, guard), r.package)
    } else {
        range_mirror_wf(unguarded(p.1, guard), r.package)
    }
    &&& r.wf() ==> forall|a: Assignment|
        #[trigger] p.0.holds(a) == (guard_holds(guard, a) ==> (r.holds(a) != conflict))
}

/// Whether every constraint of `s` holds.
pub open spec fn all_hold(s: Seq<Pair>, a: Assignment) -> bool {
    forall|i: int| 0 <= i < s.len() ==> (#[trigger] s[i]).0.holds(a)
}

impl Requirement {
    /// The constraint "the version of `package` lies in `versions`" on the
    /// canonical form of the ranges, and its mirror.
    pub fn add_constraints<'b>(&self, b: &'b Bump) -> (r: Pair<'b>)
        ensures
            pair_ok(r, None, self@, false),
            is_merge_of(decoded_ranges(r.1), self@.versions),
            has_all(self@.versions) ==> r.1 == Expr::Not(&Expr::Atom(AtomicExpr::VerEq { pid: self.package, version: 0 })),
    {
        let p = self.package;
        let ranges = merge_and_sort_ranges(self.versions.as_vec());
        let ghost rs = ranges@;
        let mut expr = Formula::Lit(false);
        let mut sym_expr = Expr::bot();
        let mut first = true;
        let mut i: usize = 0;
        while i < ranges.len()
            invariant
                i <= ranges@.len(),
                rs == ranges@,
                is_merge_of(rs, self.versions@),
                ranges_wf(self.versions@) ==> forall|x: int| ranges_contain(rs, x) == ranges_contain(self.versions@, x),
                first <==> i == 0,
                first ==> expr == Formula::Lit(false) && sym_expr == Expr::Bot,
                !first ==> range_mirror_wf(sym_expr, p),
                decoded_ranges(sym_expr) == rs.subrange(0, i as int),
                has_all(self.versions@) && i > 0 ==> sym_expr == Expr::Not(&Expr::Atom(AtomicExpr::VerEq { pid: p, version: 0 })),
                forall|a: Assignment| #[trigger] expr.holds(a) == sym_expr.holds(a),
                forall|a: Assignment| #[trigger] expr.holds(a) == ranges_contain(rs.subrange(0, i as int), a(p)),
            decreases ranges@.len() - i,
        {
            let ghost prev = expr;
            let ghost prev_sym = sym_expr;
            let rg = ranges[i];
            match rg {
                Range::Interval { lower, upper } => {
                    proof {
                        crate::intervals::lemma_merge_interval_ordered(rs, self.versions@, i as int);
                    }
                    let ge = var_ge(p, lower);
                    let le = var_le(p, upper);
                    let e = Formula::And(Box::new(ge), Box::new(le));
                    expr = Formula::Or(Box::new(expr), Box::new(e));
                    let range_expr = Expr::and(
                        b,
                        Expr::atom(AtomicExpr::ver_ge(p, lower)),
                        Expr::atom(AtomicExpr::ver_le(p, upper)),
                    );
                    assert(range_mirror_wf(range_expr, p));
                    assert(decoded_ranges(range_expr) =~= seq![rg]);
                    if first {
                        sym_expr = range_expr;
                    } else {
                        sym_expr = Expr::or(b, sym_expr, range_expr);
                    }
                    proof {
                        assert forall|a: Assignment|
                            #![trigger expr.holds(a)]
                            #![trigger sym_expr.holds(a)]
                            expr.holds(a) == (prev.holds(a) || rg.contains(a(p)))
                            && sym_expr.holds(a) == (prev_sym.holds(a) || rg.contains(a(p))) by {
                            assert(ge.holds(a) == (a(p) >= lower));
                            assert(le.holds(a) == (a(p) <= upper));
                            assert(e.holds(a) == (a(p) >= lower && a(p) <= upper));
                            assert(Expr::Atom(AtomicExpr::VerGE { pid: p, version: lower }).holds(a) == (a(p) >= lower));
                            assert(Expr::Atom(AtomicExpr::VerLE { pid: p, version: upper }).holds(a) == (a(p) <= upper));
                            assert(range_expr.holds(a) == rg.contains(a(p)));
                        }
                    }
                },
                Range::Point(v2) => {
                    let e = var_eq(p, v2);
                    expr = Formula::Or(Box::new(expr), Box::new(e));
                    let point_expr = Expr::atom(AtomicExpr::ver_eq(p, v2));
                    assert(range_mirror_wf(point_expr, p));
                    assert(decoded_ranges(point_expr) =~= seq![rg]);
                    if first {
                        sym_expr = point_expr;
                    } else {
                        sym_expr = Expr::or(b, sym_expr, point_expr);
                    }
                    proof {
                        assert forall|a: Assignment|
                            #![trigger expr.holds(a)]
                            #![trigger sym_expr.holds(a)]
                            expr.holds(a) == (prev.holds(a) || rg.contains(a(p)))
                            && sym_expr.holds(a) == (prev_sym.holds(a) || rg.contains(a(p))) by {
                            assert(e.holds(a) == (a(p) == v2));
                            assert(point_expr.holds(a) == rg.contains(a(p)));
                        }
                    }
                },
                Range::All => {
                    proof {
                        crate::intervals::lemma_merge_all_alone(rs, self.versions@, i as int);
                    }
                    let e = var_eq(p, 0);
                    expr = Formula::Not(Box::new(e));
                    sym_expr = Expr::not(b, Expr::atom(AtomicExpr::ver_eq(p, 0)));
                    assert(range_mirror_wf(sym_expr, p));
                    assert(decoded_ranges(sym_expr) =~= seq![rg]);
                    proof {
                        assert forall|a: Assignment|
                            #![trigger expr.holds(a)]
                            #![trigger sym_expr.holds(a)]
                            expr.holds(a) == (prev.holds(a) || rg.contains(a(p)))
                            && sym_expr.holds(a) == (prev_sym.holds(a) || rg.contains(a(p))) by {
                            assert(e.holds(a) == (a(p) == 0));
                            assert(Expr::Atom(AtomicExpr::VerEq { pid: p, version: 0 }).holds(a) == (a(p) == 0));
                        }
                    }
                },
            }
            proof {
                let s0 = rs.subrange(0, i as int);
                let s1 = rs.subrange(0, i + 1);
                assert(s1 =~= s0.push(rg));
                if i == 0 {
                    assert(s1 =~= seq![rg]);
                } else {
                    assert(decoded_ranges(sym_expr) =~= decoded_ranges(prev_sym) + seq![rg]);
                }
                assert forall|a: Assignment| #[trigger] expr.holds(a) == sym_expr.holds(a) by {
                    assert(prev.holds(a) == prev_sym.holds(a));
                }
                assert forall|a: Assignment| #[trigger] expr.holds(a) == ranges_contain(s1, a(p)) by {
                    assert(prev.holds(a) == ranges_contain(s0, a(p)));
                    if ranges_contain(s0, a(p)) {
                        let k = choose|k: int| 0 <= k < s0.len() && (#[trigger] s0[k]).contains(a(p));
                        assert(s1[k] == s0[k]);
                    }
                    if ranges_contain(s1, a(p)) {
                        let k = choose|k: int| 0 <= k < s1.len() && (#[trigger] s1[k]).contains(a(p));
                        if k < s0.len() {
                            assert(s0[k] == s1[k]);
                        }
                    }
                    if rg.contains(a(p)) {
                        assert(s1[i as int] == rg);
                    }
                }
            }
            first = false;
            i += 1;
        }
        proof {
            assert(rs.subrange(0, i as int) =~= rs);
            let versions = self.versions@;
            if self@.wf() {
                crate::intervals::lemma_merge_nonempty(rs, versions);
                assert forall|a: Assignment| #[trigger] expr.holds(a) == (guard_holds(None, a) ==> (self@.holds(a) != false)) by {
                    assert(ranges_contain(rs, a(p)) == ranges_contain(versions, a(p)));
                }
            }
        }
        (expr, sym_expr)
    }
}

} // verus!

verus! {

/// `p` is one of the constraints that encode package `pkg`: its lower
/// bound, its upper bound, or a requirement of one of its versions under
/// the guard that the package has that version.
pub open spec fn pkg_pair_sound(p: Pair, pkg: Package) -> bool {
    let id = pkg.id;
    let n = pkg.versions@.len();
    &&& lockstep(p)
    &&& {
        ||| (p.1 == Expr::Atom(AtomicExpr::VerGE { pid: id, version: 0 })
            && forall|a: Assignment| #[trigger] p.0.holds(a) == (a(id) >= 0))
        ||| (n <= u64::MAX && p.1 == Expr::Atom(AtomicExpr::VerLE { pid: id, version: n as u64 })
            && forall|a: Assignment| #[trigger] p.0.holds(a) == (a(id) <= n))
        ||| exists|v: int, i: int|
            1 <= v <= n && 0 <= i < pkg.reqs_of(v).dependencies.len()
                && #[trigger] pair_ok(p, Some((id, v as u64)), pkg.reqs_of(v).dependencies[i], false)
        ||| exists|v: int, j: int|
            1 <= v <= n && 0 <= j < pkg.reqs_of(v).conflicts.len()
                && #[trigger] pair_ok(p, Some((id, v as u64)), pkg.reqs_of(v).conflicts[j], true)
    }
}

pub open spec fn forces_at_least(f: Formula, id: PackageId, v: int) -> bool {
    forall|a: Assignment| #[trigger] f.holds(a) ==> a(id) >= v
}

pub open spec fn forces_at_most(f: Formula, id: PackageId, v: int) -> bool {
    forall|a: Assignment| #[trigger] f.holds(a) ==> a(id) <= v
}

/// Some pair of `s` at a position in `lo..hi` encodes `r` under `guard`.
pub open spec fn covered(s: Seq<Pair>, lo: int, hi: int, guard: Option<(PackageId, Version)>, r: ReqView, conflict: bool) -> bool {
    exists|k: int| lo <= k < hi && #[trigger] pair_ok(s[k], guard, r, conflict)
}

/// The pairs of `s` at positions `lo..hi` hold the bounds of package `pkg`
/// and a constraint for every requirement of each of its versions.
pub open spec fn pkg_pairs_complete(s: Seq<Pair>, lo: int, hi: int, pkg: Package) -> bool {
    let id = pkg.id;
    let n = pkg.versions@.len();
    &&& 0 <= lo <= hi <= s.len()
    &&& exists|k: int| lo <= k < hi && #[trigger] forces_at_least(s[k].0, id, 0)
    &&& exists|k: int| lo <= k < hi && #[trigger] forces_at_most(s[k].0, id, n as int)
    &&& forall|v: int, i: int|
        #![trigger pkg.reqs_of(v).dependencies[i]]
        1 <= v <= n && 0 <= i < pkg.reqs_of(v).dependencies.len()
            ==> covered(s, lo, hi, Some((id, v as u64)), pkg.reqs_of(v).dependencies[i], false)
    &&& forall|v: int, j: int|
        #![trigger pkg.reqs_of(v).conflicts[j]]
        1 <= v <= n && 0 <= j < pkg.reqs_of(v).conflicts.len()
            ==> covered(s, lo, hi, Some((id, v as u64)), pkg.reqs_of(v).conflicts[j], true)
}

/// The number of pairs that encode a requirement set.
pub open spec fn reqs_size(rs: ReqSetView) -> int {
    (rs.dependencies.len() + rs.conflicts.len()) as int
}

/// The number of pairs that encode the requirements of versions `1..=k`.
pub open spec fn prefix_size(pkg: Package, k: int) -> int
    decreases k,
{
    if k <= 0 {
        0
    } else {
        prefix_size(pkg, k - 1) + reqs_size(pkg.reqs_of(k))
    }
}

/// From position `base + 1` on, `s` holds the pairs of versions `1..=k` in
/// ascending order, each version's dependencies before its conflicts.
pub open spec fn placed(s: Seq<Pair>, base: int, pkg: Package, k: int) -> bool {
    &&& forall|v: int, i: int|
        #![trigger pkg.reqs_of(v).dependencies[i]]
        1 <= v <= k && 0 <= i < pkg.reqs_of(v).dependencies.len() ==> pair_ok(
            s[base + 1 + prefix_size(pkg, v - 1) + i],
            Some((pkg.id, v as u64)),
            pkg.reqs_of(v).dependencies[i],
            false,
        )
    &&& forall|v: int, j: int|
        #![trigger pkg.reqs_of(v).conflicts[j]]
        1 <= v <= k && 0 <= j < pkg.reqs_of(v).conflicts.len() ==> pair_ok(
            s[base + 1 + prefix_size(pkg, v - 1) + pkg.reqs_of(v).dependencies.len() + j],
            Some((pkg.id, v as u64)),
            pkg.reqs_of(v).conflicts[j],
            true,
        )
}

/// The pairs of package `pkg` from position `base`: its lower bound, then
/// the pairs of each version in ascending order, then its upper bound.
#[verifier::opaque]
pub open spec fn pkg_layout_at(s: Seq<Pair>, base: int, pkg: Package) -> bool {
    let id = pkg.id;
    let n = pkg.versions@.len() as int;
    let last = base + 1 + prefix_size(pkg, n);
    &&& 0 <= base
    &&& last < s.len()
    &&& s[base].1 == Expr::Atom(AtomicExpr::VerGE { pid: id, version: 0 })
    &&& forall|a: Assignment| #[trigger] s[base].0.holds(a) == (a(id) >= 0)
    &&& s[last].1 == Expr::Atom(AtomicExpr::VerLE { pid: id, version: n as u64 })
    &&& forall|a: Assignment| #[trigger] s[last].0.holds(a) == (a(id) <= n)
    &&& placed(s, base, pkg, n)
}

/// The pairs of package `pkg` at `base..`, and nothing after them.
pub open spec fn pkg_layout(s: Seq<Pair>, base: int, pkg: Package) -> bool {
    &&& s.len() == base + 2 + prefix_size(pkg, pkg.versions@.len() as int)
    &&& pkg_layout_at(s, base, pkg)
}

/// The pairs of version `w` end where those of version `k >= w` start.
proof fn lemma_prefix_size_mono(pkg: Package, w: int, k: int)
    requires
        1 <= w <= k,
    ensures
        prefix_size(pkg, w - 1) + reqs_size(pkg.reqs_of(w)) <= prefix_size(pkg, k),
        0 <= prefix_size(pkg, w - 1),
    decreases k,
{
    lemma_prefix_size_nonneg(pkg, w - 1);
    if w < k {
        lemma_prefix_size_mono(pkg, w, k - 1);
    }
}

proof fn lemma_prefix_size_nonneg(pkg: Package, k: int)
    ensures
        0 <= prefix_size(pkg, k),
    decreases k,
{
    if k > 0 {
        lemma_prefix_size_nonneg(pkg, k - 1);
    }
}

/// The constraint and mirror of `c`, `m` under the guard.
fn guarded<'b>(b: &'b Bump, guard: Option<(PackageId, Version)>, c: Formula, m: Expr<'b>) -> (r: Pair<'b>)
    ensures
        guard_shape(r.1, guard),
        unguarded(r.1, guard) == m,
        forall|a: Assignment| #[trigger] r.0.holds(a) == (guard_holds(guard, a) ==> c.holds(a)),
        forall|a: Assignment| #[trigger] r.1.holds(a) == (guard_holds(guard, a) ==> m.holds(a)),
{
    match guard {
        None => (c, m),
        Some((id, k)) => {
            let g = var_eq(id, k);
            let f = Formula::Implies(Box::new(g), Box::new(c));
            let e = Expr::implies(b, Expr::atom(AtomicExpr::ver_eq(id, k)), m);
            proof {
                assert forall|a: Assignment| #[trigger] e.holds(a) == (guard_holds(guard, a) ==> m.holds(a)) by {
                    assert(Expr::Atom(AtomicExpr::VerEq { pid: id, version: k }).holds(a) == (a(id) == k));
                }
                assert forall|a: Assignment| #[trigger] f.holds(a) == (guard_holds(guard, a) ==> c.holds(a)) by {
                    assert(g.holds(a) == (a(id) == k));
                }
            }
            (f, e)
        },
    }
}

/// Appends the pairs of `rs` under `guard`: one per dependency, then the
/// negated pair of each conflict.
fn push_reqset<'b>(
    rs: &RequirementSet,
    b: &'b Bump,
    guard: Option<(PackageId, Version)>,
    out: &mut Vec<Pair<'b>>,
)
    ensures
        final(out)@.len() == old(out)@.len() + rs@.dependencies.len() + rs@.conflicts.len(),
        forall|k: int| 0 <= k < old(out)@.len() ==> final(out)@[k] == old(out)@[k],
        forall|i: int|
            0 <= i < rs@.dependencies.len() ==> pair_ok(
                #[trigger] final(out)@[old(out)@.len() + i],
                guard,
                rs@.dependencies[i],
                false,
            ),
        forall|j: int|
            0 <= j < rs@.conflicts.len() ==> pair_ok(
                #[trigger] final(out)@[old(out)@.len() + rs@.dependencies.len() + j],
                guard,
                rs@.conflicts[j],
                true,
            ),
{
    let ghost base = old(out)@.len();
    let mut i: usize = 0;
    while i < rs.dependencies.len()
        invariant
            base == old(out)@.len(),
            i <= rs.dependencies@.len(),
            out@.len() == base + i,
            forall|k: int| 0 <= k < base ==> out@[k] == old(out)@[k],
            forall|x: int| 0 <= x < i ==> pair_ok(#[trigger] out@[base + x], guard, rs@.dependencies[x], false),
        decreases rs.dependencies@.len() - i,
    {
        let (c, m) = rs.dependencies[i].add_constraints(b);
        let ghost r = rs@.dependencies[i as int];
        assert(r == rs.dependencies@[i as int]@);
        let pr = guarded(b, guard, c, m);
        proof {
            assert forall|a: Assignment| #[trigger] pr.0.holds(a) == pr.1.holds(a) by {
                assert(c.holds(a) == m.holds(a));
            }
            if r.wf() {
                assert forall|a: Assignment| #[trigger] pr.0.holds(a) == (guard_holds(guard, a) ==> (r.holds(a) != false)) by {
                    assert(c.holds(a) == r.holds(a));
                }
            }
            assert(pair_ok(pr, guard, r, false));
        }
        out.push(pr);
        i += 1;
    }
    let mut j: usize = 0;
    while j < rs.conflicts.len()
        invariant
            base == old(out)@.len(),
            j <= rs.conflicts@.len(),
            out@.len() == base + rs@.dependencies.len() + j,
            forall|k: int| 0 <= k < base ==> out@[k] == old(out)@[k],
            forall|x: int|
                0 <= x < rs@.dependencies.len() ==> pair_ok(#[trigger] out@[base + x], guard, rs@.dependencies[x], false),
            forall|x: int|
                0 <= x < j ==> pair_ok(
                    #[trigger] out@[base + rs@.dependencies.len() + x],
                    guard,
                    rs@.conflicts[x],
                    true,
                ),
        decreases rs.conflicts@.len() - j,
    {
        let (c, m) = rs.conflicts[j].add_constraints(b);
        let ghost r = rs@.conflicts[j as int];
        assert(r == rs.conflicts@[j as int]@);
        let nm = Expr::not(b, m);
        let ghost cv = c;
        let nc = Formula::Not(Box::new(c));
        let pr = guarded(b, guard, nc, nm);
        proof {
            assert forall|a: Assignment| #[trigger] pr.0.holds(a) == pr.1.holds(a) by {
                assert(cv.holds(a) == m.holds(a));
                assert(nc.holds(a) == !cv.holds(a));
            }
            if r.wf() {
                assert forall|a: Assignment| #[trigger] pr.0.holds(a) == (guard_holds(guard, a) ==> (r.holds(a) != true)) by {
                    assert(cv.holds(a) == r.holds(a));
                    assert(nc.holds(a) == !cv.holds(a));
                }
                assert(range_mirror_wf(m, r.package));
                match m {
                    Expr::Not(x) => {
                        assert(nm == *x);
                    },
                    _ => {
                        assert(nm == Expr::Not(&m));
                    },
                }
            }
            assert(pair_ok(pr, guard, r, true));
        }
        out.push(pr);
        j += 1;
    }
}

impl RequirementSet {
    /// Appends one pair per dependency, then the negated pair of each conflict.
    pub fn add_constraints<'b>(&self, b: &'b Bump, out: &mut Vec<Pair<'b>>)
        ensures
            final(out)@.len() == old(out)@.len() + self@.dependencies.len() + self@.conflicts.len(),
            forall|k: int| 0 <= k < old(out)@.len() ==> final(out)@[k] == old(out)@[k],
            forall|i: int|
                0 <= i < self@.dependencies.len() ==> pair_ok(
                    #[trigger] final(out)@[old(out)@.len() + i],
                    None,
                    self@.dependencies[i],
                    false,
                ),
            forall|j: int|
                0 <= j < self@.conflicts.len() ==> pair_ok(
                    #[trigger] final(out)@[old(out)@.len() + self@.dependencies.len() + j],
                    None,
                    self@.conflicts[j],
                    true,
                ),
    {
        push_reqset(self, b, None, out);
    }
}

} // verus!

verus! {

impl Package {
    /// Appends the lower bound of the package, the guarded pairs of the
    /// requirements of each version in order, and the upper bound.
    pub fn add_constraints<'b>(&self, b: &'b Bump, out: &mut Vec<Pair<'b>>)
        ensures
            old(out)@.len() < final(out)@.len(),
            forall|k: int| 0 <= k < old(out)@.len() ==> final(out)@[k] == old(out)@[k],
            forall|k: int| old(out)@.len() <= k < final(out)@.len() ==> pkg_pair_sound(#[trigger] final(out)@[k], *self),
            pkg_pairs_complete(final(out)@, old(out)@.len() as int, final(out)@.len() as int, *self),
            pkg_layout(final(out)@, old(out)@.len() as int, *self),
    {
        let id = self.id;
        let ghost base = old(out)@.len() as int;
        let ghost n = self.versions@.len();
        let lower = var_ge(id, 0);
        proof {
            assert(forces_at_least(lower, id, 0));
        }
        out.push((lower, Expr::atom(AtomicExpr::ver_ge(id, 0))));
        let mut ver_counter: u64 = 0;
        let mut k: usize = 0;
        while k < self.versions.len()
            invariant
                base == old(out)@.len(),
                n == self.versions@.len(),
                id == self.id,
                k <= n,
                ver_counter == k,
                out@.len() > base,
                forall|x: int| 0 <= x < base ==> out@[x] == old(out)@[x],
                forces_at_least(out@[base].0, id, 0),
                out@[base].1 == Expr::Atom(AtomicExpr::VerGE { pid: id, version: 0 }),
                forall|a: Assignment| #[trigger] out@[base].0.holds(a) == (a(id) >= 0),
                out@.len() == base + 1 + prefix_size(*self, k as int),
                placed(out@, base, *self, k as int),
                forall|x: int| base <= x < out@.len() ==> pkg_pair_sound(#[trigger] out@[x], *self),
                forall|v: int, i: int|
                    #![trigger self.reqs_of(v).dependencies[i]]
                    1 <= v <= k && 0 <= i < self.reqs_of(v).dependencies.len()
                        ==> covered(out@, base, out@.len() as int, Some((id, v as u64)), self.reqs_of(v).dependencies[i], false),
                forall|v: int, j: int|
                    #![trigger self.reqs_of(v).conflicts[j]]
                    1 <= v <= k && 0 <= j < self.reqs_of(v).conflicts.len()
                        ==> covered(out@, base, out@.len() as int, Some((id, v as u64)), self.reqs_of(v).conflicts[j], true),
            decreases n - k,
        {
            ver_counter += 1;
            let ghost before = out@;
            let ghost rs = self.versions@[k as int].requirements@;
            assert(rs == self.reqs_of(ver_counter as int));
            push_reqset(&self.versions[k].requirements, b, Some((id, ver_counter)), out);
            proof {
                assert(prefix_size(*self, k + 1) == prefix_size(*self, k as int) + reqs_size(rs));
                assert forall|w: int, i: int|
                    #![trigger self.reqs_of(w).dependencies[i]]
                    1 <= w <= k + 1 && 0 <= i < self.reqs_of(w).dependencies.len() implies pair_ok(
                        out@[base + 1 + prefix_size(*self, w - 1) + i],
                        Some((id, w as u64)),
                        self.reqs_of(w).dependencies[i],
                        false,
                    ) by {
                    if w <= k {
                        lemma_prefix_size_mono(*self, w, k as int);
                        assert(out@[base + 1 + prefix_size(*self, w - 1) + i] == before[base + 1 + prefix_size(*self, w - 1) + i]);
                    }
                }
                assert forall|w: int, j: int|
                    #![trigger self.reqs_of(w).conflicts[j]]
                    1 <= w <= k + 1 && 0 <= j < self.reqs_of(w).conflicts.len() implies pair_ok(
                        out@[base + 1 + prefix_size(*self, w - 1) + self.reqs_of(w).dependencies.len() + j],
                        Some((id, w as u64)),
                        self.reqs_of(w).conflicts[j],
                        true,
                    ) by {
                    if w <= k {
                        lemma_prefix_size_mono(*self, w, k as int);
                        assert(out@[base + 1 + prefix_size(*self, w - 1) + self.reqs_of(w).dependencies.len() + j]
                            == before[base + 1 + prefix_size(*self, w - 1) + self.reqs_of(w).dependencies.len() + j]);
                    }
                }
                let v = ver_counter as int;
                let d = rs.dependencies.len();
                assert forall|x: int| base <= x < out@.len() implies pkg_pair_sound(#[trigger] out@[x], *self) by {
                    if x < before.len() {
                        assert(out@[x] == before[x]);
                    } else if x < before.len() + d {
                        let i = x - before.len();
                        assert(pair_ok(out@[before.len() + i], Some((id, v as u64)), rs.dependencies[i], false));
                    } else {
                        let j = x - before.len() - d;
                        assert(pair_ok(out@[before.len() + d + j], Some((id, v as u64)), rs.conflicts[j], true));
                    }
                }
                assert forall|w: int, i: int|
                    #![trigger self.reqs_of(w).dependencies[i]]
                    1 <= w <= k + 1 && 0 <= i < self.reqs_of(w).dependencies.len()
                        implies covered(out@, base, out@.len() as int, Some((id, w as u64)), self.reqs_of(w).dependencies[i], false) by {
                    if w <= k {
                        assert(covered(before, base, before.len() as int, Some((id, w as u64)), self.reqs_of(w).dependencies[i], false));
                        let x = choose|x: int| base <= x < before.len() && #[trigger] pair_ok(before[x], Some((id, w as u64)), self.reqs_of(w).dependencies[i], false);
                        assert(out@[x] == before[x]);
                    } else {
                        assert(pair_ok(out@[before.len() + i], Some((id, v as u64)), rs.dependencies[i], false));
                    }
                }
                assert forall|w: int, j: int|
                    #![trigger self.reqs_of(w).conflicts[j]]
                    1 <= w <= k + 1 && 0 <= j < self.reqs_of(w).conflicts.len()
                        implies covered(out@, base, out@.len() as int, Some((id, w as u64)), self.reqs_of(w).conflicts[j], true) by {
                    if w <= k {
                        assert(covered(before, base, before.len() as int, Some((id, w as u64)), self.reqs_of(w).conflicts[j], true));
                        let x = choose|x: int| base <= x < before.len() && #[trigger] pair_ok(before[x], Some((id, w as u64)), self.reqs_of(w).conflicts[j], true);
                        assert(out@[x] == before[x]);
                    } else {
                        assert(pair_ok(out@[before.len() + d + j], Some((id, v as u64)), rs.conflicts[j], true));
                    }
                }
            }
            k += 1;
        }
        let upper = var_le(id, ver_counter);
        proof {
            assert(forces_at_most(upper, id, n as int));
        }
        let ghost before = out@;
        out.push((upper, Expr::atom(AtomicExpr::ver_le(id, ver_counter))));
        proof {
            reveal(pkg_layout_at);
            assert(out@[base] == before[base]);
            assert(forces_at_most(out@[out@.len() - 1].0, id, n as int));
            assert forall|w: int, i: int|
                #![trigger self.reqs_of(w).dependencies[i]]
                1 <= w <= n && 0 <= i < self.reqs_of(w).dependencies.len() implies pair_ok(
                    out@[base + 1 + prefix_size(*self, w - 1) + i],
                    Some((id, w as u64)),
                    self.reqs_of(w).dependencies[i],
                    false,
                ) by {
                lemma_prefix_size_mono(*self, w, n as int);
                assert(out@[base + 1 + prefix_size(*self, w - 1) + i] == before[base + 1 + prefix_size(*self, w - 1) + i]);
            }
            assert forall|w: int, j: int|
                #![trigger self.reqs_of(w).conflicts[j]]
                1 <= w <= n && 0 <= j < self.reqs_of(w).conflicts.len() implies pair_ok(
                    out@[base + 1 + prefix_size(*self, w - 1) + self.reqs_of(w).dependencies.len() + j],
                    Some((id, w as u64)),
                    self.reqs_of(w).conflicts[j],
                    true,
                ) by {
                lemma_prefix_size_mono(*self, w, n as int);
                assert(out@[base + 1 + prefix_size(*self, w - 1) + self.reqs_of(w).dependencies.len() + j]
                    == before[base + 1 + prefix_size(*self, w - 1) + self.reqs_of(w).dependencies.len() + j]);
            }
            assert forall|x: int| base <= x < out@.len() implies pkg_pair_sound(#[trigger] out@[x], *self) by {
                if x < before.len() {
                    assert(out@[x] == before[x]);
                }
            }
            assert forall|w: int, i: int|
                #![trigger self.reqs_of(w).dependencies[i]]
                1 <= w <= n && 0 <= i < self.reqs_of(w).dependencies.len()
                    implies covered(out@, base, out@.len() as int, Some((id, w as u64)), self.reqs_of(w).dependencies[i], false) by {
                assert(covered(before, base, before.len() as int, Some((id, w as u64)), self.reqs_of(w).dependencies[i], false));
                let x = choose|x: int| base <= x < before.len() && #[trigger] pair_ok(before[x], Some((id, w as u64)), self.reqs_of(w).dependencies[i], false);
                assert(out@[x] == before[x]);
            }
            assert forall|w: int, j: int|
                #![trigger self.reqs_of(w).conflicts[j]]
                1 <= w <= n && 0 <= j < self.reqs_of(w).conflicts.len()
                    implies covered(out@, base, out@.len() as int, Some((id, w as u64)), self.reqs_of(w).conflicts[j], true) by {
                assert(covered(before, base, before.len() as int, Some((id, w as u64)), self.reqs_of(w).conflicts[j], true));
                let x = choose|x: int| base <= x < before.len() && #[trigger] pair_ok(before[x], Some((id, w as u64)), self.reqs_of(w).conflicts[j], true);
                assert(out@[x] == before[x]);
            }
            assert(forces_at_least(out@[base].0, id, 0));
            assert(base < out@.len());
        }
    }
}

} // verus!

verus! {

/// Package `p` has a version of its own or 0, and when installed the
/// requirements of that version hold.
pub open spec fn pkg_ok(repo: Repository, p: PackageId, a: Assignment) -> bool {
    &&& 0 <= a(p) <= repo.newest(p)
    &&& a(p) > 0 ==> repo.pkg(p).reqs_of(a(p)).holds(a)
}

/// A valid plan: every package of `pids` is fine and the top-level
/// requirements hold.
pub open spec fn plan_ok(repo: Repository, pids: Seq<PackageId>, reqs: ReqSetView, a: Assignment) -> bool {
    &&& forall|j: int| 0 <= j < pids.len() ==> pkg_ok(repo, #[trigger] pids[j], a)
    &&& reqs.holds(a)
}

/// `p` is a constraint of a package of `pids` or of a top-level requirement.
pub open spec fn pair_sound(repo: Repository, pids: Seq<PackageId>, reqs: ReqSetView, p: Pair) -> bool {
    ||| exists|j: int| 0 <= j < pids.len() && #[trigger] pkg_pair_sound(p, repo.pkg(pids[j]))
    ||| exists|i: int| 0 <= i < reqs.dependencies.len() && #[trigger] pair_ok(p, None, reqs.dependencies[i], false)
    ||| exists|i: int| 0 <= i < reqs.conflicts.len() && #[trigger] pair_ok(p, None, reqs.conflicts[i], true)
}

/// `s` encodes the decision problem: every pair stems from a package of
/// `pids` or a top-level requirement, and every package and requirement has
/// its pairs.
pub open spec fn problem_encoded(repo: Repository, pids: Seq<PackageId>, reqs: ReqSetView, s: Seq<Pair>) -> bool {
    &&& forall|k: int| 0 <= k < s.len() ==> pair_sound(repo, pids, reqs, #[trigger] s[k])
    &&& forall|j: int| 0 <= j < pids.len() ==> pkg_pairs_complete(s, 0, s.len() as int, repo.pkg(#[trigger] pids[j]))
    &&& forall|i: int|
        0 <= i < reqs.dependencies.len() ==> covered(s, 0, s.len() as int, None, #[trigger] reqs.dependencies[i], false)
    &&& forall|i: int|
        0 <= i < reqs.conflicts.len() ==> covered(s, 0, s.len() as int, None, #[trigger] reqs.conflicts[i], true)
}

proof fn lemma_covered_extend(
    s: Seq<Pair>,
    t: Seq<Pair>,
    lo: int,
    hi: int,
    guard: Option<(PackageId, Version)>,
    r: ReqView,
    conflict: bool,
)
    requires
        covered(s, lo, hi, guard, r, conflict),
        s.len() <= t.len(),
        0 <= lo,
        hi <= s.len(),
        forall|k: int| 0 <= k < s.len() ==> t[k] == s[k],
    ensures
        covered(t, 0, t.len() as int, guard, r, conflict),
{
    let k = choose|k: int| lo <= k < hi && #[trigger] pair_ok(s[k], guard, r, conflict);
    assert(t[k] == s[k]);
}

proof fn lemma_complete_extend(s: Seq<Pair>, t: Seq<Pair>, lo: int, hi: int, pkg: Package)
    requires
        pkg_pairs_complete(s, lo, hi, pkg),
        s.len() <= t.len(),
        forall|k: int| 0 <= k < s.len() ==> t[k] == s[k],
    ensures
        pkg_pairs_complete(t, 0, t.len() as int, pkg),
{
    let id = pkg.id;
    let n = pkg.versions@.len();
    let k1 = choose|k: int| lo <= k < hi && #[trigger] forces_at_least(s[k].0, id, 0);
    assert(t[k1] == s[k1]);
    let k2 = choose|k: int| lo <= k < hi && #[trigger] forces_at_most(s[k].0, id, n as int);
    assert(t[k2] == s[k2]);
    assert forall|v: int, i: int|
        #![trigger pkg.reqs_of(v).dependencies[i]]
        1 <= v <= n && 0 <= i < pkg.reqs_of(v).dependencies.len()
            implies covered(t, 0, t.len() as int, Some((id, v as u64)), pkg.reqs_of(v).dependencies[i], false) by {
        lemma_covered_extend(s, t, lo, hi, Some((id, v as u64)), pkg.reqs_of(v).dependencies[i], false);
    }
    assert forall|v: int, j: int|
        #![trigger pkg.reqs_of(v).conflicts[j]]
        1 <= v <= n && 0 <= j < pkg.reqs_of(v).conflicts.len()
            implies covered(t, 0, t.len() as int, Some((id, v as u64)), pkg.reqs_of(v).conflicts[j], true) by {
        lemma_covered_extend(s, t, lo, hi, Some((id, v as u64)), pkg.reqs_of(v).conflicts[j], true);
    }
}

/// The pairs of every package of `pids`, in that order, followed by the pairs
/// of the top-level requirements.
pub fn add_all_constraints<'b>(
    b: &'b Bump,
    repo: &Repository,
    pids: &Vec<PackageId>,
    requirements: &RequirementSet,
) -> (r: Vec<Pair<'b>>)
    requires
        forall|j: int| 0 <= j < pids@.len() ==> repo.has(#[trigger] pids@[j]),
    ensures
        problem_encoded(*repo, pids@, requirements@, r@),
{
    let mut out: Vec<Pair<'b>> = Vec::new();
    let mut j: usize = 0;
    while j < pids.len()
        invariant
            j <= pids@.len(),
            forall|x: int| 0 <= x < pids@.len() ==> repo.has(#[trigger] pids@[x]),
            forall|k: int| 0 <= k < out@.len() ==> pair_sound(*repo, pids@, requirements@, #[trigger] out@[k]),
            forall|x: int| 0 <= x < j ==> pkg_pairs_complete(out@, 0, out@.len() as int, repo.pkg(#[trigger] pids@[x])),
        decreases pids@.len() - j,
    {
        let ghost before = out@;
        let package = repo.get_package_unchecked(pids[j]);
        package.add_constraints(b, &mut out);
        proof {
            assert forall|k: int| 0 <= k < out@.len() implies pair_sound(*repo, pids@, requirements@, #[trigger] out@[k]) by {
                if k < before.len() {
                    assert(out@[k] == before[k]);
                } else {
                    assert(pkg_pair_sound(out@[k], repo.pkg(pids@[j as int])));
                }
            }
            assert forall|x: int| 0 <= x < j + 1 implies pkg_pairs_complete(out@, 0, out@.len() as int, repo.pkg(#[trigger] pids@[x])) by {
                if x < j {
                    lemma_complete_extend(before, out@, 0, before.len() as int, repo.pkg(pids@[x]));
                } else {
                    lemma_complete_extend(out@, out@, before.len() as int, out@.len() as int, repo.pkg(pids@[x]));
                }
            }
        }
        j += 1;
    }
    let ghost before = out@;
    requirements.add_constraints(b, &mut out);
    proof {
        let rs = requirements@;
        let d = rs.dependencies.len();
        assert forall|k: int| 0 <= k < out@.len() implies pair_sound(*repo, pids@, requirements@, #[trigger] out@[k]) by {
            if k < before.len() {
                assert(out@[k] == before[k]);
            } else if k < before.len() + d {
                let i = k - before.len();
                assert(pair_ok(out@[before.len() + i], None, rs.dependencies[i], false));
            } else {
                let i = k - before.len() - d;
                assert(pair_ok(out@[before.len() + d + i], None, rs.conflicts[i], true));
            }
        }
        assert forall|x: int| 0 <= x < pids@.len() implies pkg_pairs_complete(out@, 0, out@.len() as int, repo.pkg(#[trigger] pids@[x])) by {
            lemma_complete_extend(before, out@, 0, before.len() as int, repo.pkg(pids@[x]));
        }
        assert forall|i: int| 0 <= i < d implies covered(out@, 0, out@.len() as int, None, #[trigger] rs.dependencies[i], false) by {
            assert(pair_ok(out@[before.len() + i], None, rs.dependencies[i], false));
        }
        assert forall|i: int| 0 <= i < rs.conflicts.len() implies covered(out@, 0, out@.len() as int, None, #[trigger] rs.conflicts[i], true) by {
            assert(pair_ok(out@[before.len() + d + i], None, rs.conflicts[i], true));
        }
    }
    out
}

} // verus!

verus! {

proof fn lemma_complete_pkg_ok(repo: Repository, s: Seq<Pair>, p: PackageId, a: Assignment)
    requires
        repo.wf(),
        repo.has(p),
        all_hold(s, a),
        pkg_pairs_complete(s, 0, s.len() as int, repo.pkg(p)),
    ensures
        pkg_ok(repo, p, a),
{
    let pkg = repo.pkg(p);
    assert(pkg.id == p);
    let n = pkg.versions@.len();
    let k1 = choose|k: int| 0 <= k < s.len() && #[trigger] forces_at_least(s[k].0, p, 0);
    assert(s[k1].0.holds(a));
    let k2 = choose|k: int| 0 <= k < s.len() && #[trigger] forces_at_most(s[k].0, p, n as int);
    assert(s[k2].0.holds(a));
    assert(n <= u64::MAX);
    if a(p) > 0 {
        let v = a(p);
        let rs = pkg.reqs_of(v);
        assert(rs.wf());
        assert forall|i: int| 0 <= i < rs.dependencies.len() implies (#[trigger] rs.dependencies[i]).holds(a) by {
            assert(covered(s, 0, s.len() as int, Some((p, v as u64)), pkg.reqs_of(v).dependencies[i], false));
            let k = choose|k: int| 0 <= k < s.len() && #[trigger] pair_ok(s[k], Some((p, v as u64)), rs.dependencies[i], false);
            assert(s[k].0.holds(a));
            assert(rs.dependencies[i].wf());
        }
        assert forall|i: int| 0 <= i < rs.conflicts.len() implies !(#[trigger] rs.conflicts[i]).holds(a) by {
            assert(covered(s, 0, s.len() as int, Some((p, v as u64)), pkg.reqs_of(v).conflicts[i], true));
            let k = choose|k: int| 0 <= k < s.len() && #[trigger] pair_ok(s[k], Some((p, v as u64)), rs.conflicts[i], true);
            assert(s[k].0.holds(a));
            assert(rs.conflicts[i].wf());
        }
    }
}

proof fn lemma_pkg_pair_holds(repo: Repository, id: PackageId, p: Pair, a: Assignment)
    requires
        repo.wf(),
        repo.has(id),
        pkg_ok(repo, id, a),
        pkg_pair_sound(p, repo.pkg(id)),
    ensures
        p.0.holds(a),
{
    let pkg = repo.pkg(id);
    assert(pkg.id == id);
    let n = pkg.versions@.len();
    if exists|v: int, i: int|
        1 <= v <= n && 0 <= i < pkg.reqs_of(v).dependencies.len()
            && #[trigger] pair_ok(p, Some((id, v as u64)), pkg.reqs_of(v).dependencies[i], false) {
        let (v, i) = choose|v: int, i: int|
            1 <= v <= n && 0 <= i < pkg.reqs_of(v).dependencies.len()
                && #[trigger] pair_ok(p, Some((id, v as u64)), pkg.reqs_of(v).dependencies[i], false);
        assert(pkg.reqs_of(v).wf());
        assert(pkg.reqs_of(v).dependencies[i].wf());
        if a(id) == v {
            assert(pkg.reqs_of(a(id)).holds(a));
            assert(pkg.reqs_of(v).dependencies[i].holds(a));
        }
    } else if exists|v: int, i: int|
        1 <= v <= n && 0 <= i < pkg.reqs_of(v).conflicts.len()
            && #[trigger] pair_ok(p, Some((id, v as u64)), pkg.reqs_of(v).conflicts[i], true) {
        let (v, i) = choose|v: int, i: int|
            1 <= v <= n && 0 <= i < pkg.reqs_of(v).conflicts.len()
                && #[trigger] pair_ok(p, Some((id, v as u64)), pkg.reqs_of(v).conflicts[i], true);
        assert(pkg.reqs_of(v).wf());
        assert(pkg.reqs_of(v).conflicts[i].wf());
        if a(id) == v {
            assert(pkg.reqs_of(a(id)).holds(a));
            assert(!pkg.reqs_of(v).conflicts[i].holds(a));
        }
    }
}

proof fn lemma_sound_pair_holds(repo: Repository, pids: Seq<PackageId>, reqs: ReqSetView, p: Pair, a: Assignment)
    requires
        repo.wf(),
        reqs.wf(),
        forall|j: int| 0 <= j < pids.len() ==> repo.has(#[trigger] pids[j]),
        plan_ok(repo, pids, reqs, a),
        pair_sound(repo, pids, reqs, p),
    ensures
        p.0.holds(a),
{
    if exists|j: int| 0 <= j < pids.len() && #[trigger] pkg_pair_sound(p, repo.pkg(pids[j])) {
        let j = choose|j: int| 0 <= j < pids.len() && #[trigger] pkg_pair_sound(p, repo.pkg(pids[j]));
        lemma_pkg_pair_holds(repo, pids[j], p, a);
    } else if exists|i: int| 0 <= i < reqs.dependencies.len() && #[trigger] pair_ok(p, None, reqs.dependencies[i], false) {
        let i = choose|i: int| 0 <= i < reqs.dependencies.len() && #[trigger] pair_ok(p, None, reqs.dependencies[i], false);
        assert(reqs.dependencies[i].wf());
    } else {
        let i = choose|i: int| 0 <= i < reqs.conflicts.len() && #[trigger] pair_ok(p, None, reqs.conflicts[i], true);
        assert(reqs.conflicts[i].wf());
    }
}

/// The encoding is exact: on a well-formed repository, an assignment
/// satisfies every constraint of the encoded problem exactly when it is a
/// valid plan. Each package of `pids` gets 0 or one of its own versions,
/// every installed version has its dependencies met and its conflicts
/// avoided, and the top-level dependencies hold while the top-level
/// conflicts do not. So every model that the engine returns is such a plan.
pub proof fn lemma_encoding_exact(
    repo: Repository,
    pids: Seq<PackageId>,
    reqs: ReqSetView,
    s: Seq<Pair>,
    a: Assignment,
)
    requires
        repo.wf(),
        reqs.wf(),
        forall|j: int| 0 <= j < pids.len() ==> repo.has(#[trigger] pids[j]),
        problem_encoded(repo, pids, reqs, s),
    ensures
        all_hold(s, a) <==> plan_ok(repo, pids, reqs, a),
{
    if all_hold(s, a) {
        assert forall|j: int| 0 <= j < pids.len() implies pkg_ok(repo, #[trigger] pids[j], a) by {
            lemma_complete_pkg_ok(repo, s, pids[j], a);
        }
        assert forall|i: int| 0 <= i < reqs.dependencies.len() implies (#[trigger] reqs.dependencies[i]).holds(a) by {
            assert(covered(s, 0, s.len() as int, None, reqs.dependencies[i], false));
            let k = choose|k: int| 0 <= k < s.len() && #[trigger] pair_ok(s[k], None, reqs.dependencies[i], false);
            assert(s[k].0.holds(a));
        }
        assert forall|i: int| 0 <= i < reqs.conflicts.len() implies !(#[trigger] reqs.conflicts[i]).holds(a) by {
            assert(covered(s, 0, s.len() as int, None, reqs.conflicts[i], true));
            let k = choose|k: int| 0 <= k < s.len() && #[trigger] pair_ok(s[k], None, reqs.conflicts[i], true);
            assert(s[k].0.holds(a));
        }
    }
    if plan_ok(repo, pids, reqs, a) {
        assert forall|k: int| 0 <= k < s.len() implies (#[trigger] s[k]).0.holds(a) by {
            lemma_sound_pair_holds(repo, pids, reqs, s[k], a);
        }
    }
}

} // verus!
