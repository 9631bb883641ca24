// The shapes of the symbolic mirrors that the encoder emits, and the ranges
// that a mirror stands for.
use vstd::prelude::*;

use crate::expr::{AtomicExpr, Expr};
use crate::types::{Assignment, PackageId, Range, ranges_contain};

verus! {

/// The package of the leftmost atom of `e`.
pub open spec fn mirror_pkg(e: Expr) -> PackageId
    decreases e,
{
    match e {
        Expr::Atom(AtomicExpr::VerEq { pid, .. }) => pid,
        Expr::Atom(AtomicExpr::VerLE { pid, .. }) => pid,
        Expr::Atom(AtomicExpr::VerGE { pid, .. }) => pid,
        Expr::Not(x) => mirror_pkg(*x),
        Expr::And(l, _) => mirror_pkg(*l),
        Expr::Or(l, _) => mirror_pkg(*l),
        Expr::Implies(l, _) => mirror_pkg(*l),
        _ => 0,
    }
}

/// `e` is a mirror of a version range of package `p`: a point, a pair of
/// bounds, "installed", or a disjunction of such.
pub open spec fn range_mirror_wf(e: Expr, p: PackageId) -> bool
    decreases e,
{
    match e {
        Expr::Atom(AtomicExpr::VerEq { pid, .. }) => pid == p,
        Expr::And(l, r) => match (*l, *r) {
            (
                Expr::Atom(AtomicExpr::VerGE { pid: p1, version: lb }),
                Expr::Atom(AtomicExpr::VerLE { pid: p2, version: ub }),
            ) => p1 == p && p2 == p && lb <= ub,
            (
                Expr::Atom(AtomicExpr::VerLE { pid: p1, version: ub }),
                Expr::Atom(AtomicExpr::VerGE { pid: p2, version: lb }),
            ) => p1 == p && p2 == p && lb <= ub,
            _ => false,
        },
        Expr::Or(l, r) => range_mirror_wf(*l, p) && range_mirror_wf(*r, p),
        Expr::Not(x) => *x == Expr::Atom(AtomicExpr::VerEq { pid: p, version: 0 }),
        _ => false,
    }
}

/// A range mirror of the package it names.
pub open spec fn req_mirror_wf(e: Expr) -> bool {
    range_mirror_wf(e, mirror_pkg(e))
}

/// The negated mirror of a range of package `p`.
pub open spec fn conflict_mirror_wf(e: Expr, p: PackageId) -> bool {
    ||| e == Expr::Atom(AtomicExpr::VerEq { pid: p, version: 0 })
    ||| (e matches Expr::Not(x) && range_mirror_wf(*x, p) && !(*x is Not))
}

pub open spec fn bound_lower(e: Expr) -> u64 {
    match e {
        Expr::Atom(AtomicExpr::VerGE { version, .. }) => version,
        _ => 0,
    }
}

pub open spec fn bound_upper(e: Expr) -> u64 {
    match e {
        Expr::Atom(AtomicExpr::VerLE { version, .. }) => version,
        _ => 0,
    }
}

/// The ranges that a range mirror stands for, in the order of its atoms.
pub open spec fn decoded_ranges(e: Expr) -> Seq<Range>
    decreases e,
{
    match e {
        Expr::Atom(AtomicExpr::VerEq { version, .. }) => seq![Range::Point(version)],
        Expr::And(l, r) => {
            let lb = if *r matches Expr::Atom(AtomicExpr::VerGE { .. }) {
                bound_lower(*r)
            } else {
                bound_lower(*l)
            };
            let ub = if *r matches Expr::Atom(AtomicExpr::VerLE { .. }) {
                bound_upper(*r)
            } else {
                bound_upper(*l)
            };
            seq![Range::interval_spec(lb, ub)->0]
        },
        Expr::Or(l, r) => decoded_ranges(*l) + decoded_ranges(*r),
        Expr::Not(_) => seq![Range::All],
        _ => Seq::empty(),
    }
}

/// A range mirror holds exactly where the chosen version lies in the ranges
/// that it decodes to.
pub proof fn lemma_range_mirror(e: Expr, p: PackageId, a: Assignment)
    requires
        range_mirror_wf(e, p),
    ensures
        e.holds(a) == ranges_contain(decoded_ranges(e), a(p)),
        decoded_ranges(e).len() > 0,
    decreases e,
{
    match e {
        Expr::Atom(AtomicExpr::VerEq { version, .. }) => {
            let d = decoded_ranges(e);
            assert(d[0] == Range::Point(version));
            if e.holds(a) {
                assert(d[0].contains(a(p)));
            }
        },
        Expr::And(l, r) => {
            let d = decoded_ranges(e);
            assert(e.holds(a) == ((*l).holds(a) && (*r).holds(a)));
            match (*l, *r) {
                (
                    Expr::Atom(AtomicExpr::VerGE { version: lb, .. }),
                    Expr::Atom(AtomicExpr::VerLE { version: ub, .. }),
                ) => {
                    assert((*l).holds(a) == (a(p) >= lb));
                    assert((*r).holds(a) == (a(p) <= ub));
                },
                (
                    Expr::Atom(AtomicExpr::VerLE { version: ub, .. }),
                    Expr::Atom(AtomicExpr::VerGE { version: lb, .. }),
                ) => {
                    assert((*l).holds(a) == (a(p) <= ub));
                    assert((*r).holds(a) == (a(p) >= lb));
                },
                _ => {},
            }
            assert(d[0].contains(a(p)) == e.holds(a));
        },
        Expr::Or(l, r) => {
            lemma_range_mirror(*l, p, a);
            lemma_range_mirror(*r, p, a);
            let dl = decoded_ranges(*l);
            let dr = decoded_ranges(*r);
            let d = decoded_ranges(e);
            assert(d == dl + dr);
            if ranges_contain(dl, a(p)) {
                let i = choose|i: int| 0 <= i < dl.len() && (#[trigger] dl[i]).contains(a(p));
                assert(d[i] == dl[i]);
            }
            if ranges_contain(dr, a(p)) {
                let i = choose|i: int| 0 <= i < dr.len() && (#[trigger] dr[i]).contains(a(p));
                assert(d[dl.len() + i] == dr[i]);
            }
            if ranges_contain(d, a(p)) {
                let i = choose|i: int| 0 <= i < d.len() && (#[trigger] d[i]).contains(a(p));
                if i < dl.len() {
                    assert(dl[i] == d[i]);
                } else {
                    assert(dr[i - dl.len()] == d[i]);
                }
            }
        },
        Expr::Not(x) => {
            let d = decoded_ranges(e);
            assert(d[0] == Range::All);
            assert((*x).holds(a) == (a(p) == 0));
            if e.holds(a) {
                assert(d[0].contains(a(p)));
            }
        },
        _ => {},
    }
}

} // verus!
