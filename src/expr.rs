// Symbolic formulas over package versions, built alongside each solver
// constraint so that an unsatisfiable core can be reported in terms of
// packages and ranges.
use vstd::prelude::*;

use crate::types::{Assignment, PackageId, Version};
use bumpalo::Bump;

verus! {

#[verifier::external_type_specification]
#[verifier::external_body]
pub struct ExBump<const MIN_ALIGN: usize>(bumpalo::Bump<MIN_ALIGN>);

#[derive(Clone, Copy, Debug, PartialEq, Eq, Structural)]
pub enum AtomicExpr {
    VerEq { pid: PackageId, version: Version },
    VerLE { pid: PackageId, version: Version },
    VerGE { pid: PackageId, version: Version },
}

impl AtomicExpr {
    pub open spec fn holds(self, a: Assignment) -> bool {
        match self {
            AtomicExpr::VerEq { pid, version } => a(pid) == version,
            AtomicExpr::VerLE { pid, version } => a(pid) <= version,
            AtomicExpr::VerGE { pid, version } => a(pid) >= version,
        }
    }

    pub fn ver_eq(pid: PackageId, version: Version) -> (r: AtomicExpr)
        ensures
            r == (AtomicExpr::VerEq { pid, version }),
    {
        AtomicExpr::VerEq { pid, version }
    }

    pub fn ver_le(pid: PackageId, version: Version) -> (r: AtomicExpr)
        ensures
            r == (AtomicExpr::VerLE { pid, version }),
    {
        AtomicExpr::VerLE { pid, version }
    }

    pub fn ver_ge(pid: PackageId, version: Version) -> (r: AtomicExpr)
        ensures
            r == (AtomicExpr::VerGE { pid, version }),
    {
        AtomicExpr::VerGE { pid, version }
    }
}

/// A formula whose sub-formulas live in an arena.
#[derive(Clone, Copy, Debug)]
pub enum Expr<'a> {
    Atom(AtomicExpr),
    Not(&'a Expr<'a>),
    And(&'a Expr<'a>, &'a Expr<'a>),
    Or(&'a Expr<'a>, &'a Expr<'a>),
    Implies(&'a Expr<'a>, &'a Expr<'a>),
    Bot,
    Top,
}

impl<'a> Expr<'a> {
    /// The truth value of the formula when every package has the version `a` gives it.
    pub open spec fn holds(self, a: Assignment) -> bool
        decreases self,
    {
        match self {
            Expr::Atom(e) => e.holds(a),
            Expr::Not(e) => !(*e).holds(a),
            Expr::And(l, r) => (*l).holds(a) && (*r).holds(a),
            Expr::Or(l, r) => (*l).holds(a) || (*r).holds(a),
            Expr::Implies(l, r) => (*l).holds(a) ==> (*r).holds(a),
            Expr::Bot => false,
            Expr::Top => true,
        }
    }

    /// Negation, where a double negation cancels.
    pub open spec fn negate(e: Expr<'a>) -> Expr<'a> {
        match e {
            Expr::Not(inner) => *inner,
            _ => Expr::Not(&e),
        }
    }

    pub fn atom(expr: AtomicExpr) -> (r: Expr<'a>)
        ensures
            r == Expr::Atom(expr),
    {
        Expr::Atom(expr)
    }

    pub fn not(b: &'a Bump, expr: Expr<'a>) -> (r: Expr<'a>)
        ensures
            r == Expr::negate(expr),
            forall|a: Assignment| r.holds(a) == !expr.holds(a),
    {
        match expr {
            Expr::Not(inner) => *inner,
            _ => Expr::Not(arena_alloc(b, expr)),
        }
    }

    pub fn and(b: &'a Bump, expr1: Expr<'a>, expr2: Expr<'a>) -> (r: Expr<'a>)
        ensures
            r == Expr::And(&expr1, &expr2),
    {
        Expr::And(arena_alloc(b, expr1), arena_alloc(b, expr2))
    }

    pub fn or(b: &'a Bump, expr1: Expr<'a>, expr2: Expr<'a>) -> (r: Expr<'a>)
        ensures
            r == Expr::Or(&expr1, &expr2),
    {
        Expr::Or(arena_alloc(b, expr1), arena_alloc(b, expr2))
    }

    pub fn implies(b: &'a Bump, expr1: Expr<'a>, expr2: Expr<'a>) -> (r: Expr<'a>)
        ensures
            r == Expr::Implies(&expr1, &expr2),
    {
        Expr::Implies(arena_alloc(b, expr1), arena_alloc(b, expr2))
    }

    pub fn bot() -> (r: Expr<'a>)
        ensures
            r == Expr::Bot,
    {
        Expr::Bot
    }

    pub fn top() -> (r: Expr<'a>)
        ensures
            r == Expr::Top,
    {
        Expr::Top
    }
}

/// Relies on bumpalo::Bump::alloc: the value is moved into the arena and a
/// reference to it comes back.
#[verifier::external_body]
fn arena_alloc<'a>(b: &'a Bump, e: Expr<'a>) -> (r: &'a Expr<'a>)
    ensures
        *r == e,
{
    b.alloc(e)
}

} // verus!
