// The constraint language handed to the SMT engine: quantifier-free linear
// integer arithmetic over one integer constant per package id.
use vstd::prelude::*;

use crate::types::{Assignment, PackageId, Version};

verus! {

#[derive(Debug, PartialEq, Eq)]
pub enum IntTerm {
    /// The version chosen for a package.
    Var(PackageId),
    Const(u64),
    /// The negation of a constant.
    NegConst(u64),
    Add(Box<IntTerm>, Box<IntTerm>),
    Sub(Box<IntTerm>, Box<IntTerm>),
    Ite(Box<Formula>, Box<IntTerm>, Box<IntTerm>),
}

#[derive(Debug, PartialEq, Eq)]
pub enum Formula {
    Lit(bool),
    Eq(Box<IntTerm>, Box<IntTerm>),
    Le(Box<IntTerm>, Box<IntTerm>),
    Ge(Box<IntTerm>, Box<IntTerm>),
    Lt(Box<IntTerm>, Box<IntTerm>),
    Gt(Box<IntTerm>, Box<IntTerm>),
    Not(Box<Formula>),
    And(Box<Formula>, Box<Formula>),
    Or(Box<Formula>, Box<Formula>),
    Implies(Box<Formula>, Box<Formula>),
}

impl IntTerm {
    pub open spec fn value(self, a: Assignment) -> int
        decreases self,
    {
        match self {
            IntTerm::Var(p) => a(p),
            IntTerm::Const(c) => c as int,
            IntTerm::NegConst(c) => -(c as int),
            IntTerm::Add(l, r) => l.value(a) + r.value(a),
            IntTerm::Sub(l, r) => l.value(a) - r.value(a),
            IntTerm::Ite(c, t, e) => if c.holds(a) { t.value(a) } else { e.value(a) },
        }
    }

    /// A copy of the term.
    pub fn duplicate(&self) -> (r: IntTerm)
        ensures
            r == *self,
        decreases self,
    {
        match self {
            IntTerm::Var(p) => IntTerm::Var(*p),
            IntTerm::Const(c) => IntTerm::Const(*c),
            IntTerm::NegConst(c) => IntTerm::NegConst(*c),
            IntTerm::Add(l, r) => IntTerm::Add(Box::new(l.duplicate()), Box::new(r.duplicate())),
            IntTerm::Sub(l, r) => IntTerm::Sub(Box::new(l.duplicate()), Box::new(r.duplicate())),
            IntTerm::Ite(c, t, e) => IntTerm::Ite(
                Box::new(c.duplicate()),
                Box::new(t.duplicate()),
                Box::new(e.duplicate()),
            ),
        }
    }
}

impl Formula {
    pub open spec fn holds(self, a: Assignment) -> bool
        decreases self,
    {
        match self {
            Formula::Lit(b) => b,
            Formula::Eq(l, r) => l.value(a) == r.value(a),
            Formula::Le(l, r) => l.value(a) <= r.value(a),
            Formula::Ge(l, r) => l.value(a) >= r.value(a),
            Formula::Lt(l, r) => l.value(a) < r.value(a),
            Formula::Gt(l, r) => l.value(a) > r.value(a),
            Formula::Not(f) => !f.holds(a),
            Formula::And(l, r) => l.holds(a) && r.holds(a),
            Formula::Or(l, r) => l.holds(a) || r.holds(a),
            Formula::Implies(l, r) => l.holds(a) ==> r.holds(a),
        }
    }

    /// A copy of the formula.
    pub fn duplicate(&self) -> (r: Formula)
        ensures
            r == *self,
        decreases self,
    {
        match self {
            Formula::Lit(b) => Formula::Lit(*b),
            Formula::Eq(l, r) => Formula::Eq(Box::new(l.duplicate()), Box::new(r.duplicate())),
            Formula::Le(l, r) => Formula::Le(Box::new(l.duplicate()), Box::new(r.duplicate())),
            Formula::Ge(l, r) => Formula::Ge(Box::new(l.duplicate()), Box::new(r.duplicate())),
            Formula::Lt(l, r) => Formula::Lt(Box::new(l.duplicate()), Box::new(r.duplicate())),
            Formula::Gt(l, r) => Formula::Gt(Box::new(l.duplicate()), Box::new(r.duplicate())),
            Formula::Not(f) => Formula::Not(Box::new(f.duplicate())),
            Formula::And(l, r) => Formula::And(Box::new(l.duplicate()), Box::new(r.duplicate())),
            Formula::Or(l, r) => Formula::Or(Box::new(l.duplicate()), Box::new(r.duplicate())),
            Formula::Implies(l, r) => Formula::Implies(Box::new(l.duplicate()), Box::new(r.duplicate())),
        }
    }
}

/// `V_pid == version`.
pub fn var_eq(pid: PackageId, version: Version) -> (r: Formula)
    ensures
        forall|a: Assignment| r.holds(a) == (a(pid) == version),
{
    let r = Formula::Eq(Box::new(IntTerm::Var(pid)), Box::new(IntTerm::Const(version)));
    assert forall|a: Assignment| r.holds(a) == (a(pid) == version) by {
        assert(IntTerm::Var(pid).value(a) == a(pid));
        assert(IntTerm::Const(version).value(a) == version);
    }
    r
}

/// `V_pid <= version`.
pub fn var_le(pid: PackageId, version: Version) -> (r: Formula)
    ensures
        forall|a: Assignment| r.holds(a) == (a(pid) <= version),
{
    let r = Formula::Le(Box::new(IntTerm::Var(pid)), Box::new(IntTerm::Const(version)));
    assert forall|a: Assignment| r.holds(a) == (a(pid) <= version) by {
        assert(IntTerm::Var(pid).value(a) == a(pid));
        assert(IntTerm::Const(version).value(a) == version);
    }
    r
}

/// `V_pid >= version`.
pub fn var_ge(pid: PackageId, version: Version) -> (r: Formula)
    ensures
        forall|a: Assignment| r.holds(a) == (a(pid) >= version),
{
    let r = Formula::Ge(Box::new(IntTerm::Var(pid)), Box::new(IntTerm::Const(version)));
    assert forall|a: Assignment| r.holds(a) == (a(pid) >= version) by {
        assert(IntTerm::Var(pid).value(a) == a(pid));
        assert(IntTerm::Const(version).value(a) == version);
    }
    r
}

pub fn zero() -> (r: IntTerm)
    ensures
        forall|a: Assignment| r.value(a) == 0,
{
    IntTerm::Const(0)
}

/// The sign of `t`: 1, -1 or 0.
pub fn sgn(t: IntTerm) -> (r: IntTerm)
    ensures
        forall|a: Assignment| r.value(a) == if t.value(a) > 0 { 1int } else if t.value(a) < 0 { -1int } else { 0int },
{
    let ghost tv = t;
    let pos = Formula::Gt(Box::new(t.duplicate()), Box::new(IntTerm::Const(0)));
    let neg = Formula::Lt(Box::new(t), Box::new(IntTerm::Const(0)));
    let inner = IntTerm::Ite(Box::new(neg), Box::new(IntTerm::NegConst(1)), Box::new(IntTerm::Const(0)));
    let r = IntTerm::Ite(Box::new(pos), Box::new(IntTerm::Const(1)), Box::new(inner));
    assert forall|a: Assignment|
        r.value(a) == if t.value(a) > 0 { 1int } else if t.value(a) < 0 { -1int } else { 0int } by {
        assert(IntTerm::Const(0).value(a) == 0);
        assert(IntTerm::Const(1).value(a) == 1);
        assert(IntTerm::NegConst(1).value(a) == -1);
        assert(pos.holds(a) == (tv.value(a) > 0));
        assert(neg.holds(a) == (tv.value(a) < 0));
        assert(inner.value(a) == if t.value(a) < 0 { -1int } else { 0int });
    }
    r
}

} // verus!
