// Text of ranges and symbolic formulas. Formulas are parenthesized by a
// precedence lattice in which conjunction and disjunction are incomparable,
// so that a mix of the two is always parenthesized.
use vstd::prelude::*;
use vstd::string::*;

use crate::expr::{AtomicExpr, Expr};
use crate::types::Range;

verus! {

/// Two orders chained: every `Top` lies above every `Bot`.
#[derive(Clone, Copy, Debug, PartialEq, Eq)]
pub enum Chain<T, V> {
    Top(T),
    Bot(V),
}

/// Two orders side by side: a `Left` and a `Right` are incomparable.
#[derive(Clone, Copy, Debug, PartialEq, Eq)]
pub enum AntiChain<L, R> {
    Left(L),
    Right(R),
}

pub type ExprPrec = Chain<u8, Chain<AntiChain<(), ()>, u8>>;

pub open spec fn anti_le(a: AntiChain<(), ()>, b: AntiChain<(), ()>) -> bool {
    (a is Left && b is Left) || (a is Right && b is Right)
}

pub open spec fn inner_le(a: Chain<AntiChain<(), ()>, u8>, b: Chain<AntiChain<(), ()>, u8>) -> bool {
    match (a, b) {
        (Chain::Top(x), Chain::Top(y)) => anti_le(x, y),
        (Chain::Top(_), Chain::Bot(_)) => false,
        (Chain::Bot(_), Chain::Top(_)) => true,
        (Chain::Bot(x), Chain::Bot(y)) => x <= y,
    }
}

/// The order of the lattice.
pub open spec fn prec_le(a: ExprPrec, b: ExprPrec) -> bool {
    match (a, b) {
        (Chain::Top(x), Chain::Top(y)) => x <= y,
        (Chain::Top(_), Chain::Bot(_)) => false,
        (Chain::Bot(_), Chain::Top(_)) => true,
        (Chain::Bot(x), Chain::Bot(y)) => inner_le(x, y),
    }
}

pub fn prec_leq(a: &ExprPrec, b: &ExprPrec) -> (r: bool)
    ensures
        r == prec_le(*a, *b),
{
    match (a, b) {
        (Chain::Top(x), Chain::Top(y)) => *x <= *y,
        (Chain::Top(_), Chain::Bot(_)) => false,
        (Chain::Bot(_), Chain::Top(_)) => true,
        (Chain::Bot(x), Chain::Bot(y)) => match (x, y) {
            (Chain::Top(l), Chain::Top(r)) => match (l, r) {
                (AntiChain::Left(_), AntiChain::Left(_)) => true,
                (AntiChain::Right(_), AntiChain::Right(_)) => true,
                _ => false,
            },
            (Chain::Top(_), Chain::Bot(_)) => false,
            (Chain::Bot(_), Chain::Top(_)) => true,
            (Chain::Bot(l), Chain::Bot(r)) => *l <= *r,
        },
    }
}

pub open spec fn outer_prec() -> ExprPrec {
    Chain::Bot(Chain::Bot(0))
}

pub open spec fn not_prec() -> ExprPrec {
    Chain::Top(0)
}

pub open spec fn and_prec() -> ExprPrec {
    Chain::Bot(Chain::Top(AntiChain::Left(())))
}

pub open spec fn or_prec() -> ExprPrec {
    Chain::Bot(Chain::Top(AntiChain::Right(())))
}

pub open spec fn impl_prec() -> ExprPrec {
    Chain::Bot(Chain::Bot(1))
}

pub open spec fn impl_prec_left() -> ExprPrec {
    Chain::Bot(Chain::Bot(2))
}

pub open spec fn digit(d: nat) -> char {
    if d == 0 { '0' } else if d == 1 { '1' } else if d == 2 { '2' } else if d == 3 { '3' } else if d == 4 {
        '4'
    } else if d == 5 { '5' } else if d == 6 { '6' } else if d == 7 { '7' } else if d == 8 { '8' } else {
        '9'
    }
}

/// The decimal digits of `n`.
pub open spec fn decimal_text(n: nat) -> Seq<char>
    decreases n,
{
    if n < 10 {
        seq![digit(n)]
    } else {
        decimal_text(n / 10).push(digit(n % 10))
    }
}

/// The text of one decimal digit.
fn digit_str(d: u64) -> (r: &'static str)
    requires
        d < 10,
    ensures
        r@ == seq![digit(d as nat)],
{
    proof {
        reveal_strlit("0");
        reveal_strlit("1");
        reveal_strlit("2");
        reveal_strlit("3");
        reveal_strlit("4");
        reveal_strlit("5");
        reveal_strlit("6");
        reveal_strlit("7");
        reveal_strlit("8");
        reveal_strlit("9");
    }
    if d == 0 {
        "0"
    } else if d == 1 {
        "1"
    } else if d == 2 {
        "2"
    } else if d == 3 {
        "3"
    } else if d == 4 {
        "4"
    } else if d == 5 {
        "5"
    } else if d == 6 {
        "6"
    } else if d == 7 {
        "7"
    } else if d == 8 {
        "8"
    } else {
        "9"
    }
}

/// Appends the decimal digits of `v`.
fn push_decimal(v: u64, out: &mut String)
    ensures
        final(out)@ == old(out)@ + decimal_text(v as nat),
    decreases v,
{
    let ghost start = out@;
    if v >= 10 {
        push_decimal(v / 10, out);
    }
    out.append(digit_str(v % 10));
    proof {
        if v >= 10 {
            assert(decimal_text(v as nat) == decimal_text((v / 10) as nat).push(digit((v % 10) as nat)));
        }
        assert(out@ =~= start + decimal_text(v as nat));
    }
}

/// The decimal digits of `v`.
fn decimal(v: u64) -> (r: String)
    ensures
        r@ == decimal_text(v as nat),
{
    let mut out = String::new();
    push_decimal(v, &mut out);
    assert(out@ =~= decimal_text(v as nat));
    out
}

pub open spec fn range_text(r: Range) -> Seq<char> {
    match r {
        Range::Interval { lower, upper } => "["@ + decimal_text(lower as nat) + ", "@ + decimal_text(upper as nat) + "]"@,
        Range::Point(v) => "{"@ + decimal_text(v as nat) + "}"@,
        Range::All => "𝒰"@,
    }
}

pub open spec fn atom_text(a: AtomicExpr) -> Seq<char> {
    match a {
        AtomicExpr::VerEq { pid, version } => "Ver("@ + decimal_text(pid as nat) + ") = "@ + decimal_text(version as nat),
        AtomicExpr::VerLE { pid, version } => "Ver("@ + decimal_text(pid as nat) + ") ≤ "@ + decimal_text(version as nat),
        AtomicExpr::VerGE { pid, version } => "Ver("@ + decimal_text(pid as nat) + ") ≥ "@ + decimal_text(version as nat),
    }
}

pub open spec fn open_paren(paren: bool) -> Seq<char> {
    if paren { "("@ } else { Seq::empty() }
}

pub open spec fn close_paren(paren: bool) -> Seq<char> {
    if paren { ")"@ } else { Seq::empty() }
}

/// The text of `e` inside a context of precedence `prec`.
pub open spec fn expr_text(e: Expr, prec: ExprPrec) -> Seq<char>
    decreases e,
{
    match e {
        Expr::Atom(a) => atom_text(a),
        Expr::Not(x) => "¬"@ + expr_text(*x, not_prec()),
        Expr::And(l, r) => {
            let paren = !prec_le(prec, and_prec());
            open_paren(paren) + expr_text(*l, and_prec()) + " ∧ "@ + expr_text(*r, and_prec()) + close_paren(paren)
        },
        Expr::Or(l, r) => {
            let paren = !prec_le(prec, or_prec());
            open_paren(paren) + expr_text(*l, or_prec()) + " ∨ "@ + expr_text(*r, or_prec()) + close_paren(paren)
        },
        Expr::Implies(l, r) => {
            let paren = !prec_le(prec, impl_prec());
            open_paren(paren) + expr_text(*l, impl_prec_left()) + " → "@ + expr_text(*r, impl_prec()) + close_paren(paren)
        },
        Expr::Bot => "⊥"@,
        Expr::Top => "⊤"@,
    }
}

impl Range {
    /// `[l, u]` for an interval, `{v}` for a point, `𝒰` for every version.
    pub fn to_text(&self) -> (r: String)
        ensures
            r@ == range_text(*self),
    {
        let mut out = String::new();
        match self {
            Range::Interval { lower, upper } => {
                out.append("[");
                out.append(decimal(*lower).as_str());
                out.append(", ");
                out.append(decimal(*upper).as_str());
                out.append("]");
            },
            Range::Point(v) => {
                out.append("{");
                out.append(decimal(*v).as_str());
                out.append("}");
            },
            Range::All => {
                out.append("𝒰");
            },
        }
        proof {
            assert(out@ =~= range_text(*self));
        }
        out
    }
}

impl AtomicExpr {
    pub fn to_text(&self) -> (r: String)
        ensures
            r@ == atom_text(*self),
    {
        let mut out = String::new();
        let (pid, version, op) = match self {
            AtomicExpr::VerEq { pid, version } => (*pid, *version, ") = "),
            AtomicExpr::VerLE { pid, version } => (*pid, *version, ") ≤ "),
            AtomicExpr::VerGE { pid, version } => (*pid, *version, ") ≥ "),
        };
        out.append("Ver(");
        out.append(decimal(pid as u64).as_str());
        out.append(op);
        out.append(decimal(version).as_str());
        proof {
            assert(out@ =~= atom_text(*self));
        }
        out
    }
}

impl<'a> Expr<'a> {
    /// Appends the text of the formula inside a context of precedence `prec`.
    pub fn fmt_prec(&self, prec: &ExprPrec, out: &mut String)
        ensures
            final(out)@ == old(out)@ + expr_text(*self, *prec),
        decreases *self,
    {
        let ghost start = out@;
        match self {
            Expr::Atom(a) => {
                out.append(a.to_text().as_str());
            },
            Expr::Not(e) => {
                out.append("¬");
                e.fmt_prec(&Chain::Top(0), out);
            },
            Expr::And(l, r) => {
                let p = Chain::Bot(Chain::Top(AntiChain::Left(())));
                let paren = !prec_leq(prec, &p);
                if paren {
                    out.append("(");
                }
                l.fmt_prec(&p, out);
                out.append(" ∧ ");
                r.fmt_prec(&p, out);
                if paren {
                    out.append(")");
                }
            },
            Expr::Or(l, r) => {
                let p = Chain::Bot(Chain::Top(AntiChain::Right(())));
                let paren = !prec_leq(prec, &p);
                if paren {
                    out.append("(");
                }
                l.fmt_prec(&p, out);
                out.append(" ∨ ");
                r.fmt_prec(&p, out);
                if paren {
                    out.append(")");
                }
            },
            Expr::Implies(l, r) => {
                let p = Chain::Bot(Chain::Bot(1));
                let paren = !prec_leq(prec, &p);
                if paren {
                    out.append("(");
                }
                l.fmt_prec(&Chain::Bot(Chain::Bot(2)), out);
                out.append(" → ");
                r.fmt_prec(&p, out);
                if paren {
                    out.append(")");
                }
            },
            Expr::Bot => {
                out.append("⊥");
            },
            Expr::Top => {
                out.append("⊤");
            },
        }
        proof {
            assert(out@ =~= start + expr_text(*self, *prec));
        }
    }

    /// The text of the formula on its own.
    pub fn to_text(&self) -> (r: String)
        ensures
            r@ == expr_text(*self, outer_prec()),
    {
        let mut out = String::new();
        self.fmt_prec(&Chain::Bot(Chain::Bot(0)), &mut out);
        proof {
            assert(out@ =~= Seq::<char>::empty() + expr_text(*self, outer_prec()));
        }
        out
    }
}

} // verus!
