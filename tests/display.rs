use bumpalo::Bump;
use pkg_resolve::expr::{AtomicExpr, Expr};
use pkg_resolve::types::Range;

#[test]
fn test_pretty_printing() {
    let b = Bump::new();
    let a1 = b.alloc(Expr::Atom(AtomicExpr::VerEq { pid: 1, version: 1 }));
    let a2 = b.alloc(Expr::Atom(AtomicExpr::VerEq { pid: 2, version: 1 }));
    let expr1 = Expr::Or(b.alloc(Expr::And(a1, a2)), a1);
    println!("{}", expr1.to_text());
    let expr2 = Expr::Or(a1, b.alloc(Expr::And(a2, a1)));
    println!("{}", expr2.to_text());
    let expr3 = Expr::Or(b.alloc(Expr::Implies(a1, a2)), a1);
    println!("{}", expr3.to_text());
    let expr4 = Expr::And(b.alloc(Expr::And(a1, a2)), a1);
    println!("{}", expr4.to_text());
    let expr5 = Expr::Implies(b.alloc(Expr::Implies(a1, a2)), a1);
    println!("{}", expr5.to_text());
    let expr6 = Expr::Implies(a1, b.alloc(Expr::Implies(a1, a2)));
    println!("{}", expr6.to_text());
    let expr7 = Expr::Implies(b.alloc(Expr::Implies(b.alloc(Expr::Implies(a1, a2)), a1)), a2);
    println!("{}", expr7.to_text());
}

#[test]
fn mixed_connectives_are_parenthesized() {
    let b = Bump::new();
    let a1 = Expr::atom(AtomicExpr::ver_eq(1, 1));
    let a2 = Expr::atom(AtomicExpr::ver_le(2, 3));
    let conj = Expr::and(&b, a1, a2);
    assert_eq!(Expr::or(&b, conj, a1).to_text(), "(Ver(1) = 1 ∧ Ver(2) ≤ 3) ∨ Ver(1) = 1");
    assert_eq!(Expr::and(&b, conj, a1).to_text(), "Ver(1) = 1 ∧ Ver(2) ≤ 3 ∧ Ver(1) = 1");
    let imp = Expr::implies(&b, a1, a2);
    assert_eq!(Expr::implies(&b, imp, a1).to_text(), "(Ver(1) = 1 → Ver(2) ≤ 3) → Ver(1) = 1");
    assert_eq!(Expr::implies(&b, a1, imp).to_text(), "Ver(1) = 1 → Ver(1) = 1 → Ver(2) ≤ 3");
    assert_eq!(Expr::not(&b, conj).to_text(), "¬(Ver(1) = 1 ∧ Ver(2) ≤ 3)");
    assert_eq!(Expr::atom(AtomicExpr::ver_ge(7, 0)).to_text(), "Ver(7) ≥ 0");
}

#[test]
fn double_negation_cancels() {
    let b = Bump::new();
    let a = Expr::atom(AtomicExpr::ver_eq(3, 0));
    let n = Expr::not(&b, a);
    assert_eq!(n.to_text(), "¬Ver(3) = 0");
    assert_eq!(Expr::not(&b, n).to_text(), "Ver(3) = 0");
}

#[test]
fn ranges_as_text() {
    assert_eq!(Range::interval_unchecked(10, 250).to_text(), "[10, 250]");
    assert_eq!(Range::point(7).to_text(), "{7}");
    assert_eq!(Range::all().to_text(), "𝒰");
    assert_eq!(Range::point(u64::MAX).to_text(), "{18446744073709551615}");
}

#[test]
fn constants_as_text() {
    assert_eq!(Expr::bot().to_text(), "⊥");
    assert_eq!(Expr::top().to_text(), "⊤");
}
