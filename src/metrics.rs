// Optimization metrics over the package variables, and the selection of
// co-optimal plans.
use vstd::prelude::*;

use crate::smt::{IntTerm, sgn, var_eq, zero};
use crate::types::{Assignment, PackageId, Version};

verus! {

/// The distance of package `p` from its newest version `max_ver`: 0 when not
/// installed.
pub open spec fn distance_of(a: Assignment, p: PackageId, max_ver: Version) -> int {
    if a(p) == 0 { 0 } else { max_ver - a(p) }
}

/// The summed distance from the newest versions.
pub open spec fn distance_sum(pairs: Seq<(PackageId, Version)>, a: Assignment) -> int
    decreases pairs.len(),
{
    if pairs.len() == 0 {
        0
    } else {
        distance_sum(pairs.drop_last(), a) + distance_of(a, pairs.last().0, pairs.last().1)
    }
}

pub open spec fn sign(x: int) -> int {
    if x > 0 { 1 } else if x < 0 { -1 } else { 0 }
}

/// The number of installed packages (each counted by the sign of its value).
pub open spec fn installed_sum(pids: Seq<PackageId>, a: Assignment) -> int
    decreases pids.len(),
{
    if pids.len() == 0 {
        0
    } else {
        installed_sum(pids.drop_last(), a) + sign(a(pids.last()))
    }
}

/// The taxicab distance of all installed packages from their newest
/// versions; each pair is a package and its newest version.
pub fn distance_from_newest(pairs: &Vec<(PackageId, Version)>) -> (r: IntTerm)
    ensures
        forall|a: Assignment| #[trigger] r.value(a) == distance_sum(pairs@, a),
{
    let mut expr = zero();
    let mut i: usize = 0;
    while i < pairs.len()
        invariant
            i <= pairs@.len(),
            forall|a: Assignment| #[trigger] expr.value(a) == distance_sum(pairs@.subrange(0, i as int), a),
        decreases pairs@.len() - i,
    {
        let (pid, max_ver) = pairs[i];
        let ghost prev = expr;
        let is_zero = var_eq(pid, 0);
        let diff = IntTerm::Sub(Box::new(IntTerm::Const(max_ver)), Box::new(IntTerm::Var(pid)));
        let z = zero();
        let term = IntTerm::Ite(Box::new(is_zero), Box::new(z), Box::new(diff));
        expr = IntTerm::Add(Box::new(expr), Box::new(term));
        proof {
            let s1 = pairs@.subrange(0, i + 1);
            assert(s1.drop_last() =~= pairs@.subrange(0, i as int));
            assert forall|a: Assignment| #[trigger] expr.value(a) == distance_sum(s1, a) by {
                assert(is_zero.holds(a) == (a(pid) == 0));
                assert(z.value(a) == 0);
                assert(IntTerm::Const(max_ver).value(a) == max_ver);
                assert(IntTerm::Var(pid).value(a) == a(pid));
                assert(diff.value(a) == max_ver - a(pid));
                assert(term.value(a) == distance_of(a, pid, max_ver));
                assert(s1.last() == (pid, max_ver));
                assert(prev.value(a) == distance_sum(pairs@.subrange(0, i as int), a));
            }
        }
        i += 1;
    }
    assert(pairs@.subrange(0, i as int) =~= pairs@);
    expr
}

/// The number of installed packages among `pids`.
pub fn installed_packages(pids: &Vec<PackageId>) -> (r: IntTerm)
    ensures
        forall|a: Assignment| #[trigger] r.value(a) == installed_sum(pids@, a),
{
    let mut expr = zero();
    let mut i: usize = 0;
    while i < pids.len()
        invariant
            i <= pids@.len(),
            forall|a: Assignment| #[trigger] expr.value(a) == installed_sum(pids@.subrange(0, i as int), a),
        decreases pids@.len() - i,
    {
        let pid = pids[i];
        let ghost prev = expr;
        let s = sgn(IntTerm::Var(pid));
        expr = IntTerm::Add(Box::new(expr), Box::new(s));
        proof {
            let s1 = pids@.subrange(0, i + 1);
            assert(s1.drop_last() =~= pids@.subrange(0, i as int));
            assert forall|a: Assignment| #[trigger] expr.value(a) == installed_sum(s1, a) by {
                assert(IntTerm::Var(pid).value(a) == a(pid));
                assert(s.value(a) == sign(a(pid)));
                assert(prev.value(a) == installed_sum(pids@.subrange(0, i as int), a));
                assert(s1.last() == pid);
            }
        }
        i += 1;
    }
    assert(pids@.subrange(0, i as int) =~= pids@);
    expr
}

} // verus!

verus! {

/// A pair of scores, compared lexicographically.
pub type Score = (u128, u128);

pub open spec fn lex_lt(x: Score, y: Score) -> bool {
    x.0 < y.0 || (x.0 == y.0 && x.1 < y.1)
}

/// The greatest key, lexicographically, of a non-empty sequence.
pub open spec fn key_max(keys: Seq<Score>) -> Score
    decreases keys.len(),
{
    if keys.len() <= 1 {
        keys[0]
    } else {
        let m = key_max(keys.drop_last());
        if lex_lt(m, keys.last()) { keys.last() } else { m }
    }
}

/// The items whose key is `m`, in order.
pub open spec fn kept<T>(items: Seq<T>, keys: Seq<Score>, m: Score) -> Seq<T>
    decreases items.len(),
{
    if items.len() == 0 || keys.len() == 0 {
        Seq::empty()
    } else {
        let prev = kept(items.drop_last(), keys.drop_last(), m);
        if keys.last() == m { prev.push(items.last()) } else { prev }
    }
}

proof fn lemma_key_max_bound(keys: Seq<Score>)
    requires
        keys.len() > 0,
    ensures
        forall|j: int| 0 <= j < keys.len() ==> !lex_lt(key_max(keys), #[trigger] keys[j]),
        exists|j: int| 0 <= j < keys.len() && keys[j] == key_max(keys),
    decreases keys.len(),
{
    if keys.len() > 1 {
        let d = keys.drop_last();
        lemma_key_max_bound(d);
        assert forall|j: int| 0 <= j < keys.len() implies !lex_lt(key_max(keys), #[trigger] keys[j]) by {
            if j < keys.len() - 1 {
                assert(keys[j] == d[j]);
            }
        }
        let j = choose|j: int| 0 <= j < d.len() && d[j] == key_max(d);
        assert(keys[j] == d[j]);
        assert(keys[keys.len() - 1] == keys.last());
    } else {
        assert(keys[0] == key_max(keys));
    }
}

proof fn lemma_kept_none<T>(items: Seq<T>, keys: Seq<Score>, m: Score)
    requires
        items.len() == keys.len(),
        forall|j: int| 0 <= j < keys.len() ==> lex_lt(#[trigger] keys[j], m),
    ensures
        kept(items, keys, m) == Seq::<T>::empty(),
    decreases items.len(),
{
    if items.len() > 0 {
        let d = keys.drop_last();
        assert forall|j: int| 0 <= j < d.len() implies lex_lt(#[trigger] d[j], m) by {
            assert(d[j] == keys[j]);
        }
        lemma_kept_none(items.drop_last(), d, m);
        assert(lex_lt(keys[keys.len() - 1], m));
    }
}

/// Keeps the items whose key is the greatest, in their order.
pub fn iter_max_map<T>(items: Vec<T>, keys: &Vec<Score>) -> (r: Vec<T>)
    requires
        items@.len() == keys@.len(),
    ensures
        items@.len() == 0 ==> r@.len() == 0,
        items@.len() > 0 ==> r@ == kept(items@, keys@, key_max(keys@)),
{
    let ghost all = items@;
    let mut rest = items;
    let mut cur: Option<Score> = None;
    let mut v: Vec<T> = Vec::new();
    let mut i: usize = 0;
    while i < keys.len()
        invariant
            all.len() == keys@.len(),
            i <= keys@.len(),
            rest@ == all.subrange(i as int, all.len() as int),
            i == 0 ==> cur is None && v@.len() == 0,
            i > 0 ==> cur == Some(key_max(keys@.subrange(0, i as int))),
            i > 0 ==> v@ == kept(all.subrange(0, i as int), keys@.subrange(0, i as int), key_max(keys@.subrange(0, i as int))),
        decreases keys@.len() - i,
    {
        let item = rest.remove(0);
        let e = keys[i];
        let ghost ks0 = keys@.subrange(0, i as int);
        let ghost ks1 = keys@.subrange(0, i + 1);
        let ghost is0 = all.subrange(0, i as int);
        let ghost is1 = all.subrange(0, i + 1);
        proof {
            assert(ks1.drop_last() =~= ks0);
            assert(is1.drop_last() =~= is0);
            assert(ks1.last() == e);
            assert(is1.last() == item);
        }
        match cur {
            None => {
                cur = Some(e);
                v.push(item);
                proof {
                    assert(ks1.len() == 1);
                    assert(key_max(ks1) == e);
                    assert(is0.len() == 0);
                    assert(kept(is0, ks0, e) == Seq::<T>::empty());
                    assert(v@ =~= kept(is1, ks1, e));
                }
            },
            Some(c) => {
                if c.0 == e.0 && c.1 == e.1 {
                    v.push(item);
                    proof {
                        assert(key_max(ks1) == c);
                    }
                } else if c.0 < e.0 || (c.0 == e.0 && c.1 < e.1) {
                    cur = Some(e);
                    v = Vec::new();
                    v.push(item);
                    proof {
                        lemma_key_max_bound(ks0);
                        assert forall|j: int| 0 <= j < ks0.len() implies lex_lt(#[trigger] ks0[j], e) by {
                            assert(!lex_lt(c, ks0[j]));
                        }
                        lemma_kept_none(is0, ks0, e);
                        assert(key_max(ks1) == e);
                        assert(v@ =~= kept(is1, ks1, e));
                    }
                } else {
                    proof {
                        assert(key_max(ks1) == c);
                    }
                }
            },
        }
        i += 1;
    }
    proof {
        assert(keys@.subrange(0, i as int) =~= keys@);
        assert(all.subrange(0, i as int) =~= all);
    }
    v
}

/// The reversed order of scores: the greatest key is the least score.
pub open spec fn reversed(s: Score) -> Score {
    ((u128::MAX - s.0) as u128, (u128::MAX - s.1) as u128)
}

/// Keeps the items whose score is the least, lexicographically, in their order.
pub fn select_optimal<T>(items: Vec<T>, scores: &Vec<Score>) -> (r: Vec<T>)
    requires
        items@.len() == scores@.len(),
    ensures
        items@.len() == 0 ==> r@.len() == 0,
        items@.len() > 0 ==> r@ == kept(
            items@,
            scores@.map_values(|s: Score| reversed(s)),
            key_max(scores@.map_values(|s: Score| reversed(s))),
        ),
{
    let mut keys: Vec<Score> = Vec::new();
    let mut i: usize = 0;
    while i < scores.len()
        invariant
            i <= scores@.len(),
            keys@ == scores@.subrange(0, i as int).map_values(|s: Score| reversed(s)),
        decreases scores@.len() - i,
    {
        let s = scores[i];
        keys.push((u128::MAX - s.0, u128::MAX - s.1));
        assert(keys@ =~= scores@.subrange(0, i + 1).map_values(|s: Score| reversed(s)));
        i += 1;
    }
    assert(scores@.subrange(0, i as int) =~= scores@);
    iter_max_map(items, &keys)
}

} // verus!

verus! {

/// When some key equals `m`, some item is kept.
pub proof fn lemma_kept_nonempty<T>(items: Seq<T>, keys: Seq<Score>, m: Score)
    requires
        items.len() == keys.len(),
        exists|j: int| 0 <= j < keys.len() && keys[j] == m,
    ensures
        kept(items, keys, m).len() > 0,
    decreases items.len(),
{
    if keys.last() != m {
        let j = choose|j: int| 0 <= j < keys.len() && keys[j] == m;
        assert(j < keys.len() - 1);
        assert(keys.drop_last()[j] == m);
        lemma_kept_nonempty(items.drop_last(), keys.drop_last(), m);
    }
}

pub proof fn lemma_kept_max_nonempty<T>(items: Seq<T>, keys: Seq<Score>)
    requires
        items.len() == keys.len(),
        keys.len() > 0,
    ensures
        kept(items, keys, key_max(keys)).len() > 0,
{
    lemma_key_max_bound(keys);
    lemma_kept_nonempty(items, keys, key_max(keys));
}

} // verus!

verus! {

/// Every kept item is one of the items.
pub proof fn lemma_kept_from<T>(items: Seq<T>, keys: Seq<Score>, m: Score)
    requires
        items.len() == keys.len(),
    ensures
        forall|x: int| 0 <= x < kept(items, keys, m).len() ==> items.contains(#[trigger] kept(items, keys, m)[x]),
    decreases items.len(),
{
    if items.len() > 0 {
        let d = items.drop_last();
        lemma_kept_from(d, keys.drop_last(), m);
        let k = kept(items, keys, m);
        let kd = kept(d, keys.drop_last(), m);
        assert forall|x: int| 0 <= x < k.len() implies items.contains(#[trigger] k[x]) by {
            if x < kd.len() {
                assert(k[x] == kd[x]);
                assert(d.contains(kd[x]));
                let y = choose|y: int| 0 <= y < d.len() && d[y] == kd[x];
                assert(items[y] == d[y]);
            } else {
                assert(k[x] == items.last());
                assert(items[items.len() - 1] == items.last());
            }
        }
    }
}

} // verus!
