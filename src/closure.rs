use vstd::prelude::*;
use vstd::set_lib::{lemma_int_range, lemma_len_subset, set_int_range};

use crate::types::{PackageId, ReqSetView, ReqView, Repository, RequirementSet, ResolutionError};
use tinyset::SetU32;

verus! {

#[verifier::external_type_specification]
#[verifier::external_body]
pub struct ExSetU32(tinyset::SetU32);

/// The package ids that a `SetU32` holds.
pub uninterp spec fn set_u32_elems(s: SetU32) -> Set<u32>;

/// Relies on tinyset::SetU32::new: a new set is empty.
#[verifier::external_body]
fn new_set() -> (r: SetU32)
    ensures
        set_u32_elems(r) == Set::<u32>::empty(),
{
    SetU32::new()
}

/// Relies on tinyset::SetU32::insert: adds `e` and tells whether it was absent.
#[verifier::external_body]
fn set_insert(s: &mut SetU32, e: u32) -> (r: bool)
    ensures
        set_u32_elems(*final(s)) == set_u32_elems(*old(s)).insert(e),
        r == !set_u32_elems(*old(s)).contains(e),
{
    s.insert(e)
}

/// Relies on tinyset::SetU32::contains: membership.
#[verifier::external_body]
fn set_contains(s: &SetU32, e: u32) -> (r: bool)
    ensures
        r == set_u32_elems(*s).contains(e),
{
    s.contains(e)
}

/// Every version of every package of `t` that the repository holds names
/// only packages of `t`.
pub open spec fn closed_under(repo: Repository, t: Set<PackageId>) -> bool {
    forall|p: PackageId, v: int, q: PackageId|
        #![trigger t.contains(p), repo.pkg(p).reqs_of(v).mentions(q)]
        t.contains(p) && repo.has(p) && 1 <= v <= repo.newest(p) && repo.pkg(p).reqs_of(v).mentions(q)
            ==> t.contains(q)
}

pub open spec fn includes_start(reqs: ReqSetView, t: Set<PackageId>) -> bool {
    forall|q: PackageId| #[trigger] reqs.mentions(q) ==> t.contains(q)
}

/// `x` lies in every set that holds the packages `reqs` names and is closed
/// under the repository's requirements.
pub open spec fn in_every_closed(repo: Repository, reqs: ReqSetView, x: PackageId) -> bool {
    forall|t: Set<PackageId>|
        #![trigger closed_under(repo, t), t.contains(x)]
        includes_start(reqs, t) && closed_under(repo, t) ==> t.contains(x)
}

/// `s` is the least set that holds the packages `reqs` names and is closed
/// under the requirements of every version of its packages.
pub open spec fn is_closure(repo: Repository, reqs: ReqSetView, s: Set<PackageId>) -> bool {
    &&& includes_start(reqs, s)
    &&& closed_under(repo, s)
    &&& forall|x: PackageId| #[trigger] s.contains(x) ==> in_every_closed(repo, reqs, x)
}

/// The packages that the requirements of `rs` name, dependencies first.
pub open spec fn mentioned(rs: ReqSetView) -> Seq<PackageId> {
    rs.dependencies.map_values(|r: ReqView| r.package) + rs.conflicts.map_values(|r: ReqView| r.package)
}

proof fn lemma_concat_contains(a: Seq<PackageId>, b: Seq<PackageId>, q: PackageId)
    ensures
        (a + b).contains(q) == (a.contains(q) || b.contains(q)),
{
    if a.contains(q) {
        let w = choose|w: int| 0 <= w < a.len() && a[w] == q;
        assert((a + b)[w] == q);
    }
    if b.contains(q) {
        let w = choose|w: int| 0 <= w < b.len() && b[w] == q;
        assert((a + b)[a.len() + w] == q);
    }
    if (a + b).contains(q) {
        let w = choose|w: int| 0 <= w < (a + b).len() && (a + b)[w] == q;
        if w < a.len() {
            assert(a[w] == q);
        } else {
            assert(b[w - a.len()] == q);
        }
    }
}

proof fn lemma_mentioned(rs: ReqSetView, q: PackageId)
    ensures
        rs.mentions(q) == mentioned(rs).contains(q),
{
    let d = rs.dependencies.map_values(|r: ReqView| r.package);
    let c = rs.conflicts.map_values(|r: ReqView| r.package);
    lemma_concat_contains(d, c, q);
    if exists|i: int| 0 <= i < rs.dependencies.len() && (#[trigger] rs.dependencies[i]).package == q {
        let i = choose|i: int| 0 <= i < rs.dependencies.len() && (#[trigger] rs.dependencies[i]).package == q;
        assert(d[i] == q);
    }
    if exists|i: int| 0 <= i < rs.conflicts.len() && (#[trigger] rs.conflicts[i]).package == q {
        let i = choose|i: int| 0 <= i < rs.conflicts.len() && (#[trigger] rs.conflicts[i]).package == q;
        assert(c[i] == q);
    }
    if d.contains(q) {
        let i = choose|i: int| 0 <= i < d.len() && d[i] == q;
        assert(rs.dependencies[i].package == q);
    }
    if c.contains(q) {
        let i = choose|i: int| 0 <= i < c.len() && c[i] == q;
        assert(rs.conflicts[i].package == q);
    }
}

/// Appends the package of every requirement of `rs` to `work`.
fn push_mentions(rs: &RequirementSet, work: &mut Vec<PackageId>)
    ensures
        final(work)@ == old(work)@ + mentioned(rs@),
{
    let ghost d = rs@.dependencies.map_values(|r: ReqView| r.package);
    let ghost c = rs@.conflicts.map_values(|r: ReqView| r.package);
    let mut i: usize = 0;
    while i < rs.dependencies.len()
        invariant
            i <= rs.dependencies@.len(),
            d == rs@.dependencies.map_values(|r: ReqView| r.package),
            work@ == old(work)@ + d.subrange(0, i as int),
        decreases rs.dependencies@.len() - i,
    {
        work.push(rs.dependencies[i].package);
        assert(d.subrange(0, i + 1) =~= d.subrange(0, i as int).push(d[i as int]));
        assert(work@ =~= old(work)@ + d.subrange(0, i + 1));
        i += 1;
    }
    assert(d.subrange(0, i as int) =~= d);
    let mut j: usize = 0;
    while j < rs.conflicts.len()
        invariant
            j <= rs.conflicts@.len(),
            c == rs@.conflicts.map_values(|r: ReqView| r.package),
            work@ == old(work)@ + d + c.subrange(0, j as int),
        decreases rs.conflicts@.len() - j,
    {
        work.push(rs.conflicts[j].package);
        assert(c.subrange(0, j + 1) =~= c.subrange(0, j as int).push(c[j as int]));
        assert(work@ =~= old(work)@ + d + c.subrange(0, j + 1));
        j += 1;
    }
    assert(c.subrange(0, j as int) =~= c);
    assert(work@ =~= old(work)@ + (d + c));
}

/// The packages reachable from `reqs` through the dependencies and conflicts
/// of every version of each package reached. Fails with `IllegalIndex` on a
/// reachable package id that the repository does not hold.
pub fn find_closure(repo: &Repository, reqs: &RequirementSet) -> (r: Result<SetU32, ResolutionError>)
    ensures
        r matches Ok(s) ==> is_closure(*repo, reqs@, set_u32_elems(s)),
        r matches Ok(s) ==> forall|x: PackageId| #[trigger] set_u32_elems(s).contains(x) ==> repo.has(x),
        r matches Err(e) ==> e matches ResolutionError::IllegalIndex { index } && !repo.has(index)
            && in_every_closed(*repo, reqs@, index),
{
    let mut s = new_set();
    let mut work: Vec<PackageId> = Vec::new();
    push_mentions(reqs, &mut work);
    let ghost len = repo.packages@.len() as int;
    let ghost mut seen: Set<int> = Set::empty();
    proof {
        lemma_int_range(0, len);
        assert(seen.len() == 0);
        assert(work@ =~= mentioned(reqs@));
        assert forall|q: PackageId| #[trigger] work@.contains(q) implies in_every_closed(*repo, reqs@, q) by {
            lemma_mentioned(reqs@, q);
        }
        assert forall|q: PackageId| #[trigger] reqs@.mentions(q) implies set_u32_elems(s).contains(q) || work@.contains(q) by {
            lemma_mentioned(reqs@, q);
        }
    }
    while work.len() > 0
        invariant
            len == repo.packages@.len(),
            set_int_range(0, len).finite(),
            set_int_range(0, len).len() == len,
            seen.subset_of(set_int_range(0, len)),
            seen.finite(),
            seen.len() <= len,
            forall|x: u32| set_u32_elems(s).contains(x) <==> #[trigger] seen.contains(x as int),
            forall|x: u32| #[trigger] set_u32_elems(s).contains(x) ==> repo.has(x),
            forall|q: PackageId| #[trigger] reqs@.mentions(q) ==> set_u32_elems(s).contains(q) || work@.contains(q),
            forall|q: PackageId| #[trigger] work@.contains(q) ==> in_every_closed(*repo, reqs@, q),
            forall|x: PackageId| #[trigger] set_u32_elems(s).contains(x) ==> in_every_closed(*repo, reqs@, x),
            forall|p: PackageId, v: int, q: PackageId|
                #![trigger set_u32_elems(s).contains(p), repo.pkg(p).reqs_of(v).mentions(q)]
                set_u32_elems(s).contains(p) && 1 <= v <= repo.newest(p) && repo.pkg(p).reqs_of(v).mentions(q)
                    ==> set_u32_elems(s).contains(q) || work@.contains(q),
        decreases len - seen.len(), work@.len(),
    {
        let ghost before_work = work@;
        let ghost before_set = set_u32_elems(s);
        let p = work.pop().unwrap();
        proof {
            assert(before_work =~= work@ + seq![p]);
            assert forall|q: PackageId| before_work.contains(q) == (work@.contains(q) || q == p) by {
                lemma_concat_contains(work@, seq![p], q);
                if q == p {
                    assert(seq![p][0] == p);
                }
            }
            assert(before_work.contains(p));
            assert forall|q: PackageId| #[trigger] work@.contains(q) implies in_every_closed(*repo, reqs@, q) by {
                assert(before_work.contains(q));
            }
        }
        let fresh = set_insert(&mut s, p);
        if fresh {
            if (p as usize) >= repo.packages.len() {
                return Err(ResolutionError::IllegalIndex { index: p });
            }
            let package = &repo.packages[p as usize];
            let ghost mid_work = work@;
            let mut k: usize = 0;
            while k < package.versions.len()
                invariant
                    *package == repo.pkg(p),
                    repo.has(p),
                    k <= package.versions@.len(),
                    forall|q: PackageId| mid_work.contains(q) ==> #[trigger] work@.contains(q),
                    forall|q: PackageId| #[trigger] work@.contains(q) ==> in_every_closed(*repo, reqs@, q),
                    in_every_closed(*repo, reqs@, p),
                    forall|v: int, q: PackageId|
                        #![trigger repo.pkg(p).reqs_of(v).mentions(q)]
                        1 <= v <= k && repo.pkg(p).reqs_of(v).mentions(q) ==> work@.contains(q),
                decreases package.versions@.len() - k,
            {
                let ghost w0 = work@;
                push_mentions(&package.versions[k].requirements, &mut work);
                proof {
                    let rs = package.versions@[k as int].requirements@;
                    assert(rs == repo.pkg(p).reqs_of(k + 1));
                    assert forall|q: PackageId| work@.contains(q) == (w0.contains(q) || rs.mentions(q)) by {
                        lemma_concat_contains(w0, mentioned(rs), q);
                        lemma_mentioned(rs, q);
                    }
                    assert forall|q: PackageId| mid_work.contains(q) implies #[trigger] work@.contains(q) by {
                        assert(w0.contains(q));
                    }
                    assert forall|q: PackageId| #[trigger] work@.contains(q) implies in_every_closed(*repo, reqs@, q) by {
                        if w0.contains(q) {
                        } else {
                            assert forall|t: Set<PackageId>|
                                includes_start(reqs@, t) && closed_under(*repo, t) implies #[trigger] t.contains(q) by {
                                assert(t.contains(p));
                                assert(repo.pkg(p).reqs_of(k + 1).mentions(q));
                            }
                        }
                    }
                }
                k += 1;
            }
            proof {
                assert(!seen.contains(p as int));
                let old_seen = seen;
                seen = seen.insert(p as int);
                assert(set_int_range(0, len).contains(p as int));
                assert(seen.subset_of(set_int_range(0, len)));
                lemma_len_subset(seen, set_int_range(0, len));
                assert(seen.len() == old_seen.len() + 1);
                assert forall|x: u32| set_u32_elems(s).contains(x) <==> #[trigger] seen.contains(x as int) by {
                    if seen.contains(x as int) && x != p {
                        assert(before_set.contains(x));
                    }
                }
            }
        }
    }
    proof {
        let e = set_u32_elems(s);
        assert forall|q: PackageId| #[trigger] reqs@.mentions(q) implies e.contains(q) by {
            assert(!work@.contains(q));
        }
        assert forall|p: PackageId, v: int, q: PackageId|
            #![trigger e.contains(p), repo.pkg(p).reqs_of(v).mentions(q)]
            e.contains(p) && repo.has(p) && 1 <= v <= repo.newest(p) && repo.pkg(p).reqs_of(v).mentions(q)
                implies e.contains(q) by {
            assert(!work@.contains(q));
        }
    }
    Ok(s)
}

/// The packages of a closure in increasing order of id.
pub fn closure_ids(repo: &Repository, s: &SetU32) -> (r: Vec<PackageId>)
    requires
        forall|x: PackageId| #[trigger] set_u32_elems(*s).contains(x) ==> repo.has(x),
    ensures
        forall|i: int, j: int| 0 <= i < j < r@.len() ==> r@[i] < r@[j],
        forall|x: PackageId| set_u32_elems(*s).contains(x) <==> #[trigger] r@.contains(x),
{
    let n = repo.packages.len();
    let bound: u64 = if n as u64 > u32::MAX as u64 { u32::MAX as u64 + 1 } else { n as u64 };
    let mut out: Vec<PackageId> = Vec::new();
    let mut k: u64 = 0;
    while k < bound
        invariant
            bound <= u32::MAX as u64 + 1,
            bound == n || bound == u32::MAX as u64 + 1,
            n == repo.packages@.len(),
            k <= bound,
            forall|x: PackageId| #[trigger] set_u32_elems(*s).contains(x) ==> repo.has(x),
            forall|i: int| 0 <= i < out@.len() ==> out@[i] < k,
            forall|i: int, j: int| 0 <= i < j < out@.len() ==> out@[i] < out@[j],
            forall|x: PackageId| x < k ==> (set_u32_elems(*s).contains(x) <==> #[trigger] out@.contains(x)),
            forall|x: PackageId| #[trigger] out@.contains(x) ==> x < k,
        decreases bound - k,
    {
        let p = k as u32;
        let ghost before = out@;
        if set_contains(s, p) {
            out.push(p);
            proof {
                assert forall|x: PackageId| #[trigger] out@.contains(x) implies x < k + 1 by {
                    let w = choose|w: int| 0 <= w < out@.len() && out@[w] == x;
                    if w < before.len() {
                        assert(before[w] == x);
                    }
                }
                assert forall|x: PackageId| x < k + 1 implies (set_u32_elems(*s).contains(x) <==> #[trigger] out@.contains(x)) by {
                    if x < k {
                        if before.contains(x) {
                            let w = choose|w: int| 0 <= w < before.len() && before[w] == x;
                            assert(out@[w] == x);
                        }
                        if out@.contains(x) {
                            let w = choose|w: int| 0 <= w < out@.len() && out@[w] == x;
                            assert(w < before.len());
                            assert(before[w] == x);
                        }
                    } else {
                        assert(out@[out@.len() - 1] == x);
                    }
                }
            }
        }
        k += 1;
    }
    proof {
        assert forall|x: PackageId| set_u32_elems(*s).contains(x) implies #[trigger] out@.contains(x) by {
            assert(repo.has(x));
        }
    }
    out
}

} // verus!
