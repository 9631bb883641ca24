// Decoding an unsatisfiable core: the mirrors of the tracked assertions are
// read back as requirements on packages.
use vstd::prelude::*;

use crate::expr::{AtomicExpr, Expr};
use crate::mirror::{conflict_mirror_wf, decoded_ranges, lemma_range_mirror, mirror_pkg, range_mirror_wf, req_mirror_wf};
use crate::types::{
    Assignment, PackageId, Range, ReqSetView, ReqView, Repository, Requirement, RequirementSet, Version,
};
use crate::vec1::Vec1;
use intmap::IntMap;

verus! {

#[verifier::external_type_specification]
#[verifier::external_body]
#[verifier::reject_recursive_types(V)]
pub struct ExIntMap<V>(intmap::IntMap<V>);

/// The entries of a map from version to requirements.
pub uninterp spec fn ver_reqs_of(m: IntMap<RequirementSet>) -> Map<u64, RequirementSet>;

/// The entries of a map from package id to its per-version requirements.
pub uninterp spec fn pkg_reqs_of(m: IntMap<IntMap<RequirementSet>>) -> Map<u64, IntMap<RequirementSet>>;

/// Relies on intmap::IntMap::new: a new map is empty.
#[verifier::external_body]
fn new_ver_map() -> (r: IntMap<RequirementSet>)
    ensures
        ver_reqs_of(r).dom() == Set::<u64>::empty(),
{
    IntMap::new()
}

/// Relies on intmap::IntMap::new: a new map is empty.
#[verifier::external_body]
fn new_pkg_map() -> (r: IntMap<IntMap<RequirementSet>>)
    ensures
        pkg_reqs_of(r).dom() == Set::<u64>::empty(),
{
    IntMap::new()
}

/// Relies on intmap::IntMap::insert: the key now maps to the value.
#[verifier::external_body]
fn ver_map_insert(m: &mut IntMap<RequirementSet>, k: u64, v: RequirementSet)
    ensures
        ver_reqs_of(*final(m)) == ver_reqs_of(*old(m)).insert(k, v),
{
    m.insert(k, v);
}

/// Relies on intmap::IntMap::insert: the key now maps to the value.
#[verifier::external_body]
fn pkg_map_insert(m: &mut IntMap<IntMap<RequirementSet>>, k: u64, v: IntMap<RequirementSet>)
    ensures
        pkg_reqs_of(*final(m)) == pkg_reqs_of(*old(m)).insert(k, v),
{
    m.insert(k, v);
}

/// Relies on intmap::IntMap::remove: takes the key's value out.
#[verifier::external_body]
fn ver_map_remove(m: &mut IntMap<RequirementSet>, k: u64) -> (r: Option<RequirementSet>)
    ensures
        ver_reqs_of(*final(m)) == ver_reqs_of(*old(m)).remove(k),
        r == if ver_reqs_of(*old(m)).dom().contains(k) {
            Some(ver_reqs_of(*old(m))[k])
        } else {
            None
        },
{
    m.remove(k)
}

/// Relies on intmap::IntMap::remove: takes the key's value out.
#[verifier::external_body]
fn pkg_map_remove(m: &mut IntMap<IntMap<RequirementSet>>, k: u64) -> (r: Option<IntMap<RequirementSet>>)
    ensures
        pkg_reqs_of(*final(m)) == pkg_reqs_of(*old(m)).remove(k),
        r == if pkg_reqs_of(*old(m)).dom().contains(k) {
            Some(pkg_reqs_of(*old(m))[k])
        } else {
            None
        },
{
    m.remove(k)
}

pub open spec fn ver_map_view(m: IntMap<RequirementSet>) -> Map<u64, ReqSetView> {
    ver_reqs_of(m).map_values(|rs: RequirementSet| rs@)
}

pub open spec fn pkg_map_view(m: IntMap<IntMap<RequirementSet>>) -> Map<u64, Map<u64, ReqSetView>> {
    pkg_reqs_of(m).map_values(|inner: IntMap<RequirementSet>| ver_map_view(inner))
}

/// An unsatisfiable core in terms of the repository: the top-level
/// requirements and, per package and version, the requirements of that
/// version that took part.
#[derive(Debug, PartialEq, Eq)]
pub struct ConstraintSet {
    pub package_reqs: IntMap<IntMap<RequirementSet>>,
    pub toplevel_reqs: RequirementSet,
}

pub ghost struct ConstraintSetView {
    pub package_reqs: Map<u64, Map<u64, ReqSetView>>,
    pub toplevel_reqs: ReqSetView,
}

impl View for ConstraintSet {
    type V = ConstraintSetView;

    open spec fn view(&self) -> ConstraintSetView {
        ConstraintSetView { package_reqs: pkg_map_view(self.package_reqs), toplevel_reqs: self.toplevel_reqs@ }
    }
}

/// The mirror of a tracked assertion, in a shape that the decoder reads:
/// a point, a bound, a negated range, a guarded requirement or a range.
pub open spec fn assertion_wf(repo: Repository, m: Expr) -> bool {
    match m {
        Expr::Atom(AtomicExpr::VerEq { .. }) => true,
        Expr::Atom(AtomicExpr::VerLE { pid, version }) => repo.has(pid) && version == repo.newest(pid),
        Expr::Atom(AtomicExpr::VerGE { version, .. }) => version == 0,
        Expr::Not(e) => req_mirror_wf(*e),
        Expr::Implies(l, r) => (*l matches Expr::Atom(AtomicExpr::VerEq { .. })) && match *r {
            Expr::Atom(AtomicExpr::VerEq { version: 0, .. }) => true,
            Expr::Not(e) => req_mirror_wf(*e),
            _ => req_mirror_wf(*r),
        },
        Expr::And(_, _) => req_mirror_wf(m),
        Expr::Or(_, _) => req_mirror_wf(m),
        _ => false,
    }
}

/// What one assertion of a core contributes.
pub ghost enum Decoded {
    TopDep(ReqView),
    TopConflict(ReqView),
    Bound,
    PkgReq { pid: PackageId, version: Version, conflict: bool, req: ReqView },
}

pub open spec fn decode_req(e: Expr) -> ReqView {
    ReqView { package: mirror_pkg(e), versions: decoded_ranges(e) }
}

pub open spec fn classify(m: Expr) -> Decoded {
    match m {
        Expr::Atom(AtomicExpr::VerEq { pid, version }) => if version == 0 {
            Decoded::TopConflict(ReqView { package: pid, versions: seq![Range::All] })
        } else {
            Decoded::TopDep(ReqView { package: pid, versions: seq![Range::Point(version)] })
        },
        Expr::Atom(_) => Decoded::Bound,
        Expr::Not(e) => Decoded::TopConflict(decode_req(*e)),
        Expr::Implies(l, r) => match *l {
            Expr::Atom(AtomicExpr::VerEq { pid, version }) => match *r {
                Expr::Atom(AtomicExpr::VerEq { pid: q, version: 0 }) => Decoded::PkgReq {
                    pid,
                    version,
                    conflict: true,
                    req: ReqView { package: q, versions: seq![Range::All] },
                },
                Expr::Not(e) => Decoded::PkgReq { pid, version, conflict: true, req: decode_req(*e) },
                _ => Decoded::PkgReq { pid, version, conflict: false, req: decode_req(*r) },
            },
            _ => Decoded::TopDep(decode_req(m)),
        },
        _ => Decoded::TopDep(decode_req(m)),
    }
}

/// The top-level dependencies (or, with `conflict`, conflicts) of a core, in order.
pub open spec fn core_top(core: Seq<Expr>, conflict: bool) -> Seq<ReqView>
    decreases core.len(),
{
    if core.len() == 0 {
        Seq::empty()
    } else {
        let prev = core_top(core.drop_last(), conflict);
        match classify(core.last()) {
            Decoded::TopDep(r) => if conflict { prev } else { prev.push(r) },
            Decoded::TopConflict(r) => if conflict { prev.push(r) } else { prev },
            _ => prev,
        }
    }
}

pub open spec fn empty_reqs() -> ReqSetView {
    ReqSetView { dependencies: Seq::empty(), conflicts: Seq::empty() }
}

/// The requirements per package and version of a core, each list in order.
pub open spec fn core_pkg(core: Seq<Expr>) -> Map<u64, Map<u64, ReqSetView>>
    decreases core.len(),
{
    if core.len() == 0 {
        Map::empty()
    } else {
        let prev = core_pkg(core.drop_last());
        match classify(core.last()) {
            Decoded::PkgReq { pid, version, conflict, req } => {
                let key = pid as u64;
                let inner = if prev.dom().contains(key) { prev[key] } else { Map::empty() };
                let rs = if inner.dom().contains(version) { inner[version] } else { empty_reqs() };
                let rs2 = if conflict {
                    ReqSetView { dependencies: rs.dependencies, conflicts: rs.conflicts.push(req) }
                } else {
                    ReqSetView { dependencies: rs.dependencies.push(req), conflicts: rs.conflicts }
                };
                prev.insert(key, inner.insert(version, rs2))
            },
            _ => prev,
        }
    }
}

fn decode_ranges(expr: &Expr) -> (r: (PackageId, Vec<Range>))
    requires
        range_mirror_wf(*expr, mirror_pkg(*expr)),
    ensures
        r.0 == mirror_pkg(*expr),
        r.1@ == decoded_ranges(*expr),
    decreases *expr,
{
    match expr {
        Expr::Atom(AtomicExpr::VerEq { pid, version }) => {
            let mut v = Vec::new();
            v.push(Range::Point(*version));
            proof {
                assert(v@ =~= decoded_ranges(*expr));
            }
            (*pid, v)
        },
        Expr::And(lhs, rhs) => {
            let mut lb: Version = 0;
            let mut ub: Version = 0;
            let package_id;
            match **lhs {
                Expr::Atom(AtomicExpr::VerGE { pid, version }) => {
                    lb = version;
                    package_id = pid;
                },
                Expr::Atom(AtomicExpr::VerLE { pid, version }) => {
                    ub = version;
                    package_id = pid;
                },
                _ => {
                    package_id = 0;
                },
            }
            match **rhs {
                Expr::Atom(AtomicExpr::VerGE { version, .. }) => {
                    lb = version;
                },
                Expr::Atom(AtomicExpr::VerLE { version, .. }) => {
                    ub = version;
                },
                _ => {},
            }
            let rg = Range::interval(lb, ub).unwrap();
            let mut v = Vec::new();
            v.push(rg);
            proof {
                assert(v@ =~= decoded_ranges(*expr));
            }
            (package_id, v)
        },
        Expr::Or(lhs, rhs) => {
            proof {
                lemma_wf_pkg(**lhs, mirror_pkg(*expr));
                lemma_wf_pkg(**rhs, mirror_pkg(*expr));
            }
            let (pid1, mut rs1) = decode_ranges(*lhs);
            let (_pid2, mut rs2) = decode_ranges(*rhs);
            rs1.append(&mut rs2);
            (pid1, rs1)
        },
        Expr::Not(inner) => {
            let mut v = Vec::new();
            v.push(Range::All);
            proof {
                assert(v@ =~= decoded_ranges(*expr));
            }
            match **inner {
                Expr::Atom(AtomicExpr::VerEq { pid, .. }) => (pid, v),
                _ => (0, v),
            }
        },
        _ => (0, Vec::new()),
    }
}

/// A range mirror of `p` names `p` first.
pub proof fn lemma_wf_pkg(e: Expr, p: PackageId)
    requires
        range_mirror_wf(e, p),
    ensures
        mirror_pkg(e) == p,
    decreases e,
{
    match e {
        Expr::Or(l, r) => lemma_wf_pkg(*l, p),
        Expr::And(l, r) => {
            assert(mirror_pkg(e) == mirror_pkg(*l));
            match *l {
                Expr::Atom(AtomicExpr::VerGE { pid, .. }) => assert(mirror_pkg(*l) == pid),
                Expr::Atom(AtomicExpr::VerLE { pid, .. }) => assert(mirror_pkg(*l) == pid),
                _ => {},
            }
        },
        Expr::Not(x) => {
            assert(mirror_pkg(e) == mirror_pkg(*x));
        },
        _ => {},
    }
}

/// Reads a range mirror back as a requirement.
pub fn process_version_range(expr: &Expr) -> (r: Requirement)
    requires
        req_mirror_wf(*expr),
    ensures
        r@ == decode_req(*expr),
{
    let (pid, ranges) = decode_ranges(expr);
    proof {
        lemma_range_mirror(*expr, mirror_pkg(*expr), |p: PackageId| 0int);
    }
    // a range mirror decodes to at least one range
    let versions = match Vec1::try_from_vec(ranges) {
        Ok(v) => v,
        Err(_) => Vec1::new(Range::All),
    };
    Requirement::new(pid, versions)
}

} // verus!

verus! {

/// Adds `req` to the requirements of version `version` of package `pid`.
fn record(
    package_reqs: &mut IntMap<IntMap<RequirementSet>>,
    pid: PackageId,
    version: Version,
    conflict: bool,
    req: Requirement,
)
    ensures
        pkg_map_view(*final(package_reqs)) == ({
            let prev = pkg_map_view(*old(package_reqs));
            let key = pid as u64;
            let inner = if prev.dom().contains(key) { prev[key] } else { Map::empty() };
            let rs = if inner.dom().contains(version) { inner[version] } else { empty_reqs() };
            let rs2 = if conflict {
                ReqSetView { dependencies: rs.dependencies, conflicts: rs.conflicts.push(req@) }
            } else {
                ReqSetView { dependencies: rs.dependencies.push(req@), conflicts: rs.conflicts }
            };
            prev.insert(key, inner.insert(version, rs2))
        }),
{
    let ghost prev = pkg_map_view(*package_reqs);
    let key = pid as u64;
    let mut ver_req_map = match pkg_map_remove(package_reqs, key) {
        Some(m) => m,
        None => new_ver_map(),
    };
    let ghost inner = ver_map_view(ver_req_map);
    assert(inner =~= if prev.dom().contains(key) { prev[key] } else { Map::empty() });
    let mut req_set = match ver_map_remove(&mut ver_req_map, version) {
        Some(rs) => rs,
        None => RequirementSet::empty(),
    };
    assert(req_set@ == if inner.dom().contains(version) { inner[version] } else { empty_reqs() });
    let ghost rs = req_set@;
    if conflict {
        req_set.add_antidep(req);
    } else {
        req_set.add_dep(req);
    }
    let ghost rs2 = req_set@;
    ver_map_insert(&mut ver_req_map, version, req_set);
    assert(ver_map_view(ver_req_map) =~= inner.insert(version, rs2));
    pkg_map_insert(package_reqs, key, ver_req_map);
    assert(pkg_map_view(*package_reqs) =~= prev.insert(key, inner.insert(version, rs2)));
}

/// Reads an unsatisfiable core back in terms of packages and ranges: each
/// assertion becomes a top-level dependency or conflict, a requirement of a
/// package version, or, for the bounds of a package, nothing.
pub fn process_unsat_core(repo: &Repository, core_assertions: &Vec<Expr>) -> (r: ConstraintSet)
    requires
        forall|i: int| 0 <= i < core_assertions@.len() ==> assertion_wf(*repo, #[trigger] core_assertions@[i]),
    ensures
        r@.toplevel_reqs.dependencies == core_top(core_assertions@, false),
        r@.toplevel_reqs.conflicts == core_top(core_assertions@, true),
        r@.package_reqs == core_pkg(core_assertions@),
{
    let mut package_reqs = new_pkg_map();
    let mut dependencies: Vec<Requirement> = Vec::new();
    let mut conflicts: Vec<Requirement> = Vec::new();
    let ghost core = core_assertions@;
    assert(pkg_map_view(package_reqs) =~= Map::empty());
    let mut i: usize = 0;
    while i < core_assertions.len()
        invariant
            core == core_assertions@,
            i <= core.len(),
            forall|k: int| 0 <= k < core.len() ==> assertion_wf(*repo, #[trigger] core[k]),
            crate::types::req_views(dependencies@) == core_top(core.subrange(0, i as int), false),
            crate::types::req_views(conflicts@) == core_top(core.subrange(0, i as int), true),
            pkg_map_view(package_reqs) == core_pkg(core.subrange(0, i as int)),
        decreases core.len() - i,
    {
        let assertion = &core_assertions[i];
        let ghost sub = core.subrange(0, i + 1);
        proof {
            assert(sub.drop_last() =~= core.subrange(0, i as int));
            assert(sub.last() == *assertion);
            assert(assertion_wf(*repo, *assertion));
        }
        let ghost deps0 = dependencies@;
        let ghost confs0 = conflicts@;
        match assertion {
            Expr::Atom(e) => match e {
                AtomicExpr::VerEq { pid, version } => {
                    if *version == 0 {
                        conflicts.push(Requirement::new(*pid, Vec1::new(Range::All)));
                    } else {
                        dependencies.push(Requirement::new(*pid, Vec1::new(Range::Point(*version))));
                    }
                },
                _ => {},
            },
            Expr::Not(e) => {
                let req = process_version_range(*e);
                conflicts.push(req);
            },
            Expr::Implies(lhs, rhs) => match **lhs {
                Expr::Atom(AtomicExpr::VerEq { pid, version }) => {
                    match **rhs {
                        Expr::Atom(AtomicExpr::VerEq { pid: pid2, version: 0 }) => {
                            record(&mut package_reqs, pid, version, true, Requirement::new(pid2, Vec1::new(Range::All)));
                        },
                        Expr::Not(e) => {
                            let req = process_version_range(e);
                            record(&mut package_reqs, pid, version, true, req);
                        },
                        _ => {
                            let req = process_version_range(*rhs);
                            record(&mut package_reqs, pid, version, false, req);
                        },
                    }
                },
                _ => {
                    let req = process_version_range(assertion);
                    dependencies.push(req);
                },
            },
            _ => {
                let req = process_version_range(assertion);
                dependencies.push(req);
            },
        }
        proof {
            assert(crate::types::req_views(dependencies@) =~= core_top(sub, false));
            assert(crate::types::req_views(conflicts@) =~= core_top(sub, true));
        }
        i += 1;
    }
    proof {
        assert(core.subrange(0, i as int) =~= core);
    }
    ConstraintSet { package_reqs, toplevel_reqs: RequirementSet { dependencies, conflicts } }
}

} // verus!

verus! {

/// Whether the contribution of an assertion holds: a top-level dependency
/// holds, a top-level conflict does not, and a version's requirement holds
/// (or, for a conflict, does not) whenever the package has that version.
pub open spec fn decoded_holds(d: Decoded, a: Assignment) -> bool {
    match d {
        Decoded::TopDep(r) => r.holds(a),
        Decoded::TopConflict(r) => !r.holds(a),
        Decoded::PkgReq { pid, version, conflict, req } => a(pid) == version ==> (req.holds(a) != conflict),
        Decoded::Bound => true,
    }
}

proof fn lemma_req_mirror(e: Expr, a: Assignment)
    requires
        req_mirror_wf(e),
    ensures
        e.holds(a) == decode_req(e).holds(a),
        decode_req(e).versions.len() > 0,
{
    lemma_range_mirror(e, mirror_pkg(e), a);
}

/// Decoding a mirror in a shape the decoder reads keeps its meaning: the
/// mirror holds exactly where its contribution does, and a mirror that
/// decodes to nothing is a bound of a package.
pub proof fn lemma_decode_sound(repo: Repository, m: Expr, a: Assignment)
    requires
        assertion_wf(repo, m),
    ensures
        !(classify(m) is Bound) ==> m.holds(a) == decoded_holds(classify(m), a),
        classify(m) is Bound ==> (m matches Expr::Atom(AtomicExpr::VerGE { version: 0, .. }))
            || (m matches Expr::Atom(AtomicExpr::VerLE { pid, version }) && repo.has(pid) && version == repo.newest(pid)),
{
    match m {
        Expr::Atom(AtomicExpr::VerEq { pid, version }) => {
            let r = if version == 0 {
                ReqView { package: pid, versions: seq![Range::All] }
            } else {
                ReqView { package: pid, versions: seq![Range::Point(version)] }
            };
            assert(r.versions[0].contains(a(pid)) == r.holds(a)) by {
                if r.holds(a) {
                    let i = choose|i: int| 0 <= i < r.versions.len() && (#[trigger] r.versions[i]).contains(a(pid));
                    assert(i == 0);
                }
            }
            assert(m.holds(a) == (a(pid) == version));
            if version == 0 {
                assert(r.versions[0] == Range::All);
                assert(classify(m) == Decoded::TopConflict(r));
                assert(r.holds(a) == (a(pid) != 0));
                assert(decoded_holds(classify(m), a) == !r.holds(a));
            } else {
                assert(r.versions[0] == Range::Point(version));
                assert(classify(m) == Decoded::TopDep(r));
                assert(r.holds(a) == (a(pid) == version));
                assert(decoded_holds(classify(m), a) == r.holds(a));
            }
        },
        Expr::Not(e) => {
            lemma_req_mirror(*e, a);
            assert(m.holds(a) == decoded_holds(classify(m), a));
        },
        Expr::Implies(l, rhs) => {
            match *l {
                Expr::Atom(AtomicExpr::VerEq { pid, version }) => {
                    assert((*l).holds(a) == (a(pid) == version));
                    match *rhs {
                        Expr::Atom(AtomicExpr::VerEq { pid: q, version: 0 }) => {
                            let r = ReqView { package: q, versions: seq![Range::All] };
                            assert((*rhs).holds(a) == (a(q) == 0));
                            assert(r.versions[0] == Range::All);
                            assert(r.versions[0].contains(a(q)) == r.holds(a)) by {
                                if r.holds(a) {
                                    let i = choose|i: int| 0 <= i < r.versions.len() && (#[trigger] r.versions[i]).contains(a(q));
                                    assert(i == 0);
                                }
                            }
                        },
                        Expr::Not(e) => {
                            lemma_req_mirror(*e, a);
                            assert((*rhs).holds(a) == !(*e).holds(a));
                            assert(m.holds(a) == ((*l).holds(a) ==> (*rhs).holds(a)));
                        },
                        _ => {
                            lemma_req_mirror(*rhs, a);
                            assert(m.holds(a) == decoded_holds(classify(m), a));
                        },
                    }
                },
                _ => {},
            }
        },
        Expr::And(_, _) => {
            lemma_req_mirror(m, a);
        },
        Expr::Or(_, _) => {
            lemma_req_mirror(m, a);
        },
        _ => {},
    }
}

} // verus!

verus! {

proof fn lemma_range_readable(repo: Repository, e: Expr, p: PackageId)
    requires
        range_mirror_wf(e, p),
    ensures
        assertion_wf(repo, e),
        match e {
            Expr::Atom(AtomicExpr::VerEq { version: 0, .. }) => true,
            Expr::Not(x) => req_mirror_wf(*x),
            _ => req_mirror_wf(e),
        },
{
    lemma_wf_pkg(e, p);
    match e {
        Expr::Not(x) => {
            assert(*x == Expr::Atom(AtomicExpr::VerEq { pid: p, version: 0 }));
            assert(mirror_pkg(*x) == p);
        },
        _ => {},
    }
}

proof fn lemma_conflict_readable(repo: Repository, e: Expr, p: PackageId)
    requires
        conflict_mirror_wf(e, p),
    ensures
        assertion_wf(repo, e),
        match e {
            Expr::Atom(AtomicExpr::VerEq { version: 0, .. }) => true,
            Expr::Not(x) => req_mirror_wf(*x),
            _ => req_mirror_wf(e),
        },
{
    match e {
        Expr::Not(x) => {
            lemma_wf_pkg(*x, p);
        },
        _ => {},
    }
}

proof fn lemma_pair_readable(repo: Repository, pr: crate::constraints::Pair, guard: Option<(PackageId, Version)>, r: ReqView, conflict: bool)
    requires
        r.wf(),
        crate::constraints::pair_ok(pr, guard, r, conflict),
    ensures
        assertion_wf(repo, pr.1),
{
    let x = crate::constraints::unguarded(pr.1, guard);
    if conflict {
        lemma_conflict_readable(repo, x, r.package);
    } else {
        lemma_range_readable(repo, x, r.package);
    }
}

/// Round trip: every assertion that the encoder emits for a well-formed
/// repository has a mirror that the decoder reads without fault, and the
/// solver constraint holds on exactly the assignments where the decoded
/// contribution holds (a mirror that decodes to nothing is one of the bounds
/// `0 <= V_p <= N_p` of a package).
pub proof fn lemma_round_trip(
    repo: Repository,
    pids: Seq<PackageId>,
    reqs: ReqSetView,
    s: Seq<crate::constraints::Pair>,
    k: int,
    a: Assignment,
)
    requires
        repo.wf(),
        reqs.wf(),
        forall|j: int| 0 <= j < pids.len() ==> repo.has(#[trigger] pids[j]),
        crate::constraints::problem_encoded(repo, pids, reqs, s),
        0 <= k < s.len(),
    ensures
        assertion_wf(repo, s[k].1),
        !(classify(s[k].1) is Bound) ==> s[k].0.holds(a) == decoded_holds(classify(s[k].1), a),
        classify(s[k].1) is Bound ==> (s[k].1 matches Expr::Atom(AtomicExpr::VerGE { version: 0, .. }))
            || (s[k].1 matches Expr::Atom(AtomicExpr::VerLE { pid, version }) && repo.has(pid) && version == repo.newest(pid)),
{
    let pr = s[k];
    assert(crate::constraints::pair_sound(repo, pids, reqs, pr));
    if exists|j: int| 0 <= j < pids.len() && #[trigger] crate::constraints::pkg_pair_sound(pr, repo.pkg(pids[j])) {
        let j = choose|j: int| 0 <= j < pids.len() && #[trigger] crate::constraints::pkg_pair_sound(pr, repo.pkg(pids[j]));
        let id = pids[j];
        let pkg = repo.pkg(id);
        assert(pkg.id == id);
        let n = pkg.versions@.len();
        if exists|v: int, i: int|
            1 <= v <= n && 0 <= i < pkg.reqs_of(v).dependencies.len()
                && #[trigger] crate::constraints::pair_ok(pr, Some((id, v as u64)), pkg.reqs_of(v).dependencies[i], false) {
            let (v, i) = choose|v: int, i: int|
                1 <= v <= n && 0 <= i < pkg.reqs_of(v).dependencies.len()
                    && #[trigger] crate::constraints::pair_ok(pr, Some((id, v as u64)), pkg.reqs_of(v).dependencies[i], false);
            assert(pkg.reqs_of(v).dependencies[i].wf());
            lemma_pair_readable(repo, pr, Some((id, v as u64)), pkg.reqs_of(v).dependencies[i], false);
        } else if exists|v: int, i: int|
            1 <= v <= n && 0 <= i < pkg.reqs_of(v).conflicts.len()
                && #[trigger] crate::constraints::pair_ok(pr, Some((id, v as u64)), pkg.reqs_of(v).conflicts[i], true) {
            let (v, i) = choose|v: int, i: int|
                1 <= v <= n && 0 <= i < pkg.reqs_of(v).conflicts.len()
                    && #[trigger] crate::constraints::pair_ok(pr, Some((id, v as u64)), pkg.reqs_of(v).conflicts[i], true);
            assert(pkg.reqs_of(v).conflicts[i].wf());
            lemma_pair_readable(repo, pr, Some((id, v as u64)), pkg.reqs_of(v).conflicts[i], true);
        }
    } else if exists|i: int| 0 <= i < reqs.dependencies.len() && #[trigger] crate::constraints::pair_ok(pr, None, reqs.dependencies[i], false) {
        let i = choose|i: int| 0 <= i < reqs.dependencies.len() && #[trigger] crate::constraints::pair_ok(pr, None, reqs.dependencies[i], false);
        assert(reqs.dependencies[i].wf());
        lemma_pair_readable(repo, pr, None, reqs.dependencies[i], false);
    } else {
        let i = choose|i: int| 0 <= i < reqs.conflicts.len() && #[trigger] crate::constraints::pair_ok(pr, None, reqs.conflicts[i], true);
        assert(reqs.conflicts[i].wf());
        lemma_pair_readable(repo, pr, None, reqs.conflicts[i], true);
    }
    assert(pr.0.holds(a) == pr.1.holds(a));
    lemma_decode_sound(repo, pr.1, a);
}

} // verus!
