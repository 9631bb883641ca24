use vstd::prelude::*;

use crate::vec1::Vec1;

verus! {

// Versions of a package are numbered 1, 2, ..., N in increasing order; the
// number 0 stands for the package not being installed.
pub type Version = u64;

pub const VER_WIDTH: u32 = 64;

// A package id is the package's position in the repository.
pub type PackageId = u32;

pub type Index = u32;

// An installation plan: the version chosen for each package.
pub type Plan = Vec<(PackageId, Version)>;

/// An assignment of a version (or 0) to every package id.
pub type Assignment = spec_fn(PackageId) -> int;

#[derive(Clone, Copy, Debug, PartialEq, Eq, Structural)]
pub enum Range {
    Interval { lower: Version, upper: Version },
    Point(Version),
    All,
}

impl Range {
    /// Whether the version (or 0) `x` lies in the range. `All` stands for
    /// every installed version.
    pub open spec fn contains(self, x: int) -> bool {
        match self {
            Range::Interval { lower, upper } => lower <= x <= upper,
            Range::Point(v) => x == v,
            Range::All => x != 0,
        }
    }

    /// A range speaks of versions only, never of the uninstalled state.
    pub open spec fn wf(self) -> bool {
        match self {
            Range::Interval { lower, upper } => 1 <= lower <= upper,
            Range::Point(v) => 1 <= v,
            Range::All => true,
        }
    }

    pub open spec fn interval_spec(lower: Version, upper: Version) -> Option<Range> {
        if lower < upper {
            Some(Range::Interval { lower, upper })
        } else if lower == upper {
            Some(Range::Point(lower))
        } else {
            None
        }
    }

    pub fn point(v: Version) -> (r: Self)
        ensures
            r == Range::Point(v),
    {
        Range::Point(v)
    }

    pub fn interval(lower: Version, upper: Version) -> (r: Option<Self>)
        ensures
            r == Range::interval_spec(lower, upper),
    {
        if lower < upper {
            Some(Range::Interval { lower, upper })
        } else if lower == upper {
            Some(Range::Point(lower))
        } else {
            None
        }
    }

    pub fn interval_unchecked(lower: Version, upper: Version) -> (r: Self)
        ensures
            r == (Range::Interval { lower, upper }),
    {
        Range::Interval { lower, upper }
    }

    pub fn all() -> (r: Self)
        ensures
            r == Range::All,
    {
        Range::All
    }
}

/// Whether some range of `rs` contains `x`.
pub open spec fn ranges_contain(rs: Seq<Range>, x: int) -> bool {
    exists|i: int| 0 <= i < rs.len() && (#[trigger] rs[i]).contains(x)
}

pub open spec fn ranges_wf(rs: Seq<Range>) -> bool {
    forall|i: int| 0 <= i < rs.len() ==> (#[trigger] rs[i]).wf()
}

/// The abstract value of a requirement.
pub ghost struct ReqView {
    pub package: PackageId,
    pub versions: Seq<Range>,
}

impl ReqView {
    /// As a dependency: the chosen version of `package` lies in one of the ranges.
    pub open spec fn holds(self, a: Assignment) -> bool {
        ranges_contain(self.versions, a(self.package))
    }

    pub open spec fn wf(self) -> bool {
        self.versions.len() > 0 && ranges_wf(self.versions)
    }
}

#[derive(Clone, Debug, PartialEq, Eq)]
pub struct Requirement {
    pub package: PackageId,
    pub versions: Vec1<Range>,
}

impl View for Requirement {
    type V = ReqView;

    open spec fn view(&self) -> ReqView {
        ReqView { package: self.package, versions: self.versions@ }
    }
}

impl Requirement {
    pub fn new(package: PackageId, versions: Vec1<Range>) -> (r: Self)
        ensures
            r@ == (ReqView { package, versions: versions@ }),
    {
        Requirement { package, versions }
    }

    pub fn any_version(package: PackageId) -> (r: Self)
        ensures
            r@ == (ReqView { package, versions: seq![Range::All] }),
    {
        Requirement { package, versions: Vec1::new(Range::All) }
    }

    pub fn single_version(package: PackageId, version: Version) -> (r: Self)
        ensures
            r@ == (ReqView { package, versions: seq![Range::Point(version)] }),
    {
        Requirement { package, versions: Vec1::new(Range::Point(version)) }
    }

    pub fn range(package: PackageId, lower: Version, upper: Version) -> (r: Option<Self>)
        ensures
            lower <= upper <==> r is Some,
            r matches Some(q) ==> q@ == (ReqView {
                package,
                versions: seq![Range::interval_spec(lower, upper)->0],
            }),
    {
        match Range::interval(lower, upper) {
            Some(rg) => Some(Requirement { package, versions: Vec1::new(rg) }),
            None => None,
        }
    }
}

pub open spec fn req_views(s: Seq<Requirement>) -> Seq<ReqView> {
    s.map_values(|r: Requirement| r@)
}

/// The abstract value of a requirement set.
pub ghost struct ReqSetView {
    pub dependencies: Seq<ReqView>,
    pub conflicts: Seq<ReqView>,
}

impl ReqSetView {
    /// Every dependency holds and no conflict does.
    pub open spec fn holds(self, a: Assignment) -> bool {
        &&& forall|i: int| 0 <= i < self.dependencies.len() ==> (#[trigger] self.dependencies[i]).holds(a)
        &&& forall|i: int| 0 <= i < self.conflicts.len() ==> !(#[trigger] self.conflicts[i]).holds(a)
    }

    pub open spec fn wf(self) -> bool {
        &&& forall|i: int| 0 <= i < self.dependencies.len() ==> (#[trigger] self.dependencies[i]).wf()
        &&& forall|i: int| 0 <= i < self.conflicts.len() ==> (#[trigger] self.conflicts[i]).wf()
    }

    /// Every package that a dependency or a conflict names.
    pub open spec fn mentions(self, p: PackageId) -> bool {
        ||| exists|i: int| 0 <= i < self.dependencies.len() && (#[trigger] self.dependencies[i]).package == p
        ||| exists|i: int| 0 <= i < self.conflicts.len() && (#[trigger] self.conflicts[i]).package == p
    }
}

#[derive(Clone, Debug, PartialEq, Eq, Default)]
pub struct RequirementSet {
    pub dependencies: Vec<Requirement>,
    pub conflicts: Vec<Requirement>,
}

impl View for RequirementSet {
    type V = ReqSetView;

    open spec fn view(&self) -> ReqSetView {
        ReqSetView {
            dependencies: req_views(self.dependencies@),
            conflicts: req_views(self.conflicts@),
        }
    }
}

impl RequirementSet {
    pub fn empty() -> (r: Self)
        ensures
            r@.dependencies == Seq::<ReqView>::empty(),
            r@.conflicts == Seq::<ReqView>::empty(),
    {
        RequirementSet { dependencies: Vec::new(), conflicts: Vec::new() }
    }

    pub fn from_dep(dep: Requirement) -> (r: Self)
        ensures
            r@.dependencies == seq![dep@],
            r@.conflicts == Seq::<ReqView>::empty(),
    {
        let mut dependencies = Vec::new();
        dependencies.push(dep);
        let r = RequirementSet { dependencies, conflicts: Vec::new() };
        assert(r@.dependencies =~= seq![dep@]);
        r
    }

    pub fn from_deps(deps: Vec<Requirement>) -> (r: Self)
        ensures
            r@.dependencies == req_views(deps@),
            r@.conflicts == Seq::<ReqView>::empty(),
    {
        let r = RequirementSet { dependencies: deps, conflicts: Vec::new() };
        assert(r@.conflicts =~= Seq::<ReqView>::empty());
        r
    }

    pub fn from_antidep(antidep: Requirement) -> (r: Self)
        ensures
            r@.dependencies == Seq::<ReqView>::empty(),
            r@.conflicts == seq![antidep@],
    {
        let mut conflicts = Vec::new();
        conflicts.push(antidep);
        let r = RequirementSet { dependencies: Vec::new(), conflicts };
        assert(r@.conflicts =~= seq![antidep@]);
        assert(r@.dependencies =~= Seq::<ReqView>::empty());
        r
    }

    pub fn from_antideps(antideps: Vec<Requirement>) -> (r: Self)
        ensures
            r@.dependencies == Seq::<ReqView>::empty(),
            r@.conflicts == req_views(antideps@),
    {
        let r = RequirementSet { dependencies: Vec::new(), conflicts: antideps };
        assert(r@.dependencies =~= Seq::<ReqView>::empty());
        r
    }

    pub fn add_dep(&mut self, dep: Requirement)
        ensures
            final(self)@.dependencies == old(self)@.dependencies.push(dep@),
            final(self)@.conflicts == old(self)@.conflicts,
    {
        self.dependencies.push(dep);
        assert(self@.dependencies =~= old(self)@.dependencies.push(dep@));
    }

    pub fn add_deps(&mut self, deps: Vec<Requirement>)
        ensures
            final(self)@.dependencies == old(self)@.dependencies + req_views(deps@),
            final(self)@.conflicts == old(self)@.conflicts,
    {
        let ghost d = deps@;
        let mut deps = deps;
        self.dependencies.append(&mut deps);
        assert(self@.dependencies =~= old(self)@.dependencies + req_views(d));
    }

    pub fn add_antidep(&mut self, antidep: Requirement)
        ensures
            final(self)@.dependencies == old(self)@.dependencies,
            final(self)@.conflicts == old(self)@.conflicts.push(antidep@),
    {
        self.conflicts.push(antidep);
        assert(self@.conflicts =~= old(self)@.conflicts.push(antidep@));
    }

    pub fn add_antideps(&mut self, antideps: Vec<Requirement>)
        ensures
            final(self)@.dependencies == old(self)@.dependencies,
            final(self)@.conflicts == old(self)@.conflicts + req_views(antideps@),
    {
        let ghost d = antideps@;
        let mut antideps = antideps;
        self.conflicts.append(&mut antideps);
        assert(self@.conflicts =~= old(self)@.conflicts + req_views(d));
    }
}

#[derive(Clone, Debug, PartialEq, Eq)]
pub struct PackageVer {
    pub requirements: RequirementSet,
}

impl PackageVer {
    pub fn deps(&self) -> (r: &Vec<Requirement>)
        ensures
            r@ == self.requirements.dependencies@,
    {
        &self.requirements.dependencies
    }

    pub fn antideps(&self) -> (r: &Vec<Requirement>)
        ensures
            r@ == self.requirements.conflicts@,
    {
        &self.requirements.conflicts
    }
}

#[derive(Clone, Debug, PartialEq, Eq)]
pub struct Package {
    pub id: PackageId,
    pub versions: Vec<PackageVer>,
}

impl Package {
    /// The requirements of version `v` (numbered from 1).
    pub open spec fn reqs_of(self, v: int) -> ReqSetView {
        self.versions@[v - 1].requirements@
    }

    pub fn newest_version_number(&self) -> (r: Version)
        ensures
            r == self.versions@.len(),
    {
        self.versions.len() as Version
    }

    pub fn newest_version(&self) -> (r: &PackageVer)
        requires
            self.versions@.len() > 0,
        ensures
            *r == self.versions@[self.versions@.len() - 1],
    {
        &self.versions[self.versions.len() - 1]
    }
}

#[derive(Clone, Debug, PartialEq, Eq)]
pub struct Repository {
    pub packages: Vec<Package>,
}

impl Repository {
    /// Package ids are positions, and every range is well formed.
    pub open spec fn wf(self) -> bool {
        &&& self.packages@.len() <= u32::MAX
        &&& forall|i: int| 0 <= i < self.packages@.len() ==> (#[trigger] self.packages@[i]).id == i
        &&& forall|i: int| 0 <= i < self.packages@.len() ==> (#[trigger] self.packages@[i]).versions@.len() <= u64::MAX
        &&& forall|i: int, v: int|
            0 <= i < self.packages@.len() && 1 <= v <= self.packages@[i].versions@.len()
                ==> (#[trigger] self.packages@[i].reqs_of(v)).wf()
    }

    pub open spec fn has(self, p: PackageId) -> bool {
        p < self.packages@.len()
    }

    pub open spec fn pkg(self, p: PackageId) -> Package {
        self.packages@[p as int]
    }

    pub open spec fn newest(self, p: PackageId) -> nat {
        self.packages@[p as int].versions@.len()
    }

    pub fn get_package(&self, id: PackageId) -> (r: Option<&Package>)
        ensures
            self.has(id) <==> r is Some,
            r matches Some(q) ==> *q == self.pkg(id),
    {
        if (id as usize) < self.packages.len() {
            Some(&self.packages[id as usize])
        } else {
            None
        }
    }

    pub fn get_package_unchecked(&self, id: PackageId) -> (r: &Package)
        requires
            self.has(id),
        ensures
            *r == self.pkg(id),
    {
        &self.packages[id as usize]
    }

    pub fn newest_ver_of(&self, id: PackageId) -> (r: Option<Version>)
        ensures
            self.has(id) <==> r is Some,
            r matches Some(v) ==> v == self.newest(id),
    {
        match self.get_package(id) {
            Some(p) => Some(p.newest_version_number()),
            None => None,
        }
    }

    pub fn newest_ver_of_unchecked(&self, id: PackageId) -> (r: Version)
        requires
            self.has(id),
        ensures
            r == self.newest(id),
    {
        self.get_package_unchecked(id).newest_version_number()
    }
}

#[derive(Clone, Debug, PartialEq, Eq)]
pub enum ResolutionError {
    IllegalIndex { index: PackageId },
    TimeOut,
    ResolutionFailure { reason: String },
}

} // verus!

verus! {

impl Range {
    pub fn is_well_formed(&self) -> (r: bool)
        ensures
            r == self.wf(),
    {
        match self {
            Range::Interval { lower, upper } => 1 <= *lower && *lower <= *upper,
            Range::Point(v) => 1 <= *v,
            Range::All => true,
        }
    }
}

impl Requirement {
    /// At least one range, and every range well formed.
    pub fn is_well_formed(&self) -> (r: bool)
        ensures
            r == self@.wf(),
    {
        let rs = self.versions.as_vec();
        if rs.len() == 0 {
            return false;
        }
        let mut i: usize = 0;
        while i < rs.len()
            invariant
                rs@ == self.versions@,
                i <= rs@.len(),
                forall|k: int| 0 <= k < i ==> (#[trigger] rs@[k]).wf(),
            decreases rs@.len() - i,
        {
            if !rs[i].is_well_formed() {
                return false;
            }
            i += 1;
        }
        true
    }
}

fn all_well_formed(reqs: &Vec<Requirement>) -> (r: bool)
    ensures
        r == forall|k: int| 0 <= k < req_views(reqs@).len() ==> (#[trigger] req_views(reqs@)[k]).wf(),
{
    assert(req_views(reqs@).len() == reqs@.len());
    let mut i: usize = 0;
    while i < reqs.len()
        invariant
            i <= reqs@.len(),
            forall|k: int| 0 <= k < i ==> (#[trigger] req_views(reqs@)[k]).wf(),
        decreases reqs@.len() - i,
    {
        if !reqs[i].is_well_formed() {
            assert(req_views(reqs@)[i as int] == reqs@[i as int]@);
            return false;
        }
        i += 1;
    }
    true
}

impl RequirementSet {
    pub fn is_well_formed(&self) -> (r: bool)
        ensures
            r == self@.wf(),
    {
        let d = all_well_formed(&self.dependencies);
        let c = all_well_formed(&self.conflicts);
        assert(self@.dependencies == req_views(self.dependencies@));
        assert(self@.conflicts == req_views(self.conflicts@));
        d && c
    }
}

impl Repository {
    /// Every package sits at the position of its id and every range is well
    /// formed.
    pub fn is_well_formed(&self) -> (r: bool)
        ensures
            r == self.wf(),
    {
        if self.packages.len() > u32::MAX as usize {
            return false;
        }
        let mut i: usize = 0;
        while i < self.packages.len()
            invariant
                i <= self.packages@.len(),
                self.packages@.len() <= u32::MAX,
                forall|k: int| 0 <= k < i ==> (#[trigger] self.packages@[k]).id == k,
                forall|k: int| 0 <= k < i ==> (#[trigger] self.packages@[k]).versions@.len() <= u64::MAX,
                forall|k: int, v: int|
                    0 <= k < i && 1 <= v <= self.packages@[k].versions@.len()
                        ==> (#[trigger] self.packages@[k].reqs_of(v)).wf(),
            decreases self.packages@.len() - i,
        {
            let package = &self.packages[i];
            if package.id as usize != i {
                return false;
            }
            let mut j: usize = 0;
            while j < package.versions.len()
                invariant
                    i < self.packages@.len(),
                    *package == self.packages@[i as int],
                    j <= package.versions@.len(),
                    forall|v: int| 1 <= v <= j ==> (#[trigger] package.reqs_of(v)).wf(),
                decreases package.versions@.len() - j,
            {
                if !package.versions[j].requirements.is_well_formed() {
                    assert(package.reqs_of(j + 1) == package.versions@[j as int].requirements@);
                    assert(!self.packages@[i as int].reqs_of(j + 1).wf());
                    return false;
                }
                assert(package.reqs_of(j + 1) == package.versions@[j as int].requirements@);
                j += 1;
            }
            i += 1;
        }
        true
    }
}

} // verus!
