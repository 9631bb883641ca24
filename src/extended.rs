// Repositories in the user's vocabulary: named packages, version tags and
// arbitrary sets of versions, before they are numbered.
use vstd::prelude::*;

use crate::intervals::{hi, lo, ranges_canonical};
use crate::types::{Range, Version, ranges_contain};

verus! {

/// A set of values of type `T`, as the user describes version sets.
pub trait SetOf<T> {
    /// Whether `t` belongs to the set.
    spec fn has(&self, t: T) -> bool;

    fn contains(&self, t: &T) -> (r: bool)
        ensures
            r == self.has(*t);
}

/// The union of several sets.
pub struct Union<R>(pub Vec<R>);

impl<T, R: SetOf<T>> SetOf<T> for Union<R> {
    open spec fn has(&self, t: T) -> bool {
        exists|i: int| 0 <= i < self.0@.len() && (#[trigger] self.0@[i]).has(t)
    }

    fn contains(&self, t: &T) -> (r: bool) {
        let mut i: usize = 0;
        while i < self.0.len()
            invariant
                i <= self.0@.len(),
                forall|k: int| 0 <= k < i ==> !(#[trigger] self.0@[k]).has(*t),
            decreases self.0@.len() - i,
        {
            if self.0[i].contains(t) {
                return true;
            }
            i += 1;
        }
        false
    }
}

/// The intersection of several sets.
pub struct Intersection<R>(pub Vec<R>);

impl<T, R: SetOf<T>> SetOf<T> for Intersection<R> {
    open spec fn has(&self, t: T) -> bool {
        forall|i: int| 0 <= i < self.0@.len() ==> (#[trigger] self.0@[i]).has(t)
    }

    fn contains(&self, t: &T) -> (r: bool) {
        let mut i: usize = 0;
        while i < self.0.len()
            invariant
                i <= self.0@.len(),
                forall|k: int| 0 <= k < i ==> (#[trigger] self.0@[k]).has(*t),
            decreases self.0@.len() - i,
        {
            if !self.0[i].contains(t) {
                return false;
            }
            i += 1;
        }
        true
    }
}

/// The range `[low, high]`, as a point when it holds one version.
fn run_range(low: Version, high: Version) -> (r: Range)
    requires
        1 <= low <= high,
    ensures
        lo(r) == low,
        hi(r) == high,
        !(r is All),
        r is Interval ==> low < high,
        forall|x: int| r.contains(x) == (low <= x <= high),
{
    if high == low {
        Range::Point(low)
    } else {
        Range::Interval { lower: low, upper: high }
    }
}

/// The canonical ranges of the versions `v` (numbered from 1) with
/// `members[v - 1]`: one range per maximal run of members.
pub fn ranges_of_members(members: &Vec<bool>) -> (r: Vec<Range>)
    requires
        members@.len() < u64::MAX,
    ensures
        ranges_canonical(r@),
        forall|x: int| ranges_contain(r@, x) == (1 <= x <= members@.len() && members@[x - 1]),
{
    let mut ranges: Vec<Range> = Vec::new();
    let mut containing = false;
    let mut low: Version = 1;
    let mut i: usize = 0;
    while i < members.len()
        invariant
            members@.len() < u64::MAX,
            i <= members@.len(),
            ranges_canonical(ranges@),
            containing ==> 1 <= low <= i,
            containing ==> forall|x: int| low <= x <= i ==> #[trigger] members@[x - 1],
            containing ==> low == 1 || !members@[low - 2],
            containing ==> forall|k: int| 0 <= k < ranges@.len() ==> hi(#[trigger] ranges@[k]) + 1 < low,
            !containing ==> forall|k: int| 0 <= k < ranges@.len() ==> hi(#[trigger] ranges@[k]) < i,
            !containing && i > 0 ==> !members@[i - 1] || (ranges@.len() > 0 && hi(ranges@.last()) == i),
            !containing && i > 0 && members@[i - 1] ==> false,
            forall|k: int| 0 <= k < ranges@.len() ==> 1 <= lo(#[trigger] ranges@[k]),
            forall|x: int|
                ranges_contain(ranges@, x) == (1 <= x <= i && members@[x - 1] && !(containing && x >= low)),
        decreases members@.len() - i,
    {
        let ghost before = ranges@;
        if containing {
            if !members[i] {
                containing = false;
                let high = i as Version;
                let rg = run_range(low, high);
                ranges.push(rg);
                proof {
                    assert forall|a: int, b: int| 0 <= a < b < ranges@.len() implies hi(#[trigger] ranges@[a]) + 1 < lo(#[trigger] ranges@[b]) by {
                        if b < before.len() {
                            assert(ranges@[a] == before[a] && ranges@[b] == before[b]);
                        } else {
                            assert(ranges@[a] == before[a]);
                        }
                    }
                    assert forall|k: int| 0 <= k < ranges@.len() implies !((#[trigger] ranges@[k]) is All)
                        && lo(ranges@[k]) <= hi(ranges@[k]) && (ranges@[k] is Interval ==> lo(ranges@[k]) < hi(ranges@[k])) by {
                        if k < before.len() {
                            assert(ranges@[k] == before[k]);
                        }
                    }
                    assert forall|x: int|
                        ranges_contain(ranges@, x) == (1 <= x <= i + 1 && members@[x - 1]) by {
                        if ranges_contain(ranges@, x) {
                            let k = choose|k: int| 0 <= k < ranges@.len() && (#[trigger] ranges@[k]).contains(x);
                            if k < before.len() {
                                assert(before[k] == ranges@[k]);
                                assert(ranges_contain(before, x));
                            }
                        }
                        if 1 <= x <= i + 1 && members@[x - 1] {
                            if x >= low {
                                assert(ranges@[ranges@.len() - 1] == rg);
                                assert(rg.contains(x));
                            } else {
                                assert(ranges_contain(before, x));
                                let k = choose|k: int| 0 <= k < before.len() && (#[trigger] before[k]).contains(x);
                                assert(ranges@[k] == before[k]);
                            }
                        }
                    }
                }
            }
        } else {
            if members[i] {
                containing = true;
                low = i as Version + 1;
            }
        }
        i += 1;
    }
    if containing {
        let high = members.len() as Version;
        let rg = run_range(low, high);
        let ghost before = ranges@;
        ranges.push(rg);
        proof {
            assert forall|a: int, b: int| 0 <= a < b < ranges@.len() implies hi(#[trigger] ranges@[a]) + 1 < lo(#[trigger] ranges@[b]) by {
                if b < before.len() {
                    assert(ranges@[a] == before[a] && ranges@[b] == before[b]);
                } else {
                    assert(ranges@[a] == before[a]);
                }
            }
            assert forall|k: int| 0 <= k < ranges@.len() implies !((#[trigger] ranges@[k]) is All)
                && lo(ranges@[k]) <= hi(ranges@[k]) && (ranges@[k] is Interval ==> lo(ranges@[k]) < hi(ranges@[k])) by {
                if k < before.len() {
                    assert(ranges@[k] == before[k]);
                }
            }
            assert forall|x: int| ranges_contain(ranges@, x) == (1 <= x <= members@.len() && members@[x - 1]) by {
                if ranges_contain(ranges@, x) {
                    let k = choose|k: int| 0 <= k < ranges@.len() && (#[trigger] ranges@[k]).contains(x);
                    if k < before.len() {
                        assert(before[k] == ranges@[k]);
                        assert(ranges_contain(before, x));
                    }
                }
                if 1 <= x <= members@.len() && members@[x - 1] {
                    if x >= low {
                        assert(ranges@[ranges@.len() - 1] == rg);
                        assert(rg.contains(x));
                    } else {
                        assert(ranges_contain(before, x));
                        let k = choose|k: int| 0 <= k < before.len() && (#[trigger] before[k]).contains(x);
                        assert(ranges@[k] == before[k]);
                    }
                }
            }
        }
    }
    ranges
}

} // verus!

verus! {

/// The canonical ranges of the versions whose tags `set` contains, where
/// `keys` are a package's version tags in increasing order and the version
/// numbered `v` is `keys[v - 1]`.
pub fn to_ranges<T, S: SetOf<T>>(set: &S, keys: &Vec<T>) -> (r: Vec<Range>)
    requires
        keys@.len() < u64::MAX,
    ensures
        ranges_canonical(r@),
        forall|x: int| ranges_contain(r@, x) == (1 <= x <= keys@.len() && set.has(keys@[x - 1])),
{
    let mut members: Vec<bool> = Vec::new();
    let mut i: usize = 0;
    while i < keys.len()
        invariant
            i <= keys@.len(),
            members@.len() == i,
            forall|k: int| 0 <= k < i ==> members@[k] == set.has(#[trigger] keys@[k]),
        decreases keys@.len() - i,
    {
        members.push(set.contains(&keys[i]));
        i += 1;
    }
    ranges_of_members(&members)
}

/// A requirement on a package named `package`, for the versions in `versions`.
#[derive(Clone, Debug, PartialEq, Eq)]
pub struct ERequirement<K, R> {
    pub package: K,
    pub versions: R,
}

impl<K, R> ERequirement<K, R> {
    pub fn new(package: K, versions: R) -> (r: Self)
        ensures
            r.package == package,
            r.versions == versions,
    {
        ERequirement { package, versions }
    }
}

/// A version tag of a package with its dependencies and conflicts.
#[derive(Clone, Debug, PartialEq, Eq)]
pub struct EVersion<K, V, R> {
    pub version: V,
    pub dependencies: Vec<ERequirement<K, R>>,
    pub conflicts: Vec<ERequirement<K, R>>,
}

impl<K, V, R> EVersion<K, V, R> {
    pub fn new(version: V) -> (r: Self)
        ensures
            r.version == version,
            r.dependencies@.len() == 0,
            r.conflicts@.len() == 0,
    {
        EVersion { version, dependencies: Vec::new(), conflicts: Vec::new() }
    }

    pub fn from(version: V, dependencies: Vec<ERequirement<K, R>>, conflicts: Vec<ERequirement<K, R>>) -> (r: Self)
        ensures
            r.version == version,
            r.dependencies == dependencies,
            r.conflicts == conflicts,
    {
        EVersion { version, dependencies, conflicts }
    }

    pub fn with_capacity(version: V, n: usize) -> (r: Self)
        ensures
            r.version == version,
            r.dependencies@.len() == 0,
            r.conflicts@.len() == 0,
    {
        EVersion { version, dependencies: Vec::with_capacity(n), conflicts: Vec::with_capacity(n) }
    }

    pub fn add_dependency(&mut self, requirement: ERequirement<K, R>)
        ensures
            final(self).version == old(self).version,
            final(self).dependencies@ == old(self).dependencies@.push(requirement),
            final(self).conflicts == old(self).conflicts,
    {
        self.dependencies.push(requirement)
    }

    pub fn add_conflict(&mut self, requirement: ERequirement<K, R>)
        ensures
            final(self).version == old(self).version,
            final(self).dependencies == old(self).dependencies,
            final(self).conflicts@ == old(self).conflicts@.push(requirement),
    {
        self.conflicts.push(requirement)
    }
}

/// A package under construction: its name and its versions in any order.
#[derive(Clone, Debug, PartialEq, Eq)]
pub struct EPackageBuilder<K, V, R> {
    pub name: K,
    pub versions: Vec<EVersion<K, V, R>>,
}

impl<K, V, R> EPackageBuilder<K, V, R> {
    pub fn new(name: K) -> (r: Self)
        ensures
            r.name == name,
            r.versions@.len() == 0,
    {
        EPackageBuilder { name, versions: Vec::new() }
    }

    pub fn with_capacity(name: K, n: usize) -> (r: Self)
        ensures
            r.name == name,
            r.versions@.len() == 0,
    {
        EPackageBuilder { name, versions: Vec::with_capacity(n) }
    }

    pub fn add_version(&mut self, version: EVersion<K, V, R>)
        ensures
            final(self).name == old(self).name,
            final(self).versions@ == old(self).versions@.push(version),
    {
        self.versions.push(version)
    }
}

/// Why a repository could not be built: a requirement names a package that
/// is not there, or selects no version of it.
#[derive(Clone, Debug, PartialEq, Eq)]
pub enum RepositoryBuildError<K, V, R> {
    UnknownPackage { source: K, version: V, unknown: K },
    IllformedRequirement { source: K, version: V, requirement: ERequirement<K, R> },
}

} // verus!
