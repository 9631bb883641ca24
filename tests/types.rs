use pkg_resolve::types::{Package, PackageVer, Range, Repository, Requirement, RequirementSet};
use pkg_resolve::vec1::Vec1;

#[test]
fn vec1_operations() {
    let mut v = Vec1::new(1);
    v.push(2);
    let mut more = vec![3, 4];
    v.append(&mut more);
    assert!(more.is_empty());
    assert_eq!(v.as_vec(), &vec![1, 2, 3, 4]);
    assert_eq!(v.into_vec(), vec![1, 2, 3, 4]);
    assert!(Vec1::<u8>::try_from_vec(vec![]).is_err());
    assert_eq!(Vec1::try_from_vec(vec![5]).unwrap().into_vec(), vec![5]);
}

#[test]
fn range_constructors() {
    assert_eq!(Range::interval(1, 3), Some(Range::Interval { lower: 1, upper: 3 }));
    assert_eq!(Range::interval(2, 2), Some(Range::Point(2)));
    assert_eq!(Range::interval(3, 2), None);
    assert_eq!(Range::point(4), Range::Point(4));
    assert_eq!(Range::all(), Range::All);
}

#[test]
fn requirement_set_building() {
    let mut s = RequirementSet::from_dep(Requirement::any_version(1));
    s.add_dep(Requirement::single_version(2, 3));
    s.add_deps(vec![Requirement::any_version(4)]);
    s.add_antidep(Requirement::any_version(5));
    s.add_antideps(vec![Requirement::single_version(6, 1), Requirement::any_version(7)]);
    let deps: Vec<u32> = s.dependencies.iter().map(|r| r.package).collect();
    let confs: Vec<u32> = s.conflicts.iter().map(|r| r.package).collect();
    assert_eq!(deps, vec![1, 2, 4]);
    assert_eq!(confs, vec![5, 6, 7]);
    let a = RequirementSet::from_antideps(vec![Requirement::any_version(0)]);
    assert!(a.dependencies.is_empty() && a.conflicts.len() == 1);
    let b = RequirementSet::from_antidep(Requirement::any_version(0));
    assert_eq!(a, b);
}

#[test]
fn repository_lookups() {
    let ver = |n: u32| PackageVer { requirements: RequirementSet::from_dep(Requirement::any_version(n)) };
    let repo = Repository {
        packages: vec![
            Package { id: 0, versions: vec![ver(1), ver(2), ver(3)] },
            Package { id: 1, versions: vec![ver(0)] },
        ],
    };
    assert_eq!(repo.newest_ver_of(0), Some(3));
    assert_eq!(repo.newest_ver_of(1), Some(1));
    assert_eq!(repo.newest_ver_of(2), None);
    assert_eq!(repo.newest_ver_of_unchecked(0), 3);
    assert!(repo.get_package(5).is_none());
    let p = repo.get_package_unchecked(0);
    assert_eq!(p.newest_version_number(), 3);
    assert_eq!(p.newest_version().deps()[0].package, 3);
    assert!(p.newest_version().antideps().is_empty());
}
