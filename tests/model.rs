use pkg_resolve::enumerate::{CheckAnswer, EnumAction, ModelEnumeration};
use pkg_resolve::extended::{ranges_of_members, to_ranges, ERequirement, EVersion, Intersection, SetOf, Union};
use pkg_resolve::metrics::{iter_max_map, select_optimal};
use pkg_resolve::smt::{sgn, IntTerm};
use pkg_resolve::solver::{plan_from_model, plan_score, Objective};
use pkg_resolve::types::{Package, PackageVer, Range, Repository, Requirement, RequirementSet};
use pkg_resolve::vec1::Vec1;

#[test]
fn iter_max_map_keeps_all_ties_in_order() {
    let items = vec!["a", "b", "c", "d", "e"];
    let keys = vec![(1, 5), (3, 0), (2, 9), (3, 0), (0, 0)];
    assert_eq!(iter_max_map(items, &keys), vec!["b", "d"]);
    assert_eq!(iter_max_map(Vec::<u8>::new(), &vec![]), Vec::<u8>::new());
}

#[test]
fn select_optimal_keeps_least_scores() {
    let items = vec![10, 20, 30, 40];
    let scores = vec![(2, 1), (1, 7), (1, 3), (1, 3)];
    assert_eq!(select_optimal(items, &scores), vec![30, 40]);
}

#[test]
fn plan_from_model_pairs_ids_with_values() {
    let plan = plan_from_model(&vec![0, 3, 5], &vec![Some(2), Some(0), Some(9)]);
    assert_eq!(plan, vec![(0, 2), (3, 0), (5, 9)]);
}

fn small_repo() -> Repository {
    let v = || PackageVer { requirements: RequirementSet::empty() };
    Repository {
        packages: vec![
            Package { id: 0, versions: vec![v(), v(), v(), v()] },
            Package { id: 1, versions: vec![v(), v()] },
        ],
    }
}

#[test]
fn plan_scores_follow_the_objective() {
    let repo = small_repo();
    let plan = vec![(0, 1), (1, 0)];
    assert_eq!(plan_score(&repo, &plan, Objective::Newest), (3, 1));
    assert_eq!(plan_score(&repo, &plan, Objective::Minimal), (1, 3));
}

#[test]
fn sign_term_is_built() {
    match sgn(IntTerm::Var(4)) {
        IntTerm::Ite(_, t, e) => {
            assert_eq!(*t, IntTerm::Const(1));
            assert!(matches!(*e, IntTerm::Ite(_, _, _)));
        }
        other => panic!("unexpected term {other:?}"),
    }
}

#[test]
fn enumeration_visits_every_value() {
    // two variables; the engine answers from a fixed table of models
    let (mut e, mut actions) = ModelEnumeration::start(vec![0, 1]);
    assert_eq!(actions, vec![EnumAction::Push, EnumAction::Check]);
    actions = e.step(CheckAnswer::Sat { value: 1 });
    assert_eq!(
        actions,
        vec![EnumAction::Push, EnumAction::Fix { var: 0, value: 1 }, EnumAction::Push, EnumAction::Check]
    );
    actions = e.step(CheckAnswer::Sat { value: 2 });
    assert_eq!(actions, vec![EnumAction::Push, EnumAction::Fix { var: 1, value: 2 }, EnumAction::Check]);
    actions = e.step(CheckAnswer::Sat { value: 0 });
    assert_eq!(
        actions,
        vec![EnumAction::Record, EnumAction::Pop, EnumAction::Block { var: 1, value: 2 }, EnumAction::Check]
    );
    actions = e.step(CheckAnswer::NotSat);
    assert_eq!(
        actions,
        vec![EnumAction::Pop, EnumAction::Pop, EnumAction::Block { var: 0, value: 1 }, EnumAction::Check]
    );
    actions = e.step(CheckAnswer::NotSat);
    assert_eq!(actions, vec![EnumAction::Pop, EnumAction::Done]);
}

#[test]
fn members_become_maximal_runs() {
    let members = vec![true, true, false, true, false, false, true, true, true];
    assert_eq!(
        ranges_of_members(&members),
        vec![Range::interval_unchecked(1, 2), Range::point(4), Range::interval_unchecked(7, 9)]
    );
    assert_eq!(ranges_of_members(&vec![false, false]), vec![]);
}

struct Below(u32);

impl SetOf<u32> for Below {
    fn has(&self, t: u32) -> bool {
        t < self.0
    }

    fn contains(&self, t: &u32) -> bool {
        self.has(*t)
    }
}

struct Above(u32);

impl SetOf<u32> for Above {
    fn has(&self, t: u32) -> bool {
        t > self.0
    }

    fn contains(&self, t: &u32) -> bool {
        self.has(*t)
    }
}

#[test]
fn set_combinators_give_ranges() {
    let tags = vec![10, 20, 30, 40, 50];
    assert_eq!(to_ranges(&Union(vec![Below(15), Below(35)]), &tags), vec![Range::interval_unchecked(1, 3)]);
    assert_eq!(to_ranges(&Intersection(vec![Below(45), Below(25)]), &tags), vec![Range::interval_unchecked(1, 2)]);
    let union = Union(vec![Below(15)]);
    assert!(union.contains(&10) && !union.contains(&20));
    assert_eq!(to_ranges(&Above(45), &tags), vec![Range::point(5)]);
}

#[test]
fn version_builder_collects_requirements() {
    let mut v: EVersion<&str, u32, Below> = EVersion::new(3);
    v.add_dependency(ERequirement::new("a", Below(2)));
    v.add_conflict(ERequirement::new("b", Below(1)));
    assert_eq!(v.version, 3);
    assert_eq!(v.dependencies.len(), 1);
    assert_eq!(v.conflicts[0].package, "b");
}

#[test]
fn well_formedness_is_checked() {
    assert!(small_repo().is_well_formed());
    let mut bad = small_repo();
    bad.packages[1].id = 5;
    assert!(!bad.is_well_formed());
    let reqs = RequirementSet::from_dep(Requirement::new(0, Vec1::new(Range::interval_unchecked(3, 1))));
    assert!(!reqs.is_well_formed());
    assert!(RequirementSet::from_dep(Requirement::range(0, 1, 3).unwrap()).is_well_formed());
    assert!(Requirement::range(0, 3, 1).is_none());
    assert_eq!(Requirement::range(0, 2, 2).unwrap(), Requirement::single_version(0, 2));
}
