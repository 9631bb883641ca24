use bumpalo::Bump;
use pkg_resolve::closure::find_closure;
use pkg_resolve::smt::{Formula, IntTerm};
use pkg_resolve::solver::{
    interpret_outcome, prepare, select_plans, CheckOutcome, Objective, Problem, ResolutionResult,
};
use pkg_resolve::types::{
    Package, PackageVer, Plan, Range, Repository, Requirement, RequirementSet, ResolutionError,
};
use pkg_resolve::vec1::Vec1;

fn value(t: &IntTerm, asg: &dyn Fn(u32) -> i128) -> i128 {
    match t {
        IntTerm::Var(p) => asg(*p),
        IntTerm::Const(c) => *c as i128,
        IntTerm::NegConst(c) => -(*c as i128),
        IntTerm::Add(l, r) => value(l, asg) + value(r, asg),
        IntTerm::Sub(l, r) => value(l, asg) - value(r, asg),
        IntTerm::Ite(c, t, e) => {
            if holds(c, asg) {
                value(t, asg)
            } else {
                value(e, asg)
            }
        }
    }
}

fn holds(f: &Formula, asg: &dyn Fn(u32) -> i128) -> bool {
    match f {
        Formula::Lit(b) => *b,
        Formula::Eq(l, r) => value(l, asg) == value(r, asg),
        Formula::Le(l, r) => value(l, asg) <= value(r, asg),
        Formula::Ge(l, r) => value(l, asg) >= value(r, asg),
        Formula::Lt(l, r) => value(l, asg) < value(r, asg),
        Formula::Gt(l, r) => value(l, asg) > value(r, asg),
        Formula::Not(g) => !holds(g, asg),
        Formula::And(l, r) => holds(l, asg) && holds(r, asg),
        Formula::Or(l, r) => holds(l, asg) || holds(r, asg),
        Formula::Implies(l, r) => !holds(l, asg) || holds(r, asg),
    }
}

// Every assignment of the closure's variables within 0..=4 that satisfies
// the chosen assertions: a stand-in for the SMT engine on small problems.
fn models_of(problem: &Problem, chosen: &[usize]) -> Vec<Vec<u64>> {
    let n = problem.closure.len();
    let mut out = Vec::new();
    let mut vals = vec![0u64; n];
    loop {
        let asg = |p: u32| -> i128 {
            match problem.closure.iter().position(|q| *q == p) {
                Some(i) => vals[i] as i128,
                None => 0,
            }
        };
        if chosen.iter().all(|&k| holds(&problem.assertions[k].0, &asg)) {
            out.push(vals.clone());
        }
        let mut i = 0;
        while i < n && vals[i] == 4 {
            vals[i] = 0;
            i += 1;
        }
        if i == n {
            break;
        }
        vals[i] += 1;
    }
    out
}

fn all_models(problem: &Problem) -> Vec<Vec<u64>> {
    let all: Vec<usize> = (0..problem.assertions.len()).collect();
    models_of(problem, &all)
}

// A minimal unsatisfiable subset, by deletion.
fn minimal_core(problem: &Problem) -> Vec<usize> {
    let mut core: Vec<usize> = (0..problem.assertions.len()).collect();
    let mut i = 0;
    while i < core.len() {
        let mut trial = core.clone();
        trial.remove(i);
        if models_of(problem, &trial).is_empty() {
            core = trial;
        } else {
            i += 1;
        }
    }
    core
}

fn ranges(rs: Vec<Range>) -> Vec1<Range> {
    Vec1::try_from_vec(rs).unwrap()
}

fn no_reqs() -> PackageVer {
    PackageVer { requirements: RequirementSet::empty() }
}

fn deps(reqs: Vec<Requirement>) -> PackageVer {
    PackageVer { requirements: RequirementSet::from_deps(reqs) }
}

// p0 has four versions without requirements, p1 one version, p2 two.
fn repo(p1: Vec<PackageVer>, p2: Vec<PackageVer>) -> Repository {
    Repository {
        packages: vec![
            Package { id: 0, versions: vec![no_reqs(), no_reqs(), no_reqs(), no_reqs()] },
            Package { id: 1, versions: p1 },
            Package { id: 2, versions: p2 },
        ],
    }
}

fn compatible_repo() -> Repository {
    repo(
        vec![deps(vec![Requirement::new(0, ranges(vec![Range::interval_unchecked(1, 2)]))])],
        vec![deps(vec![Requirement::new(0, ranges(vec![Range::interval_unchecked(2, 3)]))]), no_reqs()],
    )
}

fn value_in(plan: &Plan, p: u32) -> u64 {
    plan.iter().find(|(q, _)| *q == p).map(|(_, v)| *v).unwrap_or(0)
}

fn sat_plans(r: ResolutionResult) -> Vec<Plan> {
    match r {
        ResolutionResult::Sat { plans } => plans.into_vec(),
        other => panic!("expected a plan, got {other:?}"),
    }
}

fn outcome_for(plan_values: &[u64]) -> CheckOutcome {
    CheckOutcome::Sat { values: plan_values.iter().map(|v| Some(*v)).collect() }
}

#[test]
fn compatible_dependencies() {
    let repo = compatible_repo();
    let reqs = RequirementSet::from_deps(vec![Requirement::any_version(1), Requirement::any_version(2)]);
    let b = Bump::new();
    let problem = prepare(&b, &repo, &reqs).unwrap();
    assert_eq!(problem.closure, vec![0, 1, 2]);
    let models = all_models(&problem);
    assert!(models.contains(&vec![2, 1, 1]));
    assert!(models.iter().all(|m| m[0] == 1 || m[0] == 2));
    assert!(models.iter().all(|m| m[1] == 1 && m[2] >= 1));
    let plans = sat_plans(interpret_outcome(&repo, &reqs, &problem, outcome_for(&[2, 1, 1])).unwrap());
    assert_eq!(plans, vec![vec![(0, 2), (1, 1), (2, 1)]]);
}

fn incompatible_repo() -> Repository {
    repo(
        vec![deps(vec![Requirement::new(0, ranges(vec![Range::interval_unchecked(1, 3)]))])],
        vec![
            deps(vec![Requirement::new(0, ranges(vec![Range::point(4)]))]),
            deps(vec![Requirement::new(0, ranges(vec![Range::point(4)]))]),
        ],
    )
}

#[test]
fn incompatible_dependencies_give_core() {
    let repo = incompatible_repo();
    let mut reqs = RequirementSet::from_deps(vec![Requirement::any_version(2)]);
    reqs.add_deps(vec![Requirement::new(1, ranges(vec![Range::interval_unchecked(1, 1)]))]);
    let b = Bump::new();
    let problem = prepare(&b, &repo, &reqs).unwrap();
    assert!(all_models(&problem).is_empty());
    let core = minimal_core(&problem);
    let result = interpret_outcome(&repo, &reqs, &problem, CheckOutcome::Unsat { core }).unwrap();
    let core = match result {
        ResolutionResult::UnsatWithCore { core } => core,
        other => panic!("expected a core, got {other:?}"),
    };
    let p1_reqs = core.package_reqs.get(1).unwrap().get(1).unwrap();
    assert_eq!(
        p1_reqs.dependencies,
        vec![Requirement::new(0, ranges(vec![Range::interval_unchecked(1, 3)]))]
    );
    let top = &core.toplevel_reqs;
    assert!(top.dependencies.contains(&Requirement::single_version(1, 1)));
    assert!(top.conflicts.contains(&Requirement::single_version(2, 0)));
    let p2_reqs = core.package_reqs.get(2).unwrap();
    assert!(p2_reqs.get(1).is_some() && p2_reqs.get(2).is_some());
}

#[test]
fn newest_optimization() {
    let repo = compatible_repo();
    let reqs = RequirementSet::from_deps(vec![Requirement::any_version(1), Requirement::any_version(2)]);
    let b = Bump::new();
    let problem = prepare(&b, &repo, &reqs).unwrap();
    let models: Vec<Vec<Option<u64>>> =
        all_models(&problem).into_iter().map(|m| m.into_iter().map(Some).collect()).collect();
    let plans = sat_plans(select_plans(&repo, &problem.closure, &models, Objective::Newest).unwrap());
    assert_eq!(plans, vec![vec![(0, 2), (1, 1), (2, 2)]]);
}

#[test]
fn minimal_optimization() {
    let repo = compatible_repo();
    let reqs = RequirementSet::from_deps(vec![Requirement::new(1, ranges(vec![Range::interval_unchecked(1, 1)]))]);
    let b = Bump::new();
    let problem = prepare(&b, &repo, &reqs).unwrap();
    assert_eq!(problem.closure, vec![0, 1]);
    let models: Vec<Vec<Option<u64>>> =
        all_models(&problem).into_iter().map(|m| m.into_iter().map(Some).collect()).collect();
    let plans = sat_plans(select_plans(&repo, &problem.closure, &models, Objective::Minimal).unwrap());
    assert!(!plans.is_empty());
    for plan in &plans {
        assert!(value_in(plan, 0) > 0);
        assert_eq!(value_in(plan, 1), 1);
        assert_eq!(value_in(plan, 2), 0);
    }
    // among the fewest installs, the newest p0 that p1 allows
    assert_eq!(plans, vec![vec![(0, 2), (1, 1)]]);
}

#[test]
fn conflict_as_negation() {
    let conflicting = PackageVer {
        requirements: RequirementSet::from_antidep(Requirement::new(
            0,
            ranges(vec![Range::interval_unchecked(1, 2)]),
        )),
    };
    let repo = repo(vec![conflicting], vec![no_reqs(), no_reqs()]);
    let reqs = RequirementSet::from_deps(vec![Requirement::any_version(0), Requirement::any_version(1)]);
    let b = Bump::new();
    let problem = prepare(&b, &repo, &reqs).unwrap();
    let models = all_models(&problem);
    assert!(!models.is_empty());
    for m in &models {
        assert!(m[0] == 3 || m[0] == 4);
        assert_eq!(m[1], 1);
    }
}

#[test]
fn all_range_alone() {
    let repo = compatible_repo();
    let reqs = RequirementSet::from_dep(Requirement::new(0, ranges(vec![Range::All])));
    let b = Bump::new();
    let problem = prepare(&b, &repo, &reqs).unwrap();
    assert_eq!(problem.closure, vec![0]);
    let models = all_models(&problem);
    let mut seen: Vec<u64> = models.iter().map(|m| m[0]).collect();
    seen.sort();
    assert_eq!(seen, vec![1, 2, 3, 4]);
    let plans = sat_plans(interpret_outcome(&repo, &reqs, &problem, outcome_for(&[3])).unwrap());
    assert_eq!(value_in(&plans[0], 1), 0);
    assert_eq!(value_in(&plans[0], 2), 0);
}

#[test]
fn unknown_package_is_an_illegal_index() {
    let repo = compatible_repo();
    let reqs = RequirementSet::from_dep(Requirement::any_version(7));
    let b = Bump::new();
    match prepare(&b, &repo, &reqs) {
        Err(e) => assert_eq!(e, ResolutionError::IllegalIndex { index: 7 }),
        Ok(_) => panic!("expected an error"),
    }
}

#[test]
fn reachable_unknown_package_is_an_illegal_index() {
    let repo = repo(vec![deps(vec![Requirement::any_version(9)])], vec![no_reqs()]);
    let reqs = RequirementSet::from_dep(Requirement::any_version(1));
    assert_eq!(find_closure(&repo, &reqs).err(), Some(ResolutionError::IllegalIndex { index: 9 }));
}

#[test]
fn unknown_answer_is_a_failure() {
    let repo = compatible_repo();
    let reqs = RequirementSet::from_dep(Requirement::any_version(1));
    let b = Bump::new();
    let problem = prepare(&b, &repo, &reqs).unwrap();
    let r = interpret_outcome(&repo, &reqs, &problem, CheckOutcome::Unknown { reason: "timeout".to_string() });
    assert_eq!(r, Err(ResolutionError::ResolutionFailure { reason: "timeout".to_string() }));
}

#[test]
fn closure_follows_conflicts_and_every_version() {
    let repo = repo(
        vec![PackageVer { requirements: RequirementSet::from_antidep(Requirement::any_version(2)) }],
        vec![no_reqs(), deps(vec![Requirement::any_version(0)])],
    );
    let reqs = RequirementSet::from_dep(Requirement::any_version(1));
    let set = find_closure(&repo, &reqs).unwrap();
    assert!(set.contains(0) && set.contains(1) && set.contains(2));
    assert_eq!(set.len(), 3);
}
