// The resolution driver, as decisions around the SMT engine: the problem is
// encoded here, the engine is asked elsewhere, and its answer is read back
// here into a plan or into an unsatisfiable core.
use vstd::prelude::*;

use crate::closure::{closure_ids, find_closure, is_closure, set_u32_elems};
use crate::constraints::{Pair, add_all_constraints, problem_encoded};
use crate::decode::{ConstraintSet, assertion_wf, core_pkg, core_top, process_unsat_core};
use crate::expr::Expr;
use crate::smt::{Formula, var_eq, var_ge};
use crate::types::{PackageId, Plan, Repository, RequirementSet, ResolutionError, Version};
use crate::vec1::Vec1;
use bumpalo::Bump;

verus! {

#[derive(Debug, PartialEq, Eq)]
pub enum ResolutionResult {
    Unsat,
    UnsatWithCore { core: ConstraintSet },
    Sat { plans: Vec1<Plan> },
}

impl ResolutionResult {
    pub fn is_sat(&self) -> (r: bool)
        ensures
            r == (self is Sat),
    {
        match self {
            ResolutionResult::Sat { .. } => true,
            _ => false,
        }
    }

    pub fn is_unsat(&self) -> (r: bool)
        ensures
            r == !(self is Sat),
    {
        !self.is_sat()
    }
}

pub type Res = Result<ResolutionResult, ResolutionError>;

/// The decision problem for one resolution: the packages whose versions
/// are constrained, in increasing order of id, and the tracked assertions.
/// Assertion `i` is tracked by the boolean literal numbered `i`.
pub struct Problem<'b> {
    pub closure: Vec<PackageId>,
    pub assertions: Vec<Pair<'b>>,
}

/// The two lexicographic objectives.
#[derive(Clone, Copy, Debug, PartialEq, Eq, Structural)]
pub enum Objective {
    /// Fewest steps below the newest versions, then fewest packages installed.
    Newest,
    /// Fewest packages installed, then fewest steps below the newest versions.
    Minimal,
}

/// What the engine answered to a check of the assertions.
pub enum CheckOutcome {
    /// Satisfiable; the value of each package of the closure in the model,
    /// `None` where the model has none that fits in a `u64`.
    Sat { values: Vec<Option<u64>> },
    /// Unsatisfiable; the numbers of the tracked assertions in the core.
    Unsat { core: Vec<usize> },
    /// Neither; the engine's reason.
    Unknown { reason: String },
}

/// The engine's answer fits the problem: a model values every package of the
/// closure, and a core names tracked assertions only.
pub open spec fn outcome_wf(problem: &Problem, outcome: &CheckOutcome) -> bool {
    match outcome {
        CheckOutcome::Sat { values } => values@.len() == problem.closure@.len()
            && forall|i: int| 0 <= i < values@.len() ==> (#[trigger] values@[i]) is Some,
        CheckOutcome::Unsat { core } => forall|i: int| 0 <= i < core@.len() ==> #[trigger] core@[i] < problem.assertions@.len(),
        CheckOutcome::Unknown { .. } => true,
    }
}

/// The problem is the encoding of `reqs` over the closure of `reqs`.
pub open spec fn problem_of(repo: Repository, reqs: RequirementSet, p: Problem) -> bool {
    &&& is_closure(repo, reqs@, p.closure@.to_set())
    &&& forall|i: int, j: int| 0 <= i < j < p.closure@.len() ==> p.closure@[i] < p.closure@[j]
    &&& forall|j: int| 0 <= j < p.closure@.len() ==> repo.has(#[trigger] p.closure@[j])
    &&& problem_encoded(repo, p.closure@, reqs@, p.assertions@)
}

/// Computes the closure of the requirements and encodes the problem over it.
pub fn prepare<'b>(b: &'b Bump, repo: &Repository, requirements: &RequirementSet) -> (r: Result<Problem<'b>, ResolutionError>)
    ensures
        r matches Ok(p) ==> problem_of(*repo, *requirements, p),
        r matches Err(e) ==> e matches ResolutionError::IllegalIndex { index } && !repo.has(index)
            && crate::closure::in_every_closed(*repo, requirements@, index),
{
    let set = match find_closure(repo, requirements) {
        Ok(s) => s,
        Err(e) => return Err(e),
    };
    let closure = closure_ids(repo, &set);
    proof {
        assert forall|x: PackageId| closure@.to_set().contains(x) == set_u32_elems(set).contains(x) by {
            assert(closure@.to_set().contains(x) == closure@.contains(x));
        }
        assert(closure@.to_set() =~= set_u32_elems(set));
        assert forall|j: int| 0 <= j < closure@.len() implies repo.has(#[trigger] closure@[j]) by {
            assert(closure@.contains(closure@[j]));
        }
    }
    let assertions = add_all_constraints(b, repo, &closure, requirements);
    Ok(Problem { closure, assertions })
}

/// The plan that a model gives: each package of `pids` with its value.
pub fn plan_from_model(pids: &Vec<PackageId>, values: &Vec<Option<u64>>) -> (r: Plan)
    requires
        values@.len() == pids@.len(),
        forall|i: int| 0 <= i < values@.len() ==> (#[trigger] values@[i]) is Some,
    ensures
        r@.len() == pids@.len(),
        forall|i: int| 0 <= i < r@.len() ==> (#[trigger] r@[i]) == (pids@[i], values@[i]->0),
{
    let mut plan: Plan = Vec::new();
    let mut i: usize = 0;
    while i < pids.len()
        invariant
            i <= pids@.len(),
            values@.len() == pids@.len(),
            forall|k: int| 0 <= k < values@.len() ==> (#[trigger] values@[k]) is Some,
            plan@.len() == i,
            forall|k: int| 0 <= k < i ==> (#[trigger] plan@[k]) == (pids@[k], values@[k]->0),
        decreases pids@.len() - i,
    {
        let v = match values[i] {
            Some(v) => v,
            None => 0,
        };
        plan.push((pids[i], v));
        i += 1;
    }
    plan
}

/// Reads the engine's answer: a plan from a model, the decoded core of an
/// unsatisfiable problem, or the engine's reason for giving up.
pub fn interpret_outcome(
    repo: &Repository,
    requirements: &RequirementSet,
    problem: &Problem,
    outcome: CheckOutcome,
) -> (r: Res)
    requires
        repo.wf(),
        requirements@.wf(),
        problem_of(*repo, *requirements, *problem),
        outcome_wf(problem, &outcome),
    ensures
        outcome matches CheckOutcome::Sat { values } ==> r matches Ok(ResolutionResult::Sat { plans }) && plans@.len() == 1
            && plans@[0]@.len() == problem.closure@.len()
            && forall|i: int| 0 <= i < problem.closure@.len() ==> (#[trigger] plans@[0]@[i]) == (problem.closure@[i], values@[i]->0),
        outcome matches CheckOutcome::Unsat { core } ==> r matches Ok(ResolutionResult::UnsatWithCore { core: c }) && {
            let mirrors = core@.map_values(|k: usize| problem.assertions@[k as int].1);
            &&& c@.toplevel_reqs.dependencies == core_top(mirrors, false)
            &&& c@.toplevel_reqs.conflicts == core_top(mirrors, true)
            &&& c@.package_reqs == core_pkg(mirrors)
        },
        outcome matches CheckOutcome::Unknown { reason } ==> (r matches Err(e) && e == (ResolutionError::ResolutionFailure { reason })),
{
    proof {
        assert forall|i: int| 0 <= i < problem.assertions@.len() implies assertion_wf(*repo, #[trigger] problem.assertions@[i].1) by {
            crate::decode::lemma_round_trip(*repo, problem.closure@, requirements@, problem.assertions@, i, |p: PackageId| 0int);
        }
    }
    match outcome {
        CheckOutcome::Unsat { core } => {
            let ghost mirrors = core@.map_values(|k: usize| problem.assertions@[k as int].1);
            let mut core_assertions: Vec<Expr> = Vec::new();
            let mut i: usize = 0;
            while i < core.len()
                invariant
                    i <= core@.len(),
                    forall|k: int| 0 <= k < problem.assertions@.len() ==> assertion_wf(*repo, #[trigger] problem.assertions@[k].1),
                    forall|k: int| 0 <= k < core@.len() ==> #[trigger] core@[k] < problem.assertions@.len(),
                    mirrors == core@.map_values(|k: usize| problem.assertions@[k as int].1),
                    core_assertions@ == mirrors.subrange(0, i as int),
                decreases core@.len() - i,
            {
                let k = core[i];
                core_assertions.push(problem.assertions[k].1);
                assert(core_assertions@ =~= mirrors.subrange(0, i + 1));
                i += 1;
            }
            assert(core_assertions@ =~= mirrors);
            let c = process_unsat_core(repo, &core_assertions);
            Ok(ResolutionResult::UnsatWithCore { core: c })
        },
        CheckOutcome::Unknown { reason } => Err(ResolutionError::ResolutionFailure { reason }),
        CheckOutcome::Sat { values } => {
            let plan = plan_from_model(&problem.closure, &values);
            Ok(ResolutionResult::Sat { plans: Vec1::new(plan) })
        },
    }
}

} // verus!

verus! {

/// Each package of `closure` with its newest version.
pub open spec fn newest_pairs(repo: Repository, closure: Seq<PackageId>) -> Seq<(PackageId, Version)> {
    closure.map_values(|p: PackageId| (p, repo.newest(p) as u64))
}

/// The metrics to minimize, in order, for an objective over the packages of
/// `closure`; the engine's optimizer minimizes them lexicographically.
pub fn objective_metrics(repo: &Repository, closure: &Vec<PackageId>, objective: Objective) -> (r: Vec<crate::smt::IntTerm>)
    requires
        forall|j: int| 0 <= j < closure@.len() ==> repo.has(#[trigger] closure@[j]),
    ensures
        r@.len() == 2,
        objective == Objective::Newest ==> forall|a: crate::types::Assignment|
            #[trigger] r@[0].value(a) == crate::metrics::distance_sum(newest_pairs(*repo, closure@), a),
        objective == Objective::Newest ==> forall|a: crate::types::Assignment|
            #[trigger] r@[1].value(a) == crate::metrics::installed_sum(closure@, a),
        objective == Objective::Minimal ==> forall|a: crate::types::Assignment|
            #[trigger] r@[0].value(a) == crate::metrics::installed_sum(closure@, a),
        objective == Objective::Minimal ==> forall|a: crate::types::Assignment|
            #[trigger] r@[1].value(a) == crate::metrics::distance_sum(newest_pairs(*repo, closure@), a),
{
    let mut pairs: Vec<(PackageId, Version)> = Vec::new();
    let mut i: usize = 0;
    while i < closure.len()
        invariant
            i <= closure@.len(),
            forall|j: int| 0 <= j < closure@.len() ==> repo.has(#[trigger] closure@[j]),
            pairs@ == closure@.subrange(0, i as int).map_values(|p: PackageId| (p, repo.newest(p) as u64)),
        decreases closure@.len() - i,
    {
        let pid = closure[i];
        pairs.push((pid, repo.newest_ver_of_unchecked(pid)));
        assert(pairs@ =~= closure@.subrange(0, i + 1).map_values(|p: PackageId| (p, repo.newest(p) as u64)));
        i += 1;
    }
    assert(closure@.subrange(0, i as int) =~= closure@);
    assert(pairs@ == newest_pairs(*repo, closure@));
    let distance = crate::metrics::distance_from_newest(&pairs);
    let installed = crate::metrics::installed_packages(closure);
    let mut r = Vec::new();
    match objective {
        Objective::Newest => {
            r.push(distance);
            r.push(installed);
        },
        Objective::Minimal => {
            r.push(installed);
            r.push(distance);
        },
    }
    r
}

/// The summed distance of a plan's installed packages from their newest versions.
pub open spec fn plan_distance(repo: Repository, plan: Seq<(PackageId, Version)>) -> int
    decreases plan.len(),
{
    if plan.len() == 0 {
        0
    } else {
        let (p, v) = plan.last();
        plan_distance(repo, plan.drop_last()) + if v == 0 { 0 } else { repo.newest(p) - v }
    }
}

/// The number of packages that a plan installs.
pub open spec fn plan_installed(plan: Seq<(PackageId, Version)>) -> int
    decreases plan.len(),
{
    if plan.len() == 0 {
        0
    } else {
        plan_installed(plan.drop_last()) + if plan.last().1 > 0 { 1int } else { 0int }
    }
}

pub open spec fn plan_score_spec(repo: Repository, plan: Seq<(PackageId, Version)>, objective: Objective) -> (int, int) {
    match objective {
        Objective::Newest => (plan_distance(repo, plan), plan_installed(plan)),
        Objective::Minimal => (plan_installed(plan), plan_distance(repo, plan)),
    }
}

/// Every package of the plan is in the repository, at 0 or one of its versions.
pub open spec fn plan_in_bounds(repo: Repository, plan: Seq<(PackageId, Version)>) -> bool {
    forall|i: int| 0 <= i < plan.len() ==> repo.has((#[trigger] plan[i]).0) && plan[i].1 <= repo.newest(plan[i].0)
}

/// The metrics of a plan under an objective, in the order they are minimized.
pub fn plan_score(repo: &Repository, plan: &Plan, objective: Objective) -> (r: crate::metrics::Score)
    requires
        plan@.len() <= u32::MAX,
        plan_in_bounds(*repo, plan@),
    ensures
        (r.0 as int, r.1 as int) == plan_score_spec(*repo, plan@, objective),
{
    let mut distance: u128 = 0;
    let mut installed: u128 = 0;
    let mut i: usize = 0;
    while i < plan.len()
        invariant
            i <= plan@.len(),
            plan@.len() <= u32::MAX,
            plan_in_bounds(*repo, plan@),
            distance == plan_distance(*repo, plan@.subrange(0, i as int)),
            installed == plan_installed(plan@.subrange(0, i as int)),
            distance <= i * 0x1_0000_0000_0000_0000,
            installed <= i,
        decreases plan@.len() - i,
    {
        let (pid, v) = plan[i];
        let ghost s1 = plan@.subrange(0, i + 1);
        proof {
            assert(s1.drop_last() =~= plan@.subrange(0, i as int));
            assert(s1.last() == (pid, v));
            assert(repo.has(pid) && v <= repo.newest(pid));
        }
        if v != 0 {
            let n = repo.newest_ver_of_unchecked(pid);
            distance = distance + (n - v) as u128;
            installed = installed + 1;
        }
        i += 1;
    }
    assert(plan@.subrange(0, i as int) =~= plan@);
    match objective {
        Objective::Newest => (distance, installed),
        Objective::Minimal => (installed, distance),
    }
}

} // verus!

verus! {

/// The plan of a model: each package of `closure` with its value.
pub open spec fn plan_seq(closure: Seq<PackageId>, values: Seq<Option<u64>>) -> Seq<(PackageId, Version)> {
    Seq::new(closure.len(), |i: int| (closure[i], values[i]->0))
}

pub open spec fn model_key(repo: Repository, closure: Seq<PackageId>, values: Seq<Option<u64>>, objective: Objective) -> crate::metrics::Score {
    let s = plan_score_spec(repo, plan_seq(closure, values), objective);
    crate::metrics::reversed((s.0 as u128, s.1 as u128))
}

/// The numbers of the models whose scores are the least, in order.
pub open spec fn optimal_models(repo: Repository, closure: Seq<PackageId>, models: Seq<Vec<Option<u64>>>, objective: Objective) -> Seq<usize> {
    let keys = models.map_values(|m: Vec<Option<u64>>| model_key(repo, closure, m@, objective));
    crate::metrics::kept(Seq::new(models.len(), |i: int| i as usize), keys, crate::metrics::key_max(keys))
}

/// A model fits the problem: it values every package of the closure with 0
/// or one of its versions.
pub open spec fn model_fits(repo: Repository, closure: Seq<PackageId>, values: Seq<Option<u64>>) -> bool {
    &&& values.len() == closure.len()
    &&& forall|i: int| 0 <= i < values.len() ==> (#[trigger] values[i]) is Some
        && values[i]->0 <= repo.newest(closure[i])
}

/// Reads the models that an enumeration recorded: the plans of those whose
/// metrics are the least under the objective, in the order they came.
pub fn select_plans(repo: &Repository, closure: &Vec<PackageId>, models: &Vec<Vec<Option<u64>>>, objective: Objective) -> (r: Res)
    requires
        models@.len() > 0,
        closure@.len() <= u32::MAX,
        forall|j: int| 0 <= j < closure@.len() ==> repo.has(#[trigger] closure@[j]),
        forall|k: int| 0 <= k < models@.len() ==> model_fits(*repo, closure@, (#[trigger] models@[k])@),
    ensures
        r matches Ok(ResolutionResult::Sat { plans }) && {
            let idx = optimal_models(*repo, closure@, models@, objective);
            &&& plans@.len() == idx.len()
            &&& forall|j: int| 0 <= j < idx.len() ==> (#[trigger] plans@[j])@ == plan_seq(closure@, models@[idx[j] as int]@)
        },
{
    let ghost keys = models@.map_values(|m: Vec<Option<u64>>| model_key(*repo, closure@, m@, objective));
    let mut idx: Vec<usize> = Vec::new();
    let mut scores: Vec<crate::metrics::Score> = Vec::new();
    let mut k: usize = 0;
    while k < models.len()
        invariant
            k <= models@.len(),
            closure@.len() <= u32::MAX,
            forall|j: int| 0 <= j < closure@.len() ==> repo.has(#[trigger] closure@[j]),
            forall|x: int| 0 <= x < models@.len() ==> model_fits(*repo, closure@, (#[trigger] models@[x])@),
            idx@ == Seq::new(k as nat, |i: int| i as usize),
            scores@.len() == k,
            forall|x: int| 0 <= x < k ==> crate::metrics::reversed(#[trigger] scores@[x]) == keys[x],
            keys == models@.map_values(|m: Vec<Option<u64>>| model_key(*repo, closure@, m@, objective)),
        decreases models@.len() - k,
    {
        let plan = plan_from_model(closure, &models[k]);
        proof {
            assert(plan@ =~= plan_seq(closure@, models@[k as int]@));
        }
        let score = plan_score(repo, &plan, objective);
        idx.push(k);
        scores.push(score);
        proof {
            assert(idx@ =~= Seq::new((k + 1) as nat, |i: int| i as usize));
        }
        k += 1;
    }
    let selected = crate::metrics::select_optimal(idx, &scores);
    proof {
        let rk = scores@.map_values(|s: crate::metrics::Score| crate::metrics::reversed(s));
        assert forall|x: int| 0 <= x < scores@.len() implies rk[x] == keys[x] by {
            assert(crate::metrics::reversed(scores@[x]) == keys[x]);
        }
        assert(rk =~= keys);
        let items = Seq::new(models@.len(), |i: int| i as usize);
        crate::metrics::lemma_kept_from(items, keys, crate::metrics::key_max(keys));
        assert forall|x: int| 0 <= x < selected@.len() implies (#[trigger] selected@[x]) < models@.len() by {
            assert(items.contains(selected@[x]));
            let y = choose|y: int| 0 <= y < items.len() && items[y] == selected@[x];
        }
    }
    let mut plans: Vec<Plan> = Vec::new();
    let mut j: usize = 0;
    while j < selected.len()
        invariant
            j <= selected@.len(),
            selected@ == optimal_models(*repo, closure@, models@, objective),
            forall|x: int| 0 <= x < selected@.len() ==> (#[trigger] selected@[x]) < models@.len(),
            forall|x: int| 0 <= x < models@.len() ==> model_fits(*repo, closure@, (#[trigger] models@[x])@),
            plans@.len() == j,
            forall|x: int| 0 <= x < j ==> (#[trigger] plans@[x])@ == plan_seq(closure@, models@[selected@[x] as int]@),
        decreases selected@.len() - j,
    {
        let m = selected[j];
        let plan = plan_from_model(closure, &models[m]);
        proof {
            assert(plan@ =~= plan_seq(closure@, models@[m as int]@));
        }
        plans.push(plan);
        j += 1;
    }
    proof {
        crate::metrics::lemma_kept_max_nonempty(Seq::new(models@.len(), |i: int| i as usize), keys);
    }
    // the least score is attained, so at least one plan is kept
    match Vec1::try_from_vec(plans) {
        Ok(v) => Ok(ResolutionResult::Sat { plans: v }),
        Err(_) => Ok(ResolutionResult::Unsat),
    }
}

} // verus!

verus! {

/// Splits the packages of `closure` into those that the model installs and
/// the others, each in order.
pub fn installation_status(closure: &Vec<PackageId>, values: &Vec<Option<u64>>) -> (r: (Vec<PackageId>, Vec<PackageId>))
    requires
        values@.len() == closure@.len(),
    ensures
        r.0@.len() + r.1@.len() == closure@.len(),
        r.0@ == installed_list(closure@, values@, true),
        r.1@ == installed_list(closure@, values@, false),
{
    let mut installed: Vec<PackageId> = Vec::new();
    let mut not_installed: Vec<PackageId> = Vec::new();
    let mut i: usize = 0;
    while i < closure.len()
        invariant
            i <= closure@.len(),
            values@.len() == closure@.len(),
            installed@ == installed_list(closure@.subrange(0, i as int), values@.subrange(0, i as int), true),
            not_installed@ == installed_list(closure@.subrange(0, i as int), values@.subrange(0, i as int), false),
            installed@.len() + not_installed@.len() == i,
        decreases closure@.len() - i,
    {
        let pid = closure[i];
        let ghost c1 = closure@.subrange(0, i + 1);
        let ghost v1 = values@.subrange(0, i + 1);
        proof {
            assert(c1.drop_last() =~= closure@.subrange(0, i as int));
            assert(v1.drop_last() =~= values@.subrange(0, i as int));
            assert(installed_at(v1, i as int) == installed_at(values@, i as int));
        }
        let inst = match values[i] {
            Some(v) => v != 0,
            None => false,
        };
        if inst {
            installed.push(pid);
        } else {
            not_installed.push(pid);
        }
        i += 1;
    }
    proof {
        assert(closure@.subrange(0, i as int) =~= closure@);
        assert(values@.subrange(0, i as int) =~= values@);
    }
    (installed, not_installed)
}

/// The model gives the package at position `i` an installed version.
pub open spec fn installed_at(values: Seq<Option<u64>>, i: int) -> bool {
    values[i] matches Some(v) && v != 0
}

/// The packages of `closure` that the model installs (or, with `installed`
/// false, the others), in order.
pub open spec fn installed_list(closure: Seq<PackageId>, values: Seq<Option<u64>>, installed: bool) -> Seq<PackageId>
    decreases closure.len(),
{
    if closure.len() == 0 || values.len() == 0 {
        Seq::empty()
    } else {
        let prev = installed_list(closure.drop_last(), values.drop_last(), installed);
        if installed_at(values, values.len() - 1) == installed {
            prev.push(closure.last())
        } else {
            prev
        }
    }
}

/// One constraint per package of `not_installed`: it stays uninstalled.
pub fn fix_installed_pkgs(not_installed: &Vec<PackageId>) -> (r: Vec<Formula>)
    ensures
        r@.len() == not_installed@.len(),
        forall|k: int, a: crate::types::Assignment|
            0 <= k < r@.len() ==> #[trigger] r@[k].holds(a) == (a(not_installed@[k]) == 0),
{
    let mut out: Vec<Formula> = Vec::new();
    let mut i: usize = 0;
    while i < not_installed.len()
        invariant
            i <= not_installed@.len(),
            out@.len() == i,
            forall|k: int, a: crate::types::Assignment|
                0 <= k < i ==> #[trigger] out@[k].holds(a) == (a(not_installed@[k]) == 0),
        decreases not_installed@.len() - i,
    {
        out.push(var_eq(not_installed[i], 0));
        i += 1;
    }
    out
}

/// The constraints that rule out every plan that installs each package of
/// `installed` at or below its version in `plan`, while allowing higher
/// versions: each package stays at or above its version, and not all of them
/// stay exactly there.
pub fn block_le_solutions(plan: &Plan, installed: &Vec<usize>) -> (r: Vec<Formula>)
    requires
        forall|k: int| 0 <= k < installed@.len() ==> #[trigger] installed@[k] < plan@.len(),
    ensures
        r@.len() == installed@.len() + 1,
        forall|k: int, a: crate::types::Assignment|
            0 <= k < installed@.len() ==> #[trigger] r@[k].holds(a) == (a(plan@[installed@[k] as int].0) >= plan@[installed@[k] as int].1),
        forall|a: crate::types::Assignment| #[trigger] r@[installed@.len() as int].holds(a) == !(forall|k: int|
            0 <= k < installed@.len() ==> a(#[trigger] plan@[installed@[k] as int].0) == plan@[installed@[k] as int].1),
{
    let mut out: Vec<Formula> = Vec::new();
    let mut all_fixed = Formula::Lit(true);
    let mut i: usize = 0;
    while i < installed.len()
        invariant
            i <= installed@.len(),
            forall|k: int| 0 <= k < installed@.len() ==> #[trigger] installed@[k] < plan@.len(),
            out@.len() == i,
            forall|k: int, a: crate::types::Assignment|
                0 <= k < i ==> #[trigger] out@[k].holds(a) == (a(plan@[installed@[k] as int].0) >= plan@[installed@[k] as int].1),
            forall|a: crate::types::Assignment| #[trigger] all_fixed.holds(a) == (forall|k: int|
                0 <= k < i ==> a(#[trigger] plan@[installed@[k] as int].0) == plan@[installed@[k] as int].1),
        decreases installed@.len() - i,
    {
        let (pid, v) = plan[installed[i]];
        let ghost prev = all_fixed;
        let eq = var_eq(pid, v);
        all_fixed = Formula::And(Box::new(all_fixed), Box::new(eq));
        proof {
            assert forall|a: crate::types::Assignment| #[trigger] all_fixed.holds(a) == (forall|k: int|
                0 <= k < i + 1 ==> a(#[trigger] plan@[installed@[k] as int].0) == plan@[installed@[k] as int].1) by {
                assert(eq.holds(a) == (a(pid) == v));
                assert(prev.holds(a) == (forall|k: int|
                    0 <= k < i ==> a(#[trigger] plan@[installed@[k] as int].0) == plan@[installed@[k] as int].1));
            }
        }
        out.push(var_ge(pid, v));
        i += 1;
    }
    let ghost fixed = all_fixed;
    out.push(Formula::Not(Box::new(all_fixed)));
    proof {
        assert(out@[installed@.len() as int] == Formula::Not(Box::new(fixed)));
        assert forall|a: crate::types::Assignment| #[trigger] out@[installed@.len() as int].holds(a) == !(forall|k: int|
            0 <= k < installed@.len() ==> a(#[trigger] plan@[installed@[k] as int].0) == plan@[installed@[k] as int].1) by {
            assert(fixed.holds(a) == (forall|k: int|
                0 <= k < i ==> a(#[trigger] plan@[installed@[k] as int].0) == plan@[installed@[k] as int].1));
        }
    }
    out
}

} // verus!
