// Enumeration of every model of the assertions, as a state machine that the
// caller drives against the SMT engine: each answer to a check yields the
// next commands. Each variable in turn is fixed to its value in a model, the
// remaining variables are enumerated beneath it, and the value is blocked.
use vstd::prelude::*;

use crate::types::PackageId;

verus! {

/// A command for the engine.
#[derive(Clone, Copy, Debug, PartialEq, Eq, Structural)]
pub enum EnumAction {
    /// Open a scope of assertions.
    Push,
    /// Close the innermost scope, dropping its assertions.
    Pop,
    /// Assert that the variable of the package has the value.
    Fix { var: PackageId, value: u64 },
    /// Assert that the variable of the package does not have the value.
    Block { var: PackageId, value: u64 },
    /// Check the assertions and answer with `step`.
    Check,
    /// The last check found a model of every variable: keep it.
    Record,
    /// The enumeration is over; every scope it opened is closed.
    Done,
}

/// The answer to a check: satisfiable, with the value that the model gives the
/// variable of the current level (any value at the last level), or not.
#[derive(Clone, Copy, Debug, PartialEq, Eq, Structural)]
pub enum CheckAnswer {
    Sat { value: u64 },
    NotSat,
}

pub struct ModelEnumeration {
    vars: Vec<PackageId>,
    /// The value fixed for each variable above the current level.
    values: Vec<u64>,
    done: bool,
}

/// The depth of open scopes after `actions`, from `open`; `None` if a `Pop`
/// would close a scope that is not open.
pub open spec fn scopes_after(open: int, actions: Seq<EnumAction>) -> Option<int>
    decreases actions.len(),
{
    if actions.len() == 0 {
        Some(open)
    } else {
        match scopes_after(open, actions.drop_last()) {
            None => None,
            Some(d) => match actions.last() {
                EnumAction::Push => Some(d + 1),
                EnumAction::Pop => if d > 0 { Some(d - 1) } else { None },
                _ => Some(d),
            },
        }
    }
}

proof fn lemma_scopes_push(open: int, a: Seq<EnumAction>, x: EnumAction)
    ensures
        scopes_after(open, a.push(x)) == match scopes_after(open, a) {
            None => None,
            Some(d) => match x {
                EnumAction::Push => Some(d + 1),
                EnumAction::Pop => if d > 0 { Some(d - 1) } else { None },
                _ => Some(d),
            },
        },
{
    assert(a.push(x).drop_last() =~= a);
}

proof fn lemma_scopes_empty(open: int)
    ensures
        scopes_after(open, Seq::<EnumAction>::empty()) == Some(open),
{
}

/// The commands that leave level `values.len()` for its parent: close the
/// scope of the parent's fixed value, block that value and check again; at
/// the top, finish.
pub open spec fn ascend_actions(vars: Seq<PackageId>, values: Seq<u64>) -> Seq<EnumAction> {
    if values.len() == 0 {
        seq![EnumAction::Done]
    } else {
        seq![
            EnumAction::Pop,
            EnumAction::Block { var: vars[values.len() - 1], value: values.last() },
            EnumAction::Check,
        ]
    }
}

/// The commands that answer `answer` at level `values.len()`: below the last
/// variable, a model fixes the variable's value and descends, and no model
/// ends the loop over its values; at the last level a model is recorded.
pub open spec fn step_actions(vars: Seq<PackageId>, values: Seq<u64>, answer: CheckAnswer) -> Seq<EnumAction> {
    let level = values.len();
    if level < vars.len() {
        match answer {
            CheckAnswer::Sat { value } => seq![EnumAction::Push, EnumAction::Fix { var: vars[level as int], value }]
                + (if level + 1 < vars.len() { seq![EnumAction::Push] } else { Seq::empty() })
                + seq![EnumAction::Check],
            CheckAnswer::NotSat => seq![EnumAction::Pop] + ascend_actions(vars, values),
        }
    } else {
        (if answer is Sat { seq![EnumAction::Record] } else { Seq::empty() }) + ascend_actions(vars, values)
    }
}

/// The fixed values after leaving level `values.len()` for its parent.
pub open spec fn ascend_values(values: Seq<u64>) -> Seq<u64> {
    if values.len() == 0 { values } else { values.drop_last() }
}

/// The fixed values after answering `answer` at level `values.len()`.
pub open spec fn step_values(vars: Seq<PackageId>, values: Seq<u64>, answer: CheckAnswer) -> Seq<u64> {
    match answer {
        CheckAnswer::Sat { value } => if values.len() < vars.len() {
            values.push(value)
        } else {
            ascend_values(values)
        },
        CheckAnswer::NotSat => ascend_values(values),
    }
}

/// Whether the enumeration ends on answering `answer`: only when the loop
/// over the first variable's values, or the single check with no variables,
/// is over.
pub open spec fn step_finishes(vars: Seq<PackageId>, values: Seq<u64>, answer: CheckAnswer) -> bool {
    values.len() == 0 && (answer is NotSat || vars.len() == 0)
}

impl ModelEnumeration {
    pub closed spec fn vars_view(self) -> Seq<PackageId> {
        self.vars@
    }

    /// The value fixed for each variable above the current level.
    pub closed spec fn values_view(self) -> Seq<u64> {
        self.values@
    }

    /// The level whose check is awaited: the number of fixed variables.
    pub open spec fn level(self) -> int {
        self.values_view().len() as int
    }

    pub closed spec fn is_done(self) -> bool {
        self.done
    }

    pub open spec fn wf(self) -> bool {
        self.values_view().len() <= self.vars_view().len()
    }

    /// The scopes that the enumeration holds open: two for each fixed
    /// variable and one for the loop over the current variable's values.
    pub open spec fn open_scopes(self) -> int {
        if self.is_done() {
            0
        } else if self.level() < self.vars_view().len() {
            2 * self.level() + 1
        } else {
            2 * self.level()
        }
    }

    /// Begins enumerating over `vars`, in order.
    pub fn start(vars: Vec<PackageId>) -> (r: (ModelEnumeration, Vec<EnumAction>))
        ensures
            r.0.wf(),
            !r.0.is_done(),
            r.0.level() == 0,
            r.0.vars_view() == vars@,
            r.0.values_view() == Seq::<u64>::empty(),
            r.1@ == if vars@.len() > 0 {
                seq![EnumAction::Push, EnumAction::Check]
            } else {
                seq![EnumAction::Check]
            },
            scopes_after(0, r.1@) == Some(r.0.open_scopes()),
            r.1@.last() == EnumAction::Check,
            r.1@.len() > 0,
    {
        let mut actions = Vec::new();
        if vars.len() > 0 {
            actions.push(EnumAction::Push);
        }
        actions.push(EnumAction::Check);
        let e = ModelEnumeration { vars, values: Vec::new(), done: false };
        proof {
            lemma_scopes_empty(0);
            if e.vars@.len() > 0 {
                lemma_scopes_push(0, Seq::<EnumAction>::empty(), EnumAction::Push);
                assert(seq![EnumAction::Push] =~= Seq::<EnumAction>::empty().push(EnumAction::Push));
                lemma_scopes_push(0, seq![EnumAction::Push], EnumAction::Check);
                assert(actions@ =~= seq![EnumAction::Push].push(EnumAction::Check));
            } else {
                lemma_scopes_push(0, Seq::<EnumAction>::empty(), EnumAction::Check);
                assert(actions@ =~= Seq::<EnumAction>::empty().push(EnumAction::Check));
            }
            assert(e.values@ =~= Seq::<u64>::empty());
        }
        (e, actions)
    }

    /// The package whose value the next answer reports, if any: the variable
    /// of the current level.
    pub fn current_var(&self) -> (r: Option<PackageId>)
        requires
            self.wf(),
        ensures
            self.level() < self.vars_view().len() ==> r == Some(self.vars_view()[self.level()]),
            self.level() >= self.vars_view().len() ==> r is None,
    {
        let level = self.values.len();
        if level < self.vars.len() {
            Some(self.vars[level])
        } else {
            None
        }
    }

    /// Leaves the current level for its parent: closes the scope of the
    /// parent's fixed value, blocks that value and checks again; at the top
    /// the enumeration is done.
    fn ascend(&mut self, Ghost(open): Ghost<int>, actions: &mut Vec<EnumAction>)
        requires
            old(self).wf(),
            !old(self).is_done(),
            scopes_after(open, old(actions)@) == Some(2 * old(self).level()),
        ensures
            final(self).wf(),
            final(self).vars_view() == old(self).vars_view(),
            final(self).values_view() == ascend_values(old(self).values_view()),
            final(actions)@ == old(actions)@ + ascend_actions(old(self).vars_view(), old(self).values_view()),
            old(self).level() == 0 ==> final(self).is_done(),
            old(self).level() > 0 ==> !final(self).is_done() && final(self).level() == old(self).level() - 1,
            final(self).is_done() <==> final(actions)@.last() == EnumAction::Done,
            !final(self).is_done() ==> final(actions)@.last() == EnumAction::Check,
            final(actions)@.len() > 0,
            scopes_after(open, final(actions)@) == Some(final(self).open_scopes()),
    {
        let ghost a0 = actions@;
        match self.values.pop() {
            None => {
                self.done = true;
                actions.push(EnumAction::Done);
                proof {
                    lemma_scopes_push(open, a0, EnumAction::Done);
                    assert(actions@ =~= a0 + seq![EnumAction::Done]);
                }
            },
            Some(value) => {
                let ghost v0 = old(self).values@;
                assert(v0.last() == value);
                let var = self.vars[self.values.len()];
                actions.push(EnumAction::Pop);
                let ghost a1 = actions@;
                actions.push(EnumAction::Block { var, value });
                let ghost a2 = actions@;
                actions.push(EnumAction::Check);
                proof {
                    lemma_scopes_push(open, a0, EnumAction::Pop);
                    lemma_scopes_push(open, a1, EnumAction::Block { var, value });
                    lemma_scopes_push(open, a2, EnumAction::Check);
                    assert(actions@ =~= a0 + ascend_actions(old(self).vars_view(), old(self).values_view()));
                    assert(self.values@ =~= v0.drop_last());
                }
            },
        }
    }

    /// The next commands, given the answer to the last check.
    pub fn step(&mut self, answer: CheckAnswer) -> (r: Vec<EnumAction>)
        requires
            old(self).wf(),
            !old(self).is_done(),
        ensures
            final(self).wf(),
            final(self).vars_view() == old(self).vars_view(),
            scopes_after(old(self).open_scopes(), r@) == Some(final(self).open_scopes()),
            r@.len() > 0,
            final(self).is_done() <==> r@.last() == EnumAction::Done,
            !final(self).is_done() ==> r@.last() == EnumAction::Check,
            r@ == step_actions(old(self).vars_view(), old(self).values_view(), answer),
            final(self).values_view() == step_values(old(self).vars_view(), old(self).values_view(), answer),
            final(self).is_done() == step_finishes(old(self).vars_view(), old(self).values_view(), answer),
    {
        let mut actions: Vec<EnumAction> = Vec::new();
        let ghost open = self.open_scopes();
        let level = self.values.len();
        if level < self.vars.len() {
            match answer {
                CheckAnswer::Sat { value } => {
                    let var = self.vars[level];
                    actions.push(EnumAction::Push);
                    let ghost a1 = actions@;
                    actions.push(EnumAction::Fix { var, value });
                    let ghost a2 = actions@;
                    self.values.push(value);
                    if level + 1 < self.vars.len() {
                        actions.push(EnumAction::Push);
                    }
                    let ghost a3 = actions@;
                    actions.push(EnumAction::Check);
                    proof {
                        lemma_scopes_empty(open);
                        assert(a1 =~= Seq::<EnumAction>::empty().push(EnumAction::Push));
                        lemma_scopes_push(open, Seq::<EnumAction>::empty(), EnumAction::Push);
                        lemma_scopes_push(open, a1, EnumAction::Fix { var, value });
                        if level + 1 < self.vars@.len() {
                            lemma_scopes_push(open, a2, EnumAction::Push);
                        }
                        lemma_scopes_push(open, a3, EnumAction::Check);
                        assert(actions@ =~= step_actions(old(self).vars@, old(self).values@, answer));
                    }
                },
                CheckAnswer::NotSat => {
                    actions.push(EnumAction::Pop);
                    proof {
                        lemma_scopes_empty(open);
                        assert(actions@ =~= Seq::<EnumAction>::empty().push(EnumAction::Pop));
                        lemma_scopes_push(open, Seq::<EnumAction>::empty(), EnumAction::Pop);
                    }
                    self.ascend(Ghost(open), &mut actions);
                    assert(actions@ =~= step_actions(old(self).vars@, old(self).values@, answer));
                },
            }
        } else {
            match answer {
                CheckAnswer::Sat { .. } => {
                    actions.push(EnumAction::Record);
                    proof {
                        lemma_scopes_empty(open);
                        assert(actions@ =~= Seq::<EnumAction>::empty().push(EnumAction::Record));
                        lemma_scopes_push(open, Seq::<EnumAction>::empty(), EnumAction::Record);
                    }
                },
                CheckAnswer::NotSat => {
                    proof {
                        lemma_scopes_empty(open);
                    }
                },
            }
            self.ascend(Ghost(open), &mut actions);
            assert(actions@ =~= step_actions(old(self).vars@, old(self).values@, answer));
        }
        actions
    }
}

} // verus!
