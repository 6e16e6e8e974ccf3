//! The search without rules: no physical expression comes into the memo
//! but enforcers, which have nothing to sort, and so there is no plan.

use vstd::prelude::*;
use crate::fault::OptimizerError;
use crate::memo::{
    keeps_more_stats, lemma_interned_group, lemma_keeps_more_transitive, winner_keys, ExprNode, GroupView,
    MemoView,
};
use crate::metadata::MdAccessor;
use crate::operator::required_spec;
use crate::optimizer::optimize_spec;
use crate::plan::PlanView;
use crate::property::SortKey;
use crate::rules::Rule;
use crate::task::{
    admits_enforcer, alternative_tasks, child_tasks, input_tasks, inputs_closed, rule_tasks, run_spec,
    task_spec, with_enforcer, TaskView, MAX_TASKS,
};

verus! {

/// Whether `e` is an enforcer of group `g`: a sort over the group itself.
pub open spec fn own_enforcer(g: int, e: ExprNode) -> bool {
    &&& e.enforcer
    &&& e.op is Physical
    &&& e.op->Physical_0 is Sort
    &&& e.children.len() == 1
    &&& e.children[0] == g
}

/// Whether group `g` is bare: its best-plan table is empty, its physical
/// expressions are enforcers of the group, and the inputs of its logical
/// expressions are groups of the memo.
pub open spec fn bare_group(m: MemoView, g: int) -> bool {
    &&& m.groups[g].winners.len() == 0
    &&& forall|i: int| 0 <= i < m.groups[g].physical.len() ==> own_enforcer(g, #[trigger] m.groups[g].physical[i])
    &&& forall|i: int| 0 <= i < m.groups[g].logical.len() ==> m.has_groups((#[trigger] m.groups[g].logical[i]).children)
}

/// Whether every group of a memo is bare.
pub open spec fn bare(m: MemoView) -> bool {
    forall|g: int| 0 <= g < m.groups.len() ==> #[trigger] bare_group(m, g)
}

/// Whether a task of a search without rules names what a bare memo holds.
pub open spec fn task_fits(m: MemoView, t: TaskView) -> bool {
    match t {
        TaskView::OptimizeGroup { group, required } => m.has_group(group as int),
        TaskView::OptimizeExpression { group, expr, required } => m.has_group(group as int) && expr
            < m.groups[group as int].logical.len(),
        TaskView::ApplyRule { group, expr, rule, required } => false,
        TaskView::EnforceAndCost { group, required, costed } => m.has_group(group as int),
        TaskView::OptimizeInputs { group, expr, required, inputs } => m.has_group(group as int) && expr
            < m.groups[group as int].physical.len() && inputs.len() == 1,
    }
}

/// Whether every task of `tasks` fits the memo.
pub open spec fn tasks_fit(m: MemoView, tasks: Seq<TaskView>) -> bool {
    forall|i: int| 0 <= i < tasks.len() ==> task_fits(m, #[trigger] tasks[i])
}

/// Whether memo `b` has the groups of memo `a` with their logical
/// expressions, and at least their physical expressions.
pub open spec fn grown(a: MemoView, b: MemoView) -> bool {
    &&& b.groups.len() == a.groups.len()
    &&& forall|g: int|
        0 <= g < a.groups.len() ==> (#[trigger] b.groups[g]).logical == a.groups[g].logical
            && b.groups[g].physical.len() >= a.groups[g].physical.len()
}

/// Tasks that fit a memo fit a memo grown from it.
pub proof fn lemma_fits_grown(a: MemoView, b: MemoView, tasks: Seq<TaskView>)
    requires
        grown(a, b),
        tasks_fit(a, tasks),
    ensures
        tasks_fit(b, tasks),
{
    assert forall|i: int| 0 <= i < tasks.len() implies task_fits(b, #[trigger] tasks[i]) by {
        assert(task_fits(a, tasks[i]));
    }
}

/// Asking for statistics changes nothing but the statistics that are kept.
pub proof fn lemma_derived_keeps_more(m: MemoView, md: MdAccessor, g: int)
    ensures
        keeps_more_stats(m, m.derived(md, g)),
    decreases m.groups[g].rank, 1nat, 0nat,
{
    if !m.has_group(g) || m.groups[g].stats is Some || m.groups[g].logical.len() == 0 {
    } else {
        lemma_derived_inputs_keeps_more(m, md, g, m.groups[g].logical[0].children.len());
        let (m1, inputs) = m.derived_inputs(md, g, m.groups[g].logical[0].children.len());
        assert(m1.groups[g] == GroupView { stats: m1.groups[g].stats, ..m.groups[g] });
    }
}

/// Asking the inputs for statistics changes nothing but the statistics
/// that are kept.
pub proof fn lemma_derived_inputs_keeps_more(m: MemoView, md: MdAccessor, g: int, n: nat)
    ensures
        keeps_more_stats(m, m.derived_inputs(md, g, n).0),
    decreases m.groups[g].rank, 0nat, n,
{
    let e = m.groups[g].logical[0];
    if n == 0 || n > e.children.len() {
    } else {
        lemma_derived_inputs_keeps_more(m, md, g, (n - 1) as nat);
        let (m1, inputs) = m.derived_inputs(md, g, (n - 1) as nat);
        let c = e.children[n - 1] as int;
        if inputs.len() == n - 1 && m1.has_group(c) && m1.groups[c].rank < m.groups[g].rank {
            lemma_derived_keeps_more(m1, md, c);
            lemma_keeps_more_transitive(m, m1, m1.derived(md, c));
        }
    }
}

/// A bare memo that comes to keep more statistics stays bare.
pub proof fn lemma_bare_keeps_more(a: MemoView, b: MemoView)
    requires
        bare(a),
        keeps_more_stats(a, b),
    ensures
        bare(b),
        grown(a, b),
{
    assert forall|g: int| 0 <= g < b.groups.len() implies #[trigger] bare_group(b, g) by {
        assert(bare_group(a, g));
        assert(b.groups[g] == GroupView { stats: b.groups[g].stats, ..a.groups[g] });
        assert forall|i: int| 0 <= i < b.groups[g].logical.len() implies b.has_groups(
            (#[trigger] b.groups[g].logical[i]).children,
        ) by {
            assert(a.has_groups(a.groups[g].logical[i].children));
        }
    }
    assert forall|g: int| 0 <= g < a.groups.len() implies (#[trigger] b.groups[g]).logical == a.groups[g].logical
        && b.groups[g].physical.len() >= a.groups[g].physical.len() by {
        assert(b.groups[g] == GroupView { stats: b.groups[g].stats, ..a.groups[g] });
    }
}

/// The tasks that cost the enforcers of a bare group fit the memo.
pub proof fn lemma_input_tasks_fit(m: MemoView, g: usize, required: Seq<SortKey>, k: nat)
    requires
        m.has_group(g as int),
        bare_group(m, g as int),
    ensures
        tasks_fit(m, input_tasks(m.groups[g as int].physical, g, required, k)),
    decreases m.groups[g as int].physical.len() - k,
{
    let physical = m.groups[g as int].physical;
    if k < physical.len() {
        lemma_input_tasks_fit(m, g, required, k + 1);
        let rest = input_tasks(physical, g, required, k + 1);
        assert(own_enforcer(g as int, physical[k as int]));
        let alts = required_spec(physical[k as int].op->Physical_0, required);
        assert(alts == seq![seq![Seq::<SortKey>::empty()]]);
        let here = alternative_tasks(g, k as usize, required, alts);
        assert(here.len() == 1);
        assert(alts[0].len() == 1);
        assert(task_fits(m, here[0]));
        let all = input_tasks(physical, g, required, k);
        assert(all == rest + here);
        assert forall|i: int| 0 <= i < all.len() implies task_fits(m, #[trigger] all[i]) by {
            if i < rest.len() {
                assert(all[i] == rest[i]);
            } else {
                assert(all[i] == here[i - rest.len()]);
            }
        }
    }
}

/// In a search without rules, a task that fits a bare memo ends without a
/// fault, leaves the memo bare, and schedules tasks that fit it.
pub proof fn lemma_bare_step(m: MemoView, md: MdAccessor, t: TaskView)
    requires
        bare(m),
        task_fits(m, t),
    ensures
        ({
            let o = task_spec(m, Seq::<Rule>::empty(), md, t);
            &&& o.fault is None
            &&& bare(o.memo)
            &&& grown(m, o.memo)
            &&& tasks_fit(o.memo, o.tasks)
        }),
{
    let rules = Seq::<Rule>::empty();
    let o = task_spec(m, rules, md, t);
    match t {
        TaskView::OptimizeGroup { group, required } => {
            assert(o.memo == m);
        },
        TaskView::OptimizeExpression { group, expr, required } => {
            let e = m.groups[group as int].logical[expr as int];
            assert(bare_group(m, group as int));
            assert(m.has_groups(e.children));
            assert(rule_tasks(m, rules, group, expr, required, e, 0) == Seq::<TaskView>::empty());
            let below = child_tasks(e.children);
            assert(o.tasks =~= below);
            assert forall|i: int| 0 <= i < below.len() implies task_fits(m, #[trigger] below[i]) by {
                assert(m.has_group(e.children[e.children.len() - 1 - i] as int));
            }
        },
        TaskView::ApplyRule { group, expr, rule, required } => {},
        TaskView::EnforceAndCost { group, required, costed } => {
            let g = group as int;
            assert(bare_group(m, g));
            if costed {
                let after = o.memo;
                assert forall|h: int| 0 <= h < after.groups.len() implies #[trigger] bare_group(after, h) by {
                    assert(bare_group(m, h));
                    assert forall|i: int| 0 <= i < after.groups[h].logical.len() implies after.has_groups(
                        (#[trigger] after.groups[h].logical[i]).children,
                    ) by {
                        assert(m.has_groups(m.groups[h].logical[i].children));
                    }
                }
            } else {
                let derived = m.derived(md, g);
                lemma_derived_keeps_more(m, md, g);
                lemma_bare_keeps_more(m, derived);
                assert(bare_group(derived, g));
                if derived.groups[g].stats is None {
                    assert(o.tasks[0] == TaskView::EnforceAndCost { group, required, costed: true });
                } else {
                    let after = o.memo;
                    if admits_enforcer(derived, g, required) {
                        assert(after == with_enforcer(derived, g, required));
                        let e = MemoView::enforcer_of(g, required);
                        assert(own_enforcer(g, e));
                        assert forall|h: int| 0 <= h < after.groups.len() implies #[trigger] bare_group(
                            after,
                            h,
                        ) by {
                            assert(bare_group(derived, h));
                            assert forall|i: int| 0 <= i < after.groups[h].logical.len() implies after.has_groups(
                                (#[trigger] after.groups[h].logical[i]).children,
                            ) by {
                                assert(derived.has_groups(derived.groups[h].logical[i].children));
                            }
                            assert forall|i: int| 0 <= i < after.groups[h].physical.len() implies own_enforcer(
                                h,
                                #[trigger] after.groups[h].physical[i],
                            ) by {
                                if h == g && i >= derived.groups[g].physical.len() {
                                    assert(after.groups[h].physical[i] == e);
                                } else {
                                    assert(after.groups[h].physical[i] == derived.groups[h].physical[i]);
                                }
                            }
                        }
                    } else {
                        assert(after == derived);
                    }
                    assert(bare_group(after, g));
                    lemma_input_tasks_fit(after, group, required, 0);
                    let costing = input_tasks(after.groups[g].physical, group, required, 0);
                    let head = seq![TaskView::EnforceAndCost { group, required, costed: true }];
                    assert(o.tasks == head + costing);
                    assert forall|i: int| 0 <= i < o.tasks.len() implies task_fits(after, #[trigger] o.tasks[i]) by {
                        if i >= 1 {
                            assert(o.tasks[i] == costing[i - 1]);
                        }
                    }
                    assert forall|h: int| 0 <= h < m.groups.len() implies (#[trigger] after.groups[h]).logical
                        == m.groups[h].logical && after.groups[h].physical.len()
                        >= m.groups[h].physical.len() by {
                        assert(derived.groups[h].logical == m.groups[h].logical);
                    }
                }
            }
        },
        TaskView::OptimizeInputs { group, expr, required, inputs } => {
            let g = group as int;
            assert(bare_group(m, g));
            let e = m.groups[g].physical[expr as int];
            assert(own_enforcer(g, e));
            if e.enforcer && required.len() == 0 {
            } else {
                let closed = inputs_closed(m, e.children, inputs);
                closed.index_of_first_ensures(false);
                match closed.index_of_first(false) {
                    Some(k) => {
                        assert(k == 0);
                        assert(o.tasks[0] == TaskView::OptimizeInputs { group, expr, required, inputs });
                        assert(o.tasks[1] == TaskView::OptimizeGroup {
                            group: e.children[0],
                            required: inputs[0],
                        });
                    },
                    None => {
                        assert(winner_keys(m.groups[g].winners) =~= Seq::<Seq<SortKey>>::empty());
                        assert(!m.has_winner(e.children[0] as int, inputs[0]));
                        assert(m.candidate(g, expr, required, inputs) is None);
                    },
                }
            }
        },
    }
}

/// A search without rules over a bare memo ends without a fault and
/// leaves the memo bare; it finds no plan if it does not come to its end.
pub proof fn lemma_bare_run(m: MemoView, md: MdAccessor, stack: Seq<TaskView>, fuel: nat)
    requires
        bare(m),
        tasks_fit(m, stack),
    ensures
        ({
            let (after, left, r) = run_spec(m, Seq::<Rule>::empty(), md, stack, fuel);
            &&& bare(after)
            &&& after.groups.len() == m.groups.len()
            &&& r is Ok || r == Err::<(), OptimizerError>(OptimizerError::NoPlan)
        }),
    decreases fuel,
{
    if stack.len() == 0 || fuel == 0 {
    } else {
        let t = stack.last();
        assert(task_fits(m, t));
        lemma_bare_step(m, md, t);
        let o = task_spec(m, Seq::<Rule>::empty(), md, t);
        let rest = stack.drop_last();
        assert(tasks_fit(m, rest)) by {
            assert forall|i: int| 0 <= i < rest.len() implies task_fits(m, #[trigger] rest[i]) by {
                assert(rest[i] == stack[i]);
            }
        }
        lemma_fits_grown(m, o.memo, rest);
        let next = rest + o.tasks;
        assert forall|i: int| 0 <= i < next.len() implies task_fits(o.memo, #[trigger] next[i]) by {
            if i < rest.len() {
                assert(next[i] == rest[i]);
            } else {
                assert(next[i] == o.tasks[i - rest.len()]);
            }
        }
        lemma_bare_run(o.memo, md, next, (fuel - 1) as nat);
    }
}

/// Taking a plan into a bare memo leaves it bare, and fails only on a
/// malformed plan.
pub proof fn lemma_bare_interned(m: MemoView, plan: PlanView)
    requires
        bare(m),
    ensures
        bare(m.interned(plan).0),
        m.interned(plan).0.groups.len() >= m.groups.len(),
        m.interned(plan).1 matches Err(e) ==> e == OptimizerError::MalformedInput,
    decreases plan, 0nat,
{
    match plan {
        PlanView::Group(g) => {},
        PlanView::Node(op, inputs, required, Some(g)) => {},
        PlanView::Node(op, inputs, required, None) => {
            lemma_bare_interned_all(m, inputs, inputs.len());
            let (m1, r) = m.interned_all(inputs, inputs.len());
            match r {
                Err(e) => {},
                Ok(children) => {
                    let e = ExprNode { op, children, enforcer: false };
                    if m1.admits_founder(e) && m1.holder(e) is None {
                        let after = m1.with_founder(e, required).0;
                        assert forall|h: int| 0 <= h < after.groups.len() implies #[trigger] bare_group(
                            after,
                            h,
                        ) by {
                            if h < m1.groups.len() {
                                assert(bare_group(m1, h));
                                assert(after.groups[h] == m1.groups[h]);
                                assert forall|i: int| 0 <= i < after.groups[h].logical.len() implies after.has_groups(
                                    (#[trigger] after.groups[h].logical[i]).children,
                                ) by {
                                    assert(m1.has_groups(m1.groups[h].logical[i].children));
                                }
                            } else {
                                assert(after.groups[h] == m1.founded(e, required));
                                assert(after.groups[h].logical[0] == e);
                            }
                        }
                    }
                },
            }
        },
    }
}

/// Taking plans into a bare memo leaves it bare, and fails only on a
/// malformed plan.
pub proof fn lemma_bare_interned_all(m: MemoView, inputs: Seq<PlanView>, n: nat)
    requires
        bare(m),
    ensures
        bare(m.interned_all(inputs, n).0),
        m.interned_all(inputs, n).0.groups.len() >= m.groups.len(),
        m.interned_all(inputs, n).1 matches Err(e) ==> e == OptimizerError::MalformedInput,
    decreases inputs, n,
{
    if n == 0 || n > inputs.len() {
    } else {
        lemma_bare_interned_all(m, inputs, (n - 1) as nat);
        let (m1, r) = m.interned_all(inputs, (n - 1) as nat);
        if r is Ok {
            lemma_bare_interned(m1, inputs[n - 1]);
        }
    }
}

/// Without rules an optimization gives no plan: the search leaves every
/// best-plan table empty. A malformed plan is refused as ever.
pub proof fn lemma_no_rules_no_plan(plan: PlanView, required: Seq<SortKey>, md: MdAccessor)
    ensures
        ({
            let empty = MemoView { groups: Seq::empty(), root: None };
            match empty.interned(plan).1 {
                Ok(_) => optimize_spec(plan, required, md, Seq::<Rule>::empty()) == Err::<
                    crate::plan::PhysicalPlanView,
                    OptimizerError,
                >(OptimizerError::NoPlan),
                Err(_) => optimize_spec(plan, required, md, Seq::<Rule>::empty()) == Err::<
                    crate::plan::PhysicalPlanView,
                    OptimizerError,
                >(OptimizerError::MalformedInput),
            }
        }),
{
    let empty = MemoView { groups: Seq::empty(), root: None };
    assert(bare(empty));
    lemma_bare_interned(empty, plan);
    lemma_interned_group(empty, plan);
    let (taken, root) = empty.interned(plan);
    match root {
        Err(e) => {},
        Ok(g) => {
            let start = MemoView { groups: taken.groups, root: Some(g) };
            assert(bare(start)) by {
                assert forall|h: int| 0 <= h < start.groups.len() implies #[trigger] bare_group(start, h) by {
                    assert(bare_group(taken, h));
                    assert forall|i: int| 0 <= i < start.groups[h].logical.len() implies start.has_groups(
                        (#[trigger] start.groups[h].logical[i]).children,
                    ) by {
                        assert(taken.has_groups(taken.groups[h].logical[i].children));
                    }
                }
            }
            let stack = seq![TaskView::OptimizeGroup { group: g, required }];
            assert(task_fits(start, stack[0]));
            lemma_bare_run(start, md, stack, MAX_TASKS as nat);
            let (searched, left, r) = run_spec(start, Seq::<Rule>::empty(), md, stack, MAX_TASKS as nat);
            assert(bare_group(searched, g as int));
            assert(winner_keys(searched.groups[g as int].winners) =~= Seq::<Seq<SortKey>>::empty());
            assert(!searched.has_winner(g as int, required));
        },
    }
}

} // verus!
