//! The tasks of the search, and the stack that runs them.

use vstd::prelude::*;
use crate::context::OptimizerContext;
use crate::cost::{lemma_total_prefix, total_spec, Cost};
use crate::fault::OptimizerError;
use crate::memo::{Added, ExprNode, GroupView, Memo, MemoView, WinnerView};
use crate::memo::{
    lemma_first_index, lemma_memo_extends_reflexive, lemma_memo_extends_transitive, memo_extends,
};
use crate::metadata::MdAccessor;
use crate::operator::{operator_id_spec, required_spec, PhysicalOperator};
use crate::plan::{plan_views, Plan, PlanView};
use crate::property::{alts_views, copy_props, props_views, satisfies_spec, PhysicalProperties, SortKey};
use crate::rule::{bindings, PatternView};
use crate::rules::{pattern_spec, rule_id_spec, transform_spec, Rule, RuleSet};

verus! {

/// A task of the search.
#[derive(Debug)]
pub enum Task {
    /// Find the best plan of a group under a requirement.
    OptimizeGroup { group: usize, required: PhysicalProperties },
    /// Apply the rules to a logical expression, once its inputs have plans.
    OptimizeExpression { group: usize, expr: usize, required: PhysicalProperties },
    /// Apply one rule to a logical expression.
    ApplyRule { group: usize, expr: usize, rule: Rule, required: PhysicalProperties },
    /// Cost the physical expressions of a group under a requirement, with
    /// an enforcer where one is admitted; and, once they are costed, end
    /// the search of the group under the requirement.
    EnforceAndCost { group: usize, required: PhysicalProperties, costed: bool },
    /// Cost one physical expression under a requirement, with `inputs`
    /// asked of its inputs, once their search is over.
    OptimizeInputs { group: usize, expr: usize, required: PhysicalProperties, inputs: Vec<PhysicalProperties> },
}

/// What a task says.
pub ghost enum TaskView {
    OptimizeGroup { group: usize, required: Seq<SortKey> },
    OptimizeExpression { group: usize, expr: usize, required: Seq<SortKey> },
    ApplyRule { group: usize, expr: usize, rule: Rule, required: Seq<SortKey> },
    EnforceAndCost { group: usize, required: Seq<SortKey>, costed: bool },
    OptimizeInputs { group: usize, expr: usize, required: Seq<SortKey>, inputs: Seq<Seq<SortKey>> },
}

impl View for Task {
    type V = TaskView;

    open spec fn view(&self) -> TaskView {
        match self {
            Task::OptimizeGroup { group, required } => TaskView::OptimizeGroup {
                group: *group,
                required: required@,
            },
            Task::OptimizeExpression { group, expr, required } => TaskView::OptimizeExpression {
                group: *group,
                expr: *expr,
                required: required@,
            },
            Task::ApplyRule { group, expr, rule, required } => TaskView::ApplyRule {
                group: *group,
                expr: *expr,
                rule: *rule,
                required: required@,
            },
            Task::EnforceAndCost { group, required, costed } => TaskView::EnforceAndCost {
                group: *group,
                required: required@,
                costed: *costed,
            },
            Task::OptimizeInputs { group, expr, required, inputs } => TaskView::OptimizeInputs {
                group: *group,
                expr: *expr,
                required: required@,
                inputs: props_views(inputs@),
            },
        }
    }
}

/// The views of a sequence of tasks, place by place.
pub open spec fn task_views(tasks: Seq<Task>) -> Seq<TaskView> {
    Seq::new(tasks.len(), |i: int| tasks[i]@)
}

/// What running a task comes to: the memo after it, the tasks that it
/// schedules, the last of them to run first, and the fault that ends the
/// search, if there is one.
pub ghost struct Outcome {
    pub memo: MemoView,
    pub tasks: Seq<TaskView>,
    pub fault: Option<OptimizerError>,
}

/// The outcome that leaves the memo as it is and schedules nothing.
pub open spec fn nothing(m: MemoView) -> Outcome {
    Outcome { memo: m, tasks: Seq::empty(), fault: None }
}

/// The outcome that ends the search with `fault`.
pub open spec fn failed(m: MemoView, fault: OptimizerError) -> Outcome {
    Outcome { memo: m, tasks: Seq::empty(), fault: Some(fault) }
}

/// Whether `pattern` admits the operator `op` at its root.
pub open spec fn root_matches(pattern: PatternView, op: crate::operator::OperatorView) -> bool {
    match pattern {
        PatternView::Any => true,
        PatternView::Node(id, _) => operator_id_spec(op) == id,
    }
}

/// The tasks that apply to expression `expr` of group `g` the rules of
/// `rules` from place `k` on whose pattern admits the operator of `e` and
/// that were not applied in the group; the task of the first rule is last.
pub open spec fn rule_tasks(m: MemoView, rules: Seq<Rule>, g: usize, expr: usize, required: Seq<SortKey>, e: ExprNode, k: nat) -> Seq<TaskView>
    decreases rules.len() - k,
{
    if k >= rules.len() {
        Seq::empty()
    } else {
        let rest = rule_tasks(m, rules, g, expr, required, e, k + 1);
        let rule = rules[k as int];
        if root_matches(pattern_spec(rule), e.op) && !m.is_fired(g as int, rule_id_spec(rule)) {
            rest.push(TaskView::ApplyRule { group: g, expr, rule, required })
        } else {
            rest
        }
    }
}

/// The tasks that find any plan of each of the groups `children`; the
/// task of the first group is last.
pub open spec fn child_tasks(children: Seq<usize>) -> Seq<TaskView> {
    Seq::new(
        children.len(),
        |j: int|
            TaskView::OptimizeGroup { group: children[children.len() - 1 - j], required: Seq::empty() },
    )
}

/// What the first `n` bindings of `found` become under `rule`, in order.
pub open spec fn produced(rule: Rule, found: Seq<PlanView>, md: MdAccessor, n: nat) -> Seq<PlanView>
    decreases n,
{
    if n == 0 || n > found.len() {
        Seq::empty()
    } else {
        produced(rule, found, md, (n - 1) as nat) + transform_spec(rule, found[n - 1], md)
    }
}

/// The memo after the first `n` of the plans `plans` were taken into group
/// `g`, in order, and the places of the logical expressions that came of
/// them. The first plan that the memo refuses ends the taking in.
pub open spec fn inserted_all(m: MemoView, g: int, plans: Seq<PlanView>, n: nat) -> (MemoView, Result<Seq<usize>, OptimizerError>)
    decreases n,
{
    if n == 0 || n > plans.len() {
        (m, Ok(Seq::empty()))
    } else {
        let (m1, r) = inserted_all(m, g, plans, (n - 1) as nat);
        match r {
            Err(e) => (m1, Err(e)),
            Ok(places) => {
                let (m2, r2) = m1.inserted(g, plans[n - 1]);
                match r2 {
                    Err(e) => (m2, Err(e)),
                    Ok(Added::Logical(place)) => (m2, Ok(places.push(place))),
                    Ok(_) => (m2, Ok(places)),
                }
            },
        }
    }
}

/// The tasks that apply the rules to the logical expressions of group `g`
/// at `places`; the task of the first place is last.
pub open spec fn expression_tasks(g: usize, places: Seq<usize>, required: Seq<SortKey>) -> Seq<TaskView> {
    Seq::new(
        places.len(),
        |j: int|
            TaskView::OptimizeExpression { group: g, expr: places[places.len() - 1 - j], required },
    )
}

/// The tasks that cost expression `expr` of group `g` under each of the
/// alternatives `alts`; the task of the first alternative is last.
pub open spec fn alternative_tasks(g: usize, expr: usize, required: Seq<SortKey>, alts: Seq<Seq<Seq<SortKey>>>) -> Seq<TaskView> {
    Seq::new(
        alts.len(),
        |j: int|
            TaskView::OptimizeInputs { group: g, expr, required, inputs: alts[alts.len() - 1 - j] },
    )
}

/// The tasks that cost the physical expressions of group `g` from place
/// `k` on, each under each of its alternatives; the tasks of the first
/// expression are last.
pub open spec fn input_tasks(physical: Seq<ExprNode>, g: usize, required: Seq<SortKey>, k: nat) -> Seq<TaskView>
    decreases physical.len() - k,
{
    if k >= physical.len() {
        Seq::empty()
    } else {
        input_tasks(physical, g, required, k + 1) + alternative_tasks(
            g,
            k as usize,
            required,
            required_spec(physical[k as int].op->Physical_0, required),
        )
    }
}

/// Whether a group holds a physical expression without inputs that is no enforcer.
pub open spec fn has_leaf(physical: Seq<ExprNode>) -> bool {
    exists|i: int| 0 <= i < physical.len() && !(#[trigger] physical[i]).enforcer && physical[i].children.len() == 0
}

/// Whether a group holds a logical expression with inputs.
pub open spec fn has_inner(logical: Seq<ExprNode>) -> bool {
    exists|i: int| 0 <= i < logical.len() && (#[trigger] logical[i]).children.len() > 0
}

/// Whether an enforcer is admitted in group `g` under `required`: where
/// something is required, in the group of the whole plan, and in a group
/// in which a physical expression without inputs stands beside a logical
/// expression with inputs: there an access path took operators in, and
/// the requirement cannot go below it.
pub open spec fn admits_enforcer(m: MemoView, g: int, required: Seq<SortKey>) -> bool {
    required.len() > 0 && (m.root == Some(g as usize) || (has_leaf(m.groups[g].physical) && has_inner(
        m.groups[g].logical,
    )))
}

/// The memo with the enforcer of `required` among the physical
/// expressions of group `g`.
pub open spec fn with_enforcer(m: MemoView, g: int, required: Seq<SortKey>) -> MemoView {
    let e = MemoView::enforcer_of(g, required);
    if m.groups[g].physical.contains(e) {
        m
    } else {
        m.with_group(g, GroupView { physical: m.groups[g].physical.push(e), ..m.groups[g] })
    }
}

/// For each input of an expression, whether its search under what
/// `inputs` asks of it is over.
pub open spec fn inputs_closed(m: MemoView, children: Seq<usize>, inputs: Seq<Seq<SortKey>>) -> Seq<bool> {
    Seq::new(
        children.len(),
        |i: int| m.has_group(children[i] as int) && m.is_closed(children[i] as int, inputs[i]),
    )
}

/// What the task to find the best plan of group `g` under `required`
/// comes to: nothing where the search is over; else the tasks to apply
/// the rules to each logical expression, the first to run first, and then
/// to cost the physical expressions.
pub open spec fn optimize_group_spec(m: MemoView, g: usize, required: Seq<SortKey>) -> Outcome {
    if !m.has_group(g as int) {
        failed(m, OptimizerError::InvariantViolation)
    } else if m.is_closed(g as int, required) {
        nothing(m)
    } else {
        let n = m.groups[g as int].logical.len();
        Outcome {
            memo: m,
            tasks: Seq::new(
                n + 1,
                |j: int|
                    if j == 0 {
                        TaskView::EnforceAndCost { group: g, required, costed: false }
                    } else {
                        TaskView::OptimizeExpression { group: g, expr: (n - j) as usize, required }
                    },
            ),
            fault: None,
        }
    }
}

/// What the task to apply the rules to expression `expr` of group `g`
/// comes to: the tasks to find any plan of each input, the first to run
/// first, and then to apply each rule whose pattern admits the operator
/// and that was not applied in the group, in the order of the rules.
pub open spec fn optimize_expression_spec(m: MemoView, rules: Seq<Rule>, g: usize, expr: usize, required: Seq<SortKey>) -> Outcome {
    if !m.has_group(g as int) || expr >= m.groups[g as int].logical.len() {
        failed(m, OptimizerError::InvariantViolation)
    } else {
        let e = m.groups[g as int].logical[expr as int];
        Outcome {
            memo: m,
            tasks: rule_tasks(m, rules, g, expr, required, e, 0) + child_tasks(e.children),
            fault: None,
        }
    }
}

/// What the task to apply `rule` to expression `expr` of group `g` comes
/// to: nothing where the rule was applied in the group; else the rule is
/// marked as applied there, what it makes of each binding is taken into
/// the group, and the rules are to be applied to each logical expression
/// that came of it, the first to run first.
pub open spec fn apply_rule_spec(m: MemoView, md: MdAccessor, g: usize, expr: usize, rule: Rule, required: Seq<SortKey>) -> Outcome {
    if !m.has_group(g as int) || expr >= m.groups[g as int].logical.len() {
        failed(m, OptimizerError::InvariantViolation)
    } else if m.is_fired(g as int, rule_id_spec(rule)) {
        nothing(m)
    } else {
        let found = m.bindings(pattern_spec(rule), g, m.groups[g as int].logical[expr as int]);
        let plans = produced(rule, found, md, found.len());
        let marked = m.with_group(
            g as int,
            GroupView {
                fired: m.groups[g as int].fired.push(rule_id_spec(rule)),
                ..m.groups[g as int]
            },
        );
        let (after, r) = inserted_all(marked, g as int, plans, plans.len());
        match r {
            Err(e) => failed(after, e),
            Ok(places) => Outcome {
                memo: after,
                tasks: expression_tasks(g, places, required),
                fault: None,
            },
        }
    }
}

/// What the task to cost the physical expressions of group `g` under
/// `required` comes to. Once they are costed, the search of the group
/// under the requirement is over. Before, the statistics of the group are
/// derived; where the metadata gives none, nothing can be costed, and
/// the costing is to be ended. Else the enforcer of the requirement
/// comes into the group where one is admitted, and each physical
/// expression is to be costed under each of its alternatives, the first
/// to run first, and then the costing is to be ended.
pub open spec fn enforce_and_cost_spec(m: MemoView, md: MdAccessor, g: usize, required: Seq<SortKey>, costed: bool) -> Outcome {
    if !m.has_group(g as int) {
        failed(m, OptimizerError::InvariantViolation)
    } else if costed {
        nothing(
            m.with_group(
                g as int,
                GroupView { closed: m.groups[g as int].closed.push(required), ..m.groups[g as int] },
            ),
        )
    } else {
        let derived = m.derived(md, g as int);
        if derived.groups[g as int].stats is None {
            Outcome {
                memo: derived,
                tasks: seq![TaskView::EnforceAndCost { group: g, required, costed: true }],
                fault: None,
            }
        } else {
            let after = if admits_enforcer(derived, g as int, required) {
                with_enforcer(derived, g as int, required)
            } else {
                derived
            };
            Outcome {
                memo: after,
                tasks: seq![TaskView::EnforceAndCost { group: g, required, costed: true }] + input_tasks(
                    after.groups[g as int].physical,
                    g,
                    required,
                    0,
                ),
                fault: None,
            }
        }
    }
}

/// What the task to cost expression `expr` of group `g` under `required`,
/// with `inputs` asked of its inputs, comes to. An enforcer is not run
/// where nothing is required. Where the search of an input is not over,
/// the first such input is to be searched, and then the expression is
/// to be costed anew. Else the plan is costed, unless an input has no winner, and
/// offered to the best-plan table, if it delivers what is required.
pub open spec fn optimize_inputs_spec(m: MemoView, g: usize, expr: usize, required: Seq<SortKey>, inputs: Seq<Seq<SortKey>>) -> Outcome {
    if !m.has_group(g as int) || expr >= m.groups[g as int].physical.len() || inputs.len()
        != m.groups[g as int].physical[expr as int].children.len() {
        failed(m, OptimizerError::InvariantViolation)
    } else {
        let e = m.groups[g as int].physical[expr as int];
        if e.enforcer && required.len() == 0 {
            nothing(m)
        } else {
            match inputs_closed(m, e.children, inputs).index_of_first(false) {
                Some(k) => Outcome {
                    memo: m,
                    tasks: seq![
                        TaskView::OptimizeInputs { group: g, expr, required, inputs },
                        TaskView::OptimizeGroup { group: e.children[k], required: inputs[k] },
                    ],
                    fault: None,
                },
                None => match m.candidate(g as int, expr, required, inputs) {
                    None => nothing(m),
                    Some((delivered, cost)) => {
                        let w = WinnerView { required, expr, delivered, inputs, cost };
                        if !satisfies_spec(delivered, required) {
                            nothing(m)
                        } else if m.is_closed(g as int, required) {
                            failed(m, OptimizerError::InvariantViolation)
                        } else if m.improves(g as int, w) {
                            nothing(m.with_group(g as int, m.group_with_winner(g as int, w)))
                        } else {
                            nothing(m)
                        }
                    },
                },
            }
        }
    }
}

/// What running a task comes to.
pub open spec fn task_spec(m: MemoView, rules: Seq<Rule>, md: MdAccessor, task: TaskView) -> Outcome {
    match task {
        TaskView::OptimizeGroup { group, required } => optimize_group_spec(m, group, required),
        TaskView::OptimizeExpression { group, expr, required } => optimize_expression_spec(
            m,
            rules,
            group,
            expr,
            required,
        ),
        TaskView::ApplyRule { group, expr, rule, required } => apply_rule_spec(
            m,
            md,
            group,
            expr,
            rule,
            required,
        ),
        TaskView::EnforceAndCost { group, required, costed } => enforce_and_cost_spec(
            m,
            md,
            group,
            required,
            costed,
        ),
        TaskView::OptimizeInputs { group, expr, required, inputs } => optimize_inputs_spec(
            m,
            group,
            expr,
            required,
            inputs,
        ),
    }
}

/// Whether what a task gave back is what running it comes to.
pub open spec fn agrees(r: Result<Vec<Task>, OptimizerError>, after: MemoView, o: Outcome) -> bool {
    &&& after == o.memo
    &&& match r {
        Ok(tasks) => o.fault is None && task_views(tasks@) == o.tasks,
        Err(e) => o.fault == Some(e),
    }
}

/// No tasks.
fn no_tasks() -> (r: Vec<Task>)
    ensures
        task_views(r@) == Seq::<TaskView>::empty(),
{
    let out: Vec<Task> = Vec::new();
    assert(task_views(out@) =~= Seq::<TaskView>::empty());
    out
}

/// Schedules the search of `group` under `required`.
pub fn optimize_group(memo: &Memo, group: usize, required: &PhysicalProperties) -> (r: Result<Vec<Task>, OptimizerError>)
    ensures
        agrees(r, memo@, optimize_group_spec(memo@, group, required@)),
{
    if group >= memo.group_count() {
        return Err(OptimizerError::InvariantViolation);
    }
    if memo.is_closed(group, required) {
        return Ok(no_tasks());
    }
    let n = memo.logical_count(group);
    let mut tasks: Vec<Task> = Vec::new();
    tasks.push(Task::EnforceAndCost { group, required: required.clone(), costed: false });
    let mut i: usize = n;
    while i > 0
        invariant
            i <= n,
            tasks@.len() == n - i + 1,
            tasks@[0]@ == (TaskView::EnforceAndCost { group, required: required@, costed: false }),
            forall|j: int|
                1 <= j < tasks@.len() ==> (#[trigger] tasks@[j])@ == (TaskView::OptimizeExpression {
                    group,
                    expr: (n - j) as usize,
                    required: required@,
                }),
        decreases i,
    {
        i -= 1;
        tasks.push(Task::OptimizeExpression { group, expr: i, required: required.clone() });
    }
    assert(task_views(tasks@) =~= optimize_group_spec(memo@, group, required@).tasks);
    Ok(tasks)
}

/// The tasks that find any plan of each of the groups `children`.
fn schedule_children(children: &Vec<usize>) -> (r: Vec<Task>)
    ensures
        task_views(r@) == child_tasks(children@),
{
    let n = children.len();
    let mut tasks: Vec<Task> = Vec::new();
    let mut i: usize = n;
    while i > 0
        invariant
            i <= n,
            n == children.len(),
            tasks@.len() == n - i,
            forall|j: int|
                0 <= j < tasks@.len() ==> (#[trigger] tasks@[j])@ == (TaskView::OptimizeGroup {
                    group: children@[n - 1 - j],
                    required: Seq::empty(),
                }),
        decreases i,
    {
        i -= 1;
        tasks.push(Task::OptimizeGroup { group: children[i], required: PhysicalProperties::new() });
    }
    assert(task_views(tasks@) =~= child_tasks(children@));
    tasks
}

/// Schedules the rules for expression `expr` of `group`, and the search
/// of its inputs before them.
pub fn optimize_expression(memo: &Memo, rule_set: &RuleSet, group: usize, expr: usize, required: &PhysicalProperties) -> (r: Result<Vec<Task>, OptimizerError>)
    ensures
        agrees(r, memo@, optimize_expression_spec(memo@, rule_set@, group, expr, required@)),
{
    if group >= memo.group_count() || expr >= memo.logical_count(group) {
        return Err(OptimizerError::InvariantViolation);
    }
    let e = memo.logical_expr(group, expr);
    let id = e.operator().operator_id();
    let mut tasks: Vec<Task> = Vec::new();
    let mut k: usize = rule_set.len();
    assert(task_views(tasks@) =~= rule_tasks(memo@, rule_set@, group, expr, required@, e@, k as nat));
    while k > 0
        invariant
            k <= rule_set@.len(),
            memo@.has_group(group as int),
            id == operator_id_spec(e@.op),
            task_views(tasks@) == rule_tasks(memo@, rule_set@, group, expr, required@, e@, k as nat),
        decreases k,
    {
        k -= 1;
        let rule = rule_set.get(k);
        let admitted = match rule.pattern() {
            crate::rule::Pattern::Any => true,
            crate::rule::Pattern::Node(want, _) => want == id,
        };
        if admitted && !memo.is_fired(group, rule.id()) {
            let ghost before = task_views(tasks@);
            tasks.push(Task::ApplyRule { group, expr, rule, required: required.clone() });
            assert(task_views(tasks@) =~= before.push(
                TaskView::ApplyRule { group, expr, rule, required: required@ },
            ));
        }
    }
    let mut below = schedule_children(e.children());
    let ghost first = task_views(tasks@);
    let ghost second = task_views(below@);
    tasks.append(&mut below);
    assert(task_views(tasks@) =~= first + second);
    Ok(tasks)
}

/// The views of the plans in `plans` are those of the parts that were put together.
proof fn lemma_plan_views_add(a: Seq<Plan>, b: Seq<Plan>)
    ensures
        plan_views(a + b) == plan_views(a) + plan_views(b),
{
    assert(plan_views(a + b) =~= plan_views(a) + plan_views(b));
}

/// Applies `rule` to expression `expr` of `group`, unless it was applied
/// in the group.
pub fn apply_rule(
    memo: &mut Memo,
    md_accessor: &MdAccessor,
    group: usize,
    expr: usize,
    rule: Rule,
    required: &PhysicalProperties,
) -> (r: Result<Vec<Task>, OptimizerError>)
    requires
        old(memo).wf(),
    ensures
        final(memo).wf(),
        memo_extends(old(memo)@, final(memo)@),
        agrees(r, final(memo)@, apply_rule_spec(old(memo)@, *md_accessor, group, expr, rule, required@)),
{
    let ghost before = memo@;
    let ghost md = *md_accessor;
    let ghost g = group as int;
    proof {
        lemma_memo_extends_reflexive(before);
    }
    if group >= memo.group_count() || expr >= memo.logical_count(group) {
        return Err(OptimizerError::InvariantViolation);
    }
    if memo.is_fired(group, rule.id()) {
        return Ok(no_tasks());
    }
    let pattern = rule.pattern();
    let found = bindings(memo, &pattern, group, memo.logical_expr(group, expr));
    let ghost fv = plan_views(found@);
    let mut plans: Vec<Plan> = Vec::new();
    let mut i: usize = 0;
    assert(plan_views(plans@) =~= produced(rule, fv, md, 0));
    while i < found.len()
        invariant
            i <= found.len(),
            fv == plan_views(found@),
            md == *md_accessor,
            plan_views(plans@) == produced(rule, fv, md, i as nat),
        decreases found.len() - i,
    {
        let mut outs = rule.transform(&found[i], md_accessor);
        let ghost first = plans@;
        let ghost second = outs@;
        plans.append(&mut outs);
        proof {
            lemma_plan_views_add(first, second);
        }
        i += 1;
    }
    let ghost pv = plan_views(plans@);
    memo.mark_fired(group, rule.id());
    let ghost marked = memo@;
    let ghost want = apply_rule_spec(before, md, group, expr, rule, required@);
    proof {
        let (after, r) = inserted_all(marked, g, pv, pv.len());
        assert(want == match r {
            Err(e) => failed(after, e),
            Ok(places) => Outcome {
                memo: after,
                tasks: expression_tasks(group, places, required@),
                fault: None,
            },
        });
    }
    let mut places: Vec<usize> = Vec::new();
    let mut k: usize = 0;
    while k < plans.len()
        invariant
            k <= plans.len(),
            pv == plan_views(plans@),
            g == group as int,
            before == old(memo)@,
            md == *md_accessor,
            want == apply_rule_spec(before, md, group, expr, rule, required@),
            want == match inserted_all(marked, g, pv, pv.len()).1 {
                Err(e) => failed(inserted_all(marked, g, pv, pv.len()).0, e),
                Ok(places) => Outcome {
                    memo: inserted_all(marked, g, pv, pv.len()).0,
                    tasks: expression_tasks(group, places, required@),
                    fault: None,
                },
            },
            memo.wf(),
            memo_extends(before, memo@),
            (memo@, Ok::<Seq<usize>, OptimizerError>(places@)) == inserted_all(marked, g, pv, k as nat),
        decreases plans.len() - k,
    {
        let ghost mid = memo@;
        let r = memo.insert_plan(group, &plans[k]);
        proof {
            lemma_memo_extends_transitive(before, mid, memo@);
            assert(pv[k as int] == plans@[k as int]@);
        }
        match r {
            Ok(Added::Logical(place)) => {
                places.push(place);
            },
            Ok(_) => {},
            Err(e) => {
                proof {
                    lemma_inserted_all_fails(marked, g, pv, (k + 1) as nat, pv.len());
                }
                return Err(e);
            },
        }
        k += 1;
    }
    let n = places.len();
    let mut tasks: Vec<Task> = Vec::new();
    let mut j: usize = n;
    while j > 0
        invariant
            j <= n,
            n == places.len(),
            tasks@.len() == n - j,
            memo.wf(),
            memo_extends(before, memo@),
            before == old(memo)@,
            want == apply_rule_spec(before, md, group, expr, rule, required@),
            want == (Outcome {
                memo: memo@,
                tasks: expression_tasks(group, places@, required@),
                fault: None,
            }),
            forall|t: int|
                0 <= t < tasks@.len() ==> (#[trigger] tasks@[t])@ == (TaskView::OptimizeExpression {
                    group,
                    expr: places@[n - 1 - t],
                    required: required@,
                }),
        decreases j,
    {
        j -= 1;
        tasks.push(Task::OptimizeExpression { group, expr: places[j], required: required.clone() });
    }
    assert(task_views(tasks@) =~= expression_tasks(group, places@, required@));
    Ok(tasks)
}

/// Where taking in the first `n` plans fails, taking in more of them
/// fails in the same way.
pub proof fn lemma_inserted_all_fails(m: MemoView, g: int, plans: Seq<PlanView>, n: nat, k: nat)
    requires
        n <= k <= plans.len(),
        inserted_all(m, g, plans, n).1 is Err,
    ensures
        inserted_all(m, g, plans, k) == inserted_all(m, g, plans, n),
    decreases k,
{
    if n < k {
        lemma_inserted_all_fails(m, g, plans, n, (k - 1) as nat);
    }
}

/// Whether `group` holds a physical expression without inputs that is no enforcer.
fn holds_leaf(memo: &Memo, group: usize) -> (b: bool)
    requires
        memo@.has_group(group as int),
    ensures
        b == has_leaf(memo@.groups[group as int].physical),
{
    let n = memo.physical_count(group);
    let mut i: usize = 0;
    while i < n
        invariant
            i <= n,
            n == memo@.groups[group as int].physical.len(),
            memo@.has_group(group as int),
            forall|j: int|
                0 <= j < i ==> !(!(#[trigger] memo@.groups[group as int].physical[j]).enforcer
                    && memo@.groups[group as int].physical[j].children.len() == 0),
        decreases n - i,
    {
        let e = memo.physical_expr(group, i);
        if !e.is_enforcer() && e.children().len() == 0 {
            return true;
        }
        i += 1;
    }
    false
}

/// Whether `group` holds a logical expression with inputs.
fn holds_inner(memo: &Memo, group: usize) -> (b: bool)
    requires
        memo@.has_group(group as int),
    ensures
        b == has_inner(memo@.groups[group as int].logical),
{
    let n = memo.logical_count(group);
    let mut i: usize = 0;
    while i < n
        invariant
            i <= n,
            n == memo@.groups[group as int].logical.len(),
            memo@.has_group(group as int),
            forall|j: int| 0 <= j < i ==> !((#[trigger] memo@.groups[group as int].logical[j]).children.len() > 0),
        decreases n - i,
    {
        if memo.logical_expr(group, i).children().len() > 0 {
            return true;
        }
        i += 1;
    }
    false
}

/// The tasks that cost expression `expr` of `group` under each of `alts`.
fn schedule_alternatives(group: usize, expr: usize, required: &PhysicalProperties, alts: &Vec<Vec<PhysicalProperties>>) -> (r: Vec<Task>)
    ensures
        task_views(r@) == alternative_tasks(group, expr, required@, alts_views(alts@)),
{
    let n = alts.len();
    let mut tasks: Vec<Task> = Vec::new();
    let mut i: usize = n;
    while i > 0
        invariant
            i <= n,
            n == alts.len(),
            tasks@.len() == n - i,
            forall|j: int|
                0 <= j < tasks@.len() ==> (#[trigger] tasks@[j])@ == (TaskView::OptimizeInputs {
                    group,
                    expr,
                    required: required@,
                    inputs: alts_views(alts@)[n - 1 - j],
                }),
        decreases i,
    {
        i -= 1;
        tasks.push(
            Task::OptimizeInputs { group, expr, required: required.clone(), inputs: copy_props(&alts[i]) },
        );
    }
    assert(task_views(tasks@) =~= alternative_tasks(group, expr, required@, alts_views(alts@)));
    tasks
}

/// Costs the physical expressions of `group` under `required`, with an
/// enforcer where one is admitted; or, once they are costed, ends the
/// search of the group under the requirement.
pub fn enforce_and_cost(
    memo: &mut Memo,
    md_accessor: &MdAccessor,
    group: usize,
    required: &PhysicalProperties,
    costed: bool,
) -> (r: Result<Vec<Task>, OptimizerError>)
    requires
        old(memo).wf(),
    ensures
        final(memo).wf(),
        memo_extends(old(memo)@, final(memo)@),
        agrees(
            r,
            final(memo)@,
            enforce_and_cost_spec(old(memo)@, *md_accessor, group, required@, costed),
        ),
{
    let ghost before = memo@;
    let ghost g = group as int;
    proof {
        lemma_memo_extends_reflexive(before);
    }
    if group >= memo.group_count() {
        return Err(OptimizerError::InvariantViolation);
    }
    if costed {
        memo.close(group, required);
        return Ok(no_tasks());
    }
    let stats = memo.derive_statistics(md_accessor, group);
    let ghost derived = memo@;
    if stats.is_none() {
        let mut tasks: Vec<Task> = Vec::new();
        tasks.push(Task::EnforceAndCost { group, required: required.clone(), costed: true });
        assert(task_views(tasks@) =~= seq![
            TaskView::EnforceAndCost { group, required: required@, costed: true },
        ]);
        return Ok(tasks);
    }
    let at_root = match memo.root_group() {
        Some(root) => root == group,
        None => false,
    };
    if !required.is_empty() && (at_root || (holds_leaf(memo, group) && holds_inner(memo, group))) {
        memo.add_enforcer(group, required);
        proof {
            lemma_memo_extends_transitive(before, derived, memo@);
        }
    }
    let ghost after = memo@;
    let ghost physical = after.groups[g].physical;
    let mut tasks: Vec<Task> = Vec::new();
    tasks.push(Task::EnforceAndCost { group, required: required.clone(), costed: true });
    let ghost head = seq![TaskView::EnforceAndCost { group, required: required@, costed: true }];
    let mut k: usize = memo.physical_count(group);
    assert(task_views(tasks@) =~= head + input_tasks(physical, group, required@, k as nat));
    while k > 0
        invariant
            k <= physical.len(),
            memo.wf(),
            memo@ == after,
            after.has_group(g),
            g == group as int,
            physical == after.groups[g].physical,
            head == seq![TaskView::EnforceAndCost { group, required: required@, costed: true }],
            task_views(tasks@) == head + input_tasks(physical, group, required@, k as nat),
        decreases k,
    {
        k -= 1;
        let e = memo.physical_expr(group, k);
        proof {
            assert(after.group_ok(g));
            assert(after.physical_ok(g, physical[k as int]));
        }
        let alts = e.operator().physical_op().required_properties(required);
        let mut more = schedule_alternatives(group, k, required, &alts);
        let ghost first = task_views(tasks@);
        let ghost second = task_views(more@);
        tasks.append(&mut more);
        assert(task_views(tasks@) =~= first + second);
        assert(first + second =~= head + input_tasks(physical, group, required@, k as nat));
    }
    Ok(tasks)
}

/// Whether, among the first `n` inputs of the expression `e`, one has no
/// plan under what `inputs` asks of it, or the plans of the inputs up to
/// one of them cost more than `bound` together.
pub open spec fn bound_passed(m: MemoView, e: ExprNode, inputs: Seq<Seq<SortKey>>, bound: Cost, n: nat) -> bool
    decreases n,
{
    if n == 0 || n > e.children.len() {
        false
    } else {
        ||| bound_passed(m, e, inputs, bound, (n - 1) as nat)
        ||| !(m.has_group(e.children[n - 1] as int) && m.has_winner(e.children[n - 1] as int, inputs[n - 1]))
        ||| bound.value < total_spec(m.input_costs(e, inputs).take(n as int)).value
    }
}

/// Whether expression `expr` of group `g` is passed over without being
/// costed: the search of the group under `required` is not over, its
/// table has an entry for `required`, and an input has no plan, or the
/// plans of the inputs, taken one after the other, come to cost more than
/// that entry.
pub open spec fn exceeds_best_spec(m: MemoView, g: int, expr: usize, required: Seq<SortKey>, inputs: Seq<Seq<SortKey>>) -> bool {
    &&& !m.is_closed(g, required)
    &&& m.has_winner(g, required)
    &&& bound_passed(
        m,
        m.groups[g].physical[expr as int],
        inputs,
        m.winner(g, required).cost,
        m.groups[g].physical[expr as int].children.len(),
    )
}

/// Where the bound is passed among the first inputs, it is passed among more of them.
pub proof fn lemma_bound_passed_stays(m: MemoView, e: ExprNode, inputs: Seq<Seq<SortKey>>, bound: Cost, n: nat, k: nat)
    requires
        n <= k <= e.children.len(),
        bound_passed(m, e, inputs, bound, n),
    ensures
        bound_passed(m, e, inputs, bound, k),
    decreases k,
{
    if n < k {
        lemma_bound_passed_stays(m, e, inputs, bound, n, (k - 1) as nat);
    }
}

/// Whether the plans of the inputs of expression `expr` of `group`, taken
/// one after the other, come to cost more than the best plan of the
/// group under `required`, or an input has no plan: then the expression
/// cannot better the table, and need not be costed.
fn exceeds_best(memo: &Memo, group: usize, expr: usize, required: &PhysicalProperties, inputs: &Vec<PhysicalProperties>) -> (b: bool)
    requires
        memo.wf(),
        memo@.has_group(group as int),
        expr < memo@.groups[group as int].physical.len(),
        inputs@.len() == memo@.groups[group as int].physical[expr as int].children.len(),
    ensures
        b == exceeds_best_spec(memo@, group as int, expr, required@, props_views(inputs@)),
        b ==> {
            let w = memo@.candidate(group as int, expr, required@, props_views(inputs@));
            &&& !memo@.is_closed(group as int, required@)
            &&& match w {
                None => true,
                Some((delivered, cost)) => !memo@.improves(
                    group as int,
                    WinnerView {
                        required: required@,
                        expr,
                        delivered,
                        inputs: props_views(inputs@),
                        cost,
                    },
                ),
            }
        },
{
    let ghost m = memo@;
    let ghost g = group as int;
    let ghost iv = props_views(inputs@);
    if memo.is_closed(group, required) {
        return false;
    }
    let bound = match memo.lookup(group, required) {
        Some(best) => best.cost(),
        None => {
            return false;
        },
    };
    let e = memo.physical_expr(group, expr);
    let children = e.children();
    let ghost costs = m.input_costs(e@, iv);
    let mut partial = Cost::zero();
    let mut k: usize = 0;
    assert(costs.take(0) =~= Seq::<Cost>::empty());
    while k < children.len()
        invariant
            k <= children.len(),
            children@ == e@.children,
            inputs@.len() == children@.len(),
            m == memo@,
            g == group as int,
            iv == props_views(inputs@),
            m.has_group(g),
            expr < m.groups[g].physical.len(),
            e@ == m.groups[g].physical[expr as int],
            !m.is_closed(g, required@),
            m.has_winner(g, required@),
            bound == m.winner(g, required@).cost,
            costs == m.input_costs(e@, iv),
            partial == total_spec(costs.take(k as int)),
            !bound_passed(m, e@, iv, bound, k as nat),
        decreases children.len() - k,
    {
        assert(iv[k as int] == inputs@[k as int]@);
        match memo.lookup(children[k], &inputs[k]) {
            Some(w) => {
                assert(costs.take(k as int + 1).drop_last() =~= costs.take(k as int));
                partial = partial.plus(w.cost());
            },
            None => {
                proof {
                    assert(bound_passed(m, e@, iv, bound, (k + 1) as nat));
                    lemma_bound_passed_stays(m, e@, iv, bound, (k + 1) as nat, children@.len());
                }
                return true;
            },
        }
        if bound.less_than(&partial) {
            proof {
                lemma_total_prefix(costs, k as int + 1);
                assert(bound_passed(m, e@, iv, bound, (k + 1) as nat));
                lemma_bound_passed_stays(m, e@, iv, bound, (k + 1) as nat, children@.len());
            }
            return true;
        }
        k += 1;
    }
    false
}

/// Costs expression `expr` of `group` under `required`, with `inputs`
/// asked of its inputs, once their search is over.
pub fn optimize_inputs(
    memo: &mut Memo,
    group: usize,
    expr: usize,
    required: PhysicalProperties,
    inputs: Vec<PhysicalProperties>,
) -> (r: Result<Vec<Task>, OptimizerError>)
    requires
        old(memo).wf(),
    ensures
        final(memo).wf(),
        memo_extends(old(memo)@, final(memo)@),
        agrees(
            r,
            final(memo)@,
            optimize_inputs_spec(old(memo)@, group, expr, required@, props_views(inputs@)),
        ),
{
    let ghost before = memo@;
    let ghost g = group as int;
    let ghost rv = required@;
    let ghost iv = props_views(inputs@);
    proof {
        lemma_memo_extends_reflexive(before);
    }
    if group >= memo.group_count() || expr >= memo.physical_count(group) {
        return Err(OptimizerError::InvariantViolation);
    }
    let e = memo.physical_expr(group, expr);
    let children = e.children();
    if inputs.len() != children.len() {
        return Err(OptimizerError::InvariantViolation);
    }
    if e.is_enforcer() && required.is_empty() {
        return Ok(no_tasks());
    }
    let ghost closed = inputs_closed(before, e@.children, iv);
    let mut k: usize = 0;
    while k < children.len()
        invariant
            k <= children.len(),
            children@ == e@.children,
            inputs.len() == children.len(),
            memo@ == before,
            memo.wf(),
            memo_extends(before, before),
            iv == props_views(inputs@),
            rv == required@,
            g == group as int,
            before.has_group(g),
            expr < before.groups[g].physical.len(),
            e@ == before.groups[g].physical[expr as int],
            !(e@.enforcer && rv.len() == 0),
            closed == inputs_closed(before, e@.children, iv),
            forall|j: int| 0 <= j < k ==> closed[j] != false,
        decreases children.len() - k,
    {
        assert(iv[k as int] == inputs@[k as int]@);
        if !memo.is_closed(children[k], &inputs[k]) {
            proof {
                assert(closed[k as int] == false);
                lemma_first_index(closed, false, k as int);
            }
            let child = Task::OptimizeGroup { group: children[k], required: inputs[k].clone() };
            let again = Task::OptimizeInputs { group, expr, required, inputs };
            let mut tasks: Vec<Task> = Vec::new();
            tasks.push(again);
            tasks.push(child);
            assert(task_views(tasks@) =~= seq![
                TaskView::OptimizeInputs { group, expr, required: rv, inputs: iv },
                TaskView::OptimizeGroup { group: children@[k as int], required: iv[k as int] },
            ]);
            return Ok(tasks);
        }
        k += 1;
    }
    proof {
        closed.index_of_first_ensures(false);
        if closed.contains(false) {
            let j = choose|j: int| 0 <= j < closed.len() && closed[j] == false;
            assert(closed[j] != false);
        }
        assert(closed.index_of_first(false) is None);
    }
    if exceeds_best(memo, group, expr, &required, &inputs) {
        return Ok(no_tasks());
    }
    match memo.candidate(group, expr, &required, &inputs) {
        None => Ok(no_tasks()),
        Some((delivered, cost)) => {
            if !delivered.satisfies(&required) {
                return Ok(no_tasks());
            }
            match memo.update(group, required, expr, delivered, inputs, cost) {
                Ok(_) => Ok(no_tasks()),
                Err(e) => Err(e),
            }
        },
    }
}

/// Runs `task`, and gives the tasks that it schedules, the last of them
/// to run first.
pub fn run_task(memo: &mut Memo, rule_set: &RuleSet, md_accessor: &MdAccessor, task: Task) -> (r: Result<Vec<Task>, OptimizerError>)
    requires
        old(memo).wf(),
    ensures
        final(memo).wf(),
        memo_extends(old(memo)@, final(memo)@),
        agrees(r, final(memo)@, task_spec(old(memo)@, rule_set@, *md_accessor, task@)),
{
    proof {
        lemma_memo_extends_reflexive(memo@);
    }
    match task {
        Task::OptimizeGroup { group, required } => optimize_group(memo, group, &required),
        Task::OptimizeExpression { group, expr, required } => optimize_expression(
            memo,
            rule_set,
            group,
            expr,
            &required,
        ),
        Task::ApplyRule { group, expr, rule, required } => apply_rule(
            memo,
            md_accessor,
            group,
            expr,
            rule,
            &required,
        ),
        Task::EnforceAndCost { group, required, costed } => enforce_and_cost(
            memo,
            md_accessor,
            group,
            &required,
            costed,
        ),
        Task::OptimizeInputs { group, expr, required, inputs } => optimize_inputs(
            memo,
            group,
            expr,
            required,
            inputs,
        ),
    }
}

/// The number of tasks that one run runs at most.
pub const MAX_TASKS: u64 = 18446744073709551615;

/// What running the tasks of `stack` comes to, the last of them first, for
/// at most `fuel` tasks: the memo after them, the tasks that are left, and
/// whether the search came to its end. A fault ends the run; a search
/// that the fuel does not bring to its end has found no plan.
pub open spec fn run_spec(m: MemoView, rules: Seq<Rule>, md: MdAccessor, stack: Seq<TaskView>, fuel: nat) -> (MemoView, Seq<TaskView>, Result<(), OptimizerError>)
    decreases fuel,
{
    if stack.len() == 0 {
        (m, stack, Ok(()))
    } else if fuel == 0 {
        (m, stack, Err(OptimizerError::NoPlan))
    } else {
        let o = task_spec(m, rules, md, stack.last());
        match o.fault {
            Some(e) => (o.memo, stack.drop_last(), Err(e)),
            None => run_spec(o.memo, rules, md, stack.drop_last() + o.tasks, (fuel - 1) as nat),
        }
    }
}

/// The stack of the tasks of a search.
#[derive(Debug)]
pub struct TaskRunner {
    stack: Vec<Task>,
}

impl TaskRunner {
    /// The tasks that wait, the last of them to run first.
    pub closed spec fn tasks(&self) -> Seq<TaskView> {
        task_views(self.stack@)
    }

    /// The runner without tasks.
    pub fn new() -> (r: Self)
        ensures
            r.tasks() == Seq::<TaskView>::empty(),
    {
        let r = TaskRunner { stack: Vec::new() };
        assert(r.tasks() =~= Seq::<TaskView>::empty());
        r
    }

    /// Puts `task` on the stack, to run before the tasks that wait.
    pub fn push_task(&mut self, task: Task)
        ensures
            final(self).tasks() == old(self).tasks().push(task@),
    {
        self.stack.push(task);
        assert(self.tasks() =~= old(self).tasks().push(task@));
    }

    /// Runs the tasks of the stack, and those that they schedule, until
    /// none is left or a fault ends the search. A search that `MAX_TASKS`
    /// tasks do not bring to its end has found no plan.
    pub fn run(&mut self, ctx: &mut OptimizerContext) -> (r: Result<(), OptimizerError>)
        requires
            old(ctx).memo.wf(),
        ensures
            final(ctx).memo.wf(),
            memo_extends(old(ctx).memo@, final(ctx).memo@),
            final(ctx).rule_set == old(ctx).rule_set,
            final(ctx).md_accessor == old(ctx).md_accessor,
            (final(ctx).memo@, final(self).tasks(), r) == run_spec(
                old(ctx).memo@,
                old(ctx).rule_set@,
                old(ctx).md_accessor,
                old(self).tasks(),
                MAX_TASKS as nat,
            ),
            r is Ok ==> final(self).tasks().len() == 0,
    {
        let ghost first = ctx.memo@;
        let ghost rules = ctx.rule_set@;
        let ghost md = ctx.md_accessor;
        let ghost want = run_spec(first, rules, md, self.tasks(), MAX_TASKS as nat);
        proof {
            lemma_memo_extends_reflexive(first);
        }
        let mut left: u64 = MAX_TASKS;
        loop
            invariant
                ctx.memo.wf(),
                memo_extends(first, ctx.memo@),
                first == old(ctx).memo@,
                ctx.rule_set == old(ctx).rule_set,
                ctx.md_accessor == old(ctx).md_accessor,
                rules == ctx.rule_set@,
                md == ctx.md_accessor,
                want == run_spec(first, rules, md, old(self).tasks(), MAX_TASKS as nat),
                want == run_spec(ctx.memo@, rules, md, self.tasks(), left as nat),
            decreases left,
        {
            if self.stack.len() == 0 {
                return Ok(());
            }
            if left == 0 {
                return Err(OptimizerError::NoPlan);
            }
            let ghost stack = self.tasks();
            let ghost mid = ctx.memo@;
            let task = match self.stack.pop() {
                Some(task) => task,
                None => {
                    return Ok(());
                },
            };
            assert(task@ == stack.last());
            assert(self.tasks() =~= stack.drop_last());
            left -= 1;
            match run_task(&mut ctx.memo, &ctx.rule_set, &ctx.md_accessor, task) {
                Ok(mut tasks) => {
                    let ghost below = self.tasks();
                    let ghost more = task_views(tasks@);
                    self.stack.append(&mut tasks);
                    proof {
                        assert(self.tasks() =~= below + more);
                        lemma_memo_extends_transitive(first, mid, ctx.memo@);
                    }
                },
                Err(e) => {
                    proof {
                        lemma_memo_extends_transitive(first, mid, ctx.memo@);
                    }
                    return Err(e);
                },
            }
        }
    }
}

/// Taking plans into a memo leaves the group of the whole plan as it is.
pub proof fn lemma_interned_keeps_root(m: MemoView, plan: PlanView)
    ensures
        m.interned(plan).0.root == m.root,
    decreases plan, 0nat,
{
    match plan {
        PlanView::Group(g) => {},
        PlanView::Node(op, inputs, required, Some(g)) => {},
        PlanView::Node(op, inputs, required, None) => {
            lemma_interned_all_keeps_root(m, inputs, inputs.len());
        },
    }
}

/// Taking plans into a memo leaves the group of the whole plan as it is.
pub proof fn lemma_interned_all_keeps_root(m: MemoView, inputs: Seq<PlanView>, n: nat)
    ensures
        m.interned_all(inputs, n).0.root == m.root,
    decreases inputs, n,
{
    if n == 0 || n > inputs.len() {
    } else {
        lemma_interned_all_keeps_root(m, inputs, (n - 1) as nat);
        let (m1, r) = m.interned_all(inputs, (n - 1) as nat);
        if r is Ok {
            lemma_interned_keeps_root(m1, inputs[n - 1]);
        }
    }
}

/// Taking a rule's plans into a group leaves the group of the whole plan as it is.
pub proof fn lemma_inserted_all_keeps_root(m: MemoView, g: int, plans: Seq<PlanView>, n: nat)
    ensures
        inserted_all(m, g, plans, n).0.root == m.root,
    decreases n,
{
    if n == 0 || n > plans.len() {
    } else {
        lemma_inserted_all_keeps_root(m, g, plans, (n - 1) as nat);
        let (m1, r) = inserted_all(m, g, plans, (n - 1) as nat);
        if r is Ok {
            match plans[n - 1] {
                PlanView::Group(_) => {},
                PlanView::Node(op, inputs, _, Some(_)) => {},
                PlanView::Node(op, inputs, _, None) => {
                    lemma_interned_all_keeps_root(m1, inputs, inputs.len());
                },
            }
        }
    }
}

/// Asking for statistics leaves the group of the whole plan as it is.
pub proof fn lemma_derived_keeps_root(m: MemoView, md: MdAccessor, g: int)
    ensures
        m.derived(md, g).root == m.root,
    decreases m.groups[g].rank, 1nat, 0nat,
{
    if !m.has_group(g) || m.groups[g].stats is Some || m.groups[g].logical.len() == 0 {
    } else {
        lemma_derived_inputs_keeps_root(m, md, g, m.groups[g].logical[0].children.len());
    }
}

/// Asking the inputs for statistics leaves the group of the whole plan as it is.
pub proof fn lemma_derived_inputs_keeps_root(m: MemoView, md: MdAccessor, g: int, n: nat)
    ensures
        m.derived_inputs(md, g, n).0.root == m.root,
    decreases m.groups[g].rank, 0nat, n,
{
    let e = m.groups[g].logical[0];
    if n == 0 || n > e.children.len() {
    } else {
        lemma_derived_inputs_keeps_root(m, md, g, (n - 1) as nat);
        let (m1, inputs) = m.derived_inputs(md, g, (n - 1) as nat);
        let c = e.children[n - 1] as int;
        if inputs.len() == n - 1 && m1.has_group(c) && m1.groups[c].rank < m.groups[g].rank {
            lemma_derived_keeps_root(m1, md, c);
        }
    }
}

/// Running a task leaves the group of the whole plan as it is.
pub proof fn lemma_task_keeps_root(m: MemoView, rules: Seq<Rule>, md: MdAccessor, task: TaskView)
    ensures
        task_spec(m, rules, md, task).memo.root == m.root,
{
    match task {
        TaskView::ApplyRule { group, expr, rule, required } => {
            if m.has_group(group as int) && expr < m.groups[group as int].logical.len() && !m.is_fired(
                group as int,
                rule_id_spec(rule),
            ) {
                let found = m.bindings(pattern_spec(rule), group, m.groups[group as int].logical[expr as int]);
                let plans = produced(rule, found, md, found.len());
                let marked = m.with_group(
                    group as int,
                    GroupView {
                        fired: m.groups[group as int].fired.push(rule_id_spec(rule)),
                        ..m.groups[group as int]
                    },
                );
                lemma_inserted_all_keeps_root(marked, group as int, plans, plans.len());
            }
        },
        TaskView::EnforceAndCost { group, required, costed } => {
            lemma_derived_keeps_root(m, md, group as int);
        },
        _ => {},
    }
}

/// Running tasks leaves the group of the whole plan as it is.
pub proof fn lemma_run_keeps_root(m: MemoView, rules: Seq<Rule>, md: MdAccessor, stack: Seq<TaskView>, fuel: nat)
    ensures
        run_spec(m, rules, md, stack, fuel).0.root == m.root,
    decreases fuel,
{
    if stack.len() == 0 || fuel == 0 {
    } else {
        let o = task_spec(m, rules, md, stack.last());
        lemma_task_keeps_root(m, rules, md, stack.last());
        if o.fault is None {
            lemma_run_keeps_root(o.memo, rules, md, stack.drop_last() + o.tasks, (fuel - 1) as nat);
        }
    }
}

/// A rule that was applied in a group is not applied there again: the
/// task to apply it leaves the memo as it is and schedules nothing.
pub proof fn lemma_applied_rule_rests(m: MemoView, md: MdAccessor, g: usize, expr: usize, rule: Rule, required: Seq<SortKey>)
    requires
        m.has_group(g as int),
        expr < m.groups[g as int].logical.len(),
        m.is_fired(g as int, rule_id_spec(rule)),
    ensures
        apply_rule_spec(m, md, g, expr, rule, required) == nothing(m),
{
}

/// A rule that is applied in a group is marked as applied there.
pub proof fn lemma_applied_rule_marked(m: MemoView, md: MdAccessor, g: usize, expr: usize, rule: Rule, required: Seq<SortKey>)
    requires
        m.wf(),
        m.has_group(g as int),
        expr < m.groups[g as int].logical.len(),
        !m.is_fired(g as int, rule_id_spec(rule)),
    ensures
        apply_rule_spec(m, md, g, expr, rule, required).memo.is_fired(g as int, rule_id_spec(rule)),
{
    let found = m.bindings(pattern_spec(rule), g, m.groups[g as int].logical[expr as int]);
    let plans = produced(rule, found, md, found.len());
    let id = rule_id_spec(rule);
    let marked = m.with_group(
        g as int,
        GroupView { fired: m.groups[g as int].fired.push(id), ..m.groups[g as int] },
    );
    assert(marked.groups[g as int].fired[m.groups[g as int].fired.len() as int] == id);
    assert(marked.is_fired(g as int, id));
    lemma_inserted_all_keeps_fired(marked, g as int, plans, plans.len(), id);
}

/// Taking plans into a memo adds groups behind those that it has, and
/// leaves those as they are.
pub proof fn lemma_interned_keeps_groups(m: MemoView, plan: PlanView, h: int)
    requires
        m.has_group(h),
    ensures
        m.interned(plan).0.has_group(h),
        m.interned(plan).0.groups[h] == m.groups[h],
    decreases plan, 0nat,
{
    match plan {
        PlanView::Group(g) => {},
        PlanView::Node(op, inputs, required, Some(g)) => {},
        PlanView::Node(op, inputs, required, None) => {
            lemma_interned_all_keeps_groups(m, inputs, inputs.len(), h);
        },
    }
}

/// Taking plans into a memo adds groups behind those that it has, and
/// leaves those as they are.
pub proof fn lemma_interned_all_keeps_groups(m: MemoView, inputs: Seq<PlanView>, n: nat, h: int)
    requires
        m.has_group(h),
    ensures
        m.interned_all(inputs, n).0.has_group(h),
        m.interned_all(inputs, n).0.groups[h] == m.groups[h],
    decreases inputs, n,
{
    if n == 0 || n > inputs.len() {
    } else {
        lemma_interned_all_keeps_groups(m, inputs, (n - 1) as nat, h);
        let (m1, r) = m.interned_all(inputs, (n - 1) as nat);
        if r is Ok {
            lemma_interned_keeps_groups(m1, inputs[n - 1], h);
        }
    }
}

/// Taking a rule's plans into a group leaves the rules that were applied
/// there marked.
pub proof fn lemma_inserted_all_keeps_fired(m: MemoView, g: int, plans: Seq<PlanView>, n: nat, id: usize)
    requires
        m.has_group(g),
        m.is_fired(g, id),
    ensures
        inserted_all(m, g, plans, n).0.has_group(g),
        inserted_all(m, g, plans, n).0.is_fired(g, id),
    decreases n,
{
    if n == 0 || n > plans.len() {
    } else {
        lemma_inserted_all_keeps_fired(m, g, plans, (n - 1) as nat, id);
        let (m1, r) = inserted_all(m, g, plans, (n - 1) as nat);
        if r is Ok {
            match plans[n - 1] {
                PlanView::Group(_) => {},
                PlanView::Node(op, inputs, _, Some(_)) => {},
                PlanView::Node(op, inputs, _, None) => {
                    lemma_interned_all_keeps_groups(m1, inputs, inputs.len(), g);
                },
            }
        }
    }
}

/// Once a plan was costed under a requirement that it meets, the table
/// has an entry for the requirement that costs no more than the plan.
pub proof fn lemma_costed_plan_bounds_winner(
    m: MemoView,
    g: usize,
    expr: usize,
    required: Seq<SortKey>,
    inputs: Seq<Seq<SortKey>>,
    delivered: Seq<SortKey>,
    cost: Cost,
)
    requires
        m.wf(),
        m.candidate(g as int, expr, required, inputs) == Some((delivered, cost)),
        satisfies_spec(delivered, required),
        !m.is_closed(g as int, required),
        inputs_closed(m, m.groups[g as int].physical[expr as int].children, inputs).index_of_first(false) is None,
    ensures
        ({
            let o = optimize_inputs_spec(m, g, expr, required, inputs);
            &&& o.fault is None
            &&& o.memo.has_winner(g as int, required)
            &&& o.memo.winner(g as int, required).cost.value <= cost.value
        }),
{
    let w = WinnerView { required, expr, delivered, inputs, cost };
    assert(m.group_ok(g as int));
    if m.improves(g as int, w) {
        crate::memo::lemma_table_change(m, g as int, w, required);
    }
}

/// A plan that costs no less than the entry for its requirement leaves
/// the table as it is: of two plans of one cost the first stays.
pub proof fn lemma_tie_keeps_first(
    m: MemoView,
    g: usize,
    expr: usize,
    required: Seq<SortKey>,
    inputs: Seq<Seq<SortKey>>,
    delivered: Seq<SortKey>,
    cost: Cost,
)
    requires
        m.has_winner(g as int, required),
        !m.is_closed(g as int, required),
        m.candidate(g as int, expr, required, inputs) == Some((delivered, cost)),
        cost.value >= m.winner(g as int, required).cost.value,
    ensures
        optimize_inputs_spec(m, g, expr, required, inputs).memo == m,
{
}

} // verus!
