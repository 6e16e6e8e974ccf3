use cso::cost::Cost;
use cso::expression::{ColumnVar, ScalarExpr};
use cso::metadata::{
    CachedMdProvider, IndexInfo, IndexMd, MdAccessor, MdCache, Metadata, RelationMetadata, RelationStats, Stats,
};
use cso::operator::catalog::{LogicalOp, PhysicalOp};
use cso::operator::logical_filter::LogicalFilter;
use cso::operator::logical_project::LogicalProject;
use cso::operator::logical_scan::{LogicalScan, TableDesc};
use cso::operator::PhysicalOperator;
use cso::property::{OrderSpec, PhysicalProperties, SortKey, SortProperty};
use cso::rules::{create_rule_set, Rule, RuleSet};
use cso::task::{
    apply_rule, enforce_and_cost, optimize_expression, optimize_group, optimize_inputs, run_task, Task, TaskRunner,
};
use cso::{LogicalPlan, Optimizer, OptimizerContext, OptimizerError, Options, PhysicalPlan};

fn columns() -> Vec<ColumnVar> {
    vec![ColumnVar::new(0), ColumnVar::new(1), ColumnVar::new(2)]
}

fn is_null(id: u32) -> ScalarExpr {
    ScalarExpr::is_null(ScalarExpr::column(id))
}

fn plan(predicate: ScalarExpr) -> LogicalPlan {
    let scan = LogicalPlan::new(LogicalOp::Scan(LogicalScan::new(TableDesc::new(2), columns())), vec![], vec![]);
    let filter = LogicalPlan::new(LogicalOp::Filter(LogicalFilter::new(predicate)), vec![scan], vec![]);
    let project = LogicalProject::new(vec![ScalarExpr::column(1), ScalarExpr::column(2)]);
    LogicalPlan::new(LogicalOp::Project(project), vec![filter], vec![])
}

fn accessor() -> MdAccessor {
    let mut cache = MdCache::new();
    cache.insert(1, Metadata::RelationStats(RelationStats::new("t1".to_string(), 9011, false, vec![])));
    cache.insert(2, Metadata::Relation(RelationMetadata::new("t1".to_string(), vec![], 1, vec![IndexInfo::new(4)])));
    cache.insert(4, Metadata::Index(IndexMd::new(4, "IDX_1".to_string(), vec![ColumnVar::new(0)], columns())));
    MdAccessor::new(CachedMdProvider::new(cache))
}

fn sorted(id: u32) -> PhysicalProperties {
    PhysicalProperties::with_property(SortProperty::with_order(OrderSpec { order_desc: vec![SortKey::new(id)] }))
}

fn nothing() -> PhysicalProperties {
    PhysicalProperties::new()
}

fn context(predicate: ScalarExpr) -> OptimizerContext {
    let mut ctx = OptimizerContext::new(accessor(), create_rule_set());
    ctx.memo_mut().init(plan(predicate)).unwrap();
    ctx
}

fn searched(predicate: ScalarExpr, required: PhysicalProperties) -> OptimizerContext {
    let mut ctx = context(predicate);
    let root = ctx.memo().root_group().unwrap();
    let mut runner = TaskRunner::new();
    runner.push_task(Task::OptimizeGroup { group: root, required });
    assert_eq!(runner.run(&mut ctx), Ok(()));
    ctx
}

#[test]
fn optimize_group_schedules_expressions_and_then_costing() {
    let ctx = context(is_null(0));
    let tasks = optimize_group(ctx.memo(), 2, &sorted(0)).unwrap();
    assert_eq!(tasks.len(), 2);
    assert!(matches!(&tasks[0], Task::EnforceAndCost { group: 2, costed: false, required } if required.equal(&sorted(0))));
    assert!(matches!(&tasks[1], Task::OptimizeExpression { group: 2, expr: 0, required } if required.equal(&sorted(0))));
    assert_eq!(optimize_group(ctx.memo(), 3, &nothing()).unwrap_err(), OptimizerError::InvariantViolation);
}

#[test]
fn optimize_group_rests_once_the_search_is_over() {
    let mut ctx = context(is_null(0));
    ctx.memo_mut().close(2, &sorted(0));
    assert!(optimize_group(ctx.memo(), 2, &sorted(0)).unwrap().is_empty());
    assert_eq!(optimize_group(ctx.memo(), 2, &nothing()).unwrap().len(), 2);
}

#[test]
fn optimize_expression_schedules_inputs_before_rules() {
    let ctx = context(is_null(0));
    let tasks = optimize_expression(ctx.memo(), ctx.rule_set(), 1, 0, &sorted(0)).unwrap();
    // the last is run first: the input, then the rules in their order
    assert_eq!(tasks.len(), 3);
    assert!(matches!(&tasks[2], Task::OptimizeGroup { group: 0, required } if required.is_empty()));
    assert!(matches!(&tasks[1], Task::ApplyRule { group: 1, expr: 0, rule: Rule::FilterToIndexScan, .. }));
    assert!(matches!(&tasks[0], Task::ApplyRule { group: 1, expr: 0, rule: Rule::ImplementFilter, .. }));
    let tasks = optimize_expression(ctx.memo(), ctx.rule_set(), 0, 0, &nothing()).unwrap();
    assert_eq!(tasks.len(), 1);
    assert!(matches!(&tasks[0], Task::ApplyRule { rule: Rule::ImplementScan, .. }));
    assert!(optimize_expression(ctx.memo(), ctx.rule_set(), 1, 1, &nothing()).is_err());
    assert!(optimize_expression(ctx.memo(), ctx.rule_set(), 5, 0, &nothing()).is_err());
}

#[test]
fn optimize_expression_passes_over_applied_rules() {
    let mut ctx = context(is_null(0));
    ctx.memo_mut().mark_fired(1, Rule::ImplementFilter.id());
    let tasks = optimize_expression(ctx.memo(), ctx.rule_set(), 1, 0, &nothing()).unwrap();
    assert_eq!(tasks.len(), 2);
    assert!(matches!(&tasks[0], Task::ApplyRule { rule: Rule::FilterToIndexScan, .. }));
}

#[test]
fn a_rule_is_applied_once_in_a_group() {
    let mut ctx = context(is_null(0));
    let md = accessor();
    let tasks = apply_rule(ctx.memo_mut(), &md, 1, 0, Rule::ImplementFilter, &nothing()).unwrap();
    assert!(tasks.is_empty());
    assert_eq!(ctx.memo().physical_count(1), 1);
    assert!(ctx.memo().is_fired(1, Rule::ImplementFilter.id()));
    let tasks = apply_rule(ctx.memo_mut(), &md, 1, 0, Rule::ImplementFilter, &nothing()).unwrap();
    assert!(tasks.is_empty());
    assert_eq!(ctx.memo().physical_count(1), 1);
    assert!(apply_rule(ctx.memo_mut(), &md, 1, 4, Rule::ImplementFilter, &nothing()).is_err());
}

#[test]
fn a_rule_that_makes_nothing_is_marked_too() {
    let mut ctx = context(is_null(1));
    let md = accessor();
    let tasks = apply_rule(ctx.memo_mut(), &md, 1, 0, Rule::FilterToIndexScan, &nothing()).unwrap();
    assert!(tasks.is_empty());
    assert_eq!(ctx.memo().logical_count(1), 1);
    assert!(ctx.memo().is_fired(1, Rule::FilterToIndexScan.id()));
}

#[test]
fn new_logical_expressions_are_scheduled() {
    let mut ctx = context(ScalarExpr::and(vec![is_null(0), is_null(1)]));
    let md = accessor();
    let tasks = apply_rule(ctx.memo_mut(), &md, 1, 0, Rule::FilterToIndexScan, &sorted(1)).unwrap();
    assert_eq!(tasks.len(), 1);
    assert!(matches!(&tasks[0], Task::OptimizeExpression { group: 1, expr: 1, required } if required.equal(&sorted(1))));
    assert_eq!(ctx.memo().logical_count(1), 2);
    // the index scan founded a group
    assert_eq!(ctx.memo().group_count(), 4);
    assert_eq!(ctx.memo().logical_expr(1, 1).children(), &vec![3]);
}

#[test]
fn enforce_and_cost_schedules_each_alternative() {
    let mut ctx = context(is_null(0));
    let md = accessor();
    apply_rule(ctx.memo_mut(), &md, 1, 0, Rule::ImplementFilter, &nothing()).unwrap();
    let tasks = enforce_and_cost(ctx.memo_mut(), &md, 1, &sorted(1), false).unwrap();
    assert_eq!(ctx.memo().statistics(1), Some(Stats::new(9011)));
    // no enforcer: the group is not that of the whole plan and holds no leaf
    assert_eq!(ctx.memo().physical_count(1), 1);
    assert_eq!(tasks.len(), 3);
    assert!(matches!(&tasks[0], Task::EnforceAndCost { group: 1, costed: true, .. }));
    assert!(matches!(&tasks[1], Task::OptimizeInputs { group: 1, expr: 0, inputs, .. } if inputs[0].is_empty()));
    assert!(matches!(&tasks[2], Task::OptimizeInputs { group: 1, expr: 0, inputs, .. } if inputs[0].equal(&sorted(1))));
    // once costed, the search is over
    assert!(enforce_and_cost(ctx.memo_mut(), &md, 1, &sorted(1), true).unwrap().is_empty());
    assert!(ctx.memo().is_closed(1, &sorted(1)));
    assert!(enforce_and_cost(ctx.memo_mut(), &md, 9, &sorted(1), false).is_err());
}

#[test]
fn enforcer_is_admitted_at_the_root_and_beside_an_access_path() {
    let mut ctx = context(is_null(0));
    let md = accessor();
    apply_rule(ctx.memo_mut(), &md, 0, 0, Rule::ImplementScan, &nothing()).unwrap();
    apply_rule(ctx.memo_mut(), &md, 1, 0, Rule::ImplementFilter, &nothing()).unwrap();
    apply_rule(ctx.memo_mut(), &md, 2, 0, Rule::ImplementProject, &nothing()).unwrap();
    // a group of a leaf alone gets none
    let tasks = enforce_and_cost(ctx.memo_mut(), &md, 0, &sorted(1), false).unwrap();
    assert_eq!(ctx.memo().physical_count(0), 1);
    assert_eq!(tasks.len(), 2);
    // nor does a group without a leaf
    enforce_and_cost(ctx.memo_mut(), &md, 1, &sorted(1), false).unwrap();
    assert_eq!(ctx.memo().physical_count(1), 1);
    // the index scan stands beside the filter that it took in
    apply_rule(ctx.memo_mut(), &md, 1, 0, Rule::FilterToIndexScan, &nothing()).unwrap();
    apply_rule(ctx.memo_mut(), &md, 1, 1, Rule::ImplementIndexScan, &nothing()).unwrap();
    assert_eq!(ctx.memo().physical_count(1), 2);
    let tasks = enforce_and_cost(ctx.memo_mut(), &md, 1, &sorted(1), false).unwrap();
    assert_eq!(ctx.memo().physical_count(1), 3);
    assert!(ctx.memo().physical_expr(1, 2).is_enforcer());
    assert_eq!(tasks.len(), 5);
    assert!(matches!(&tasks[0], Task::EnforceAndCost { group: 1, costed: true, .. }));
    assert!(matches!(&tasks[1], Task::OptimizeInputs { expr: 2, inputs, .. } if inputs[0].is_empty()));
    assert!(matches!(&tasks[2], Task::OptimizeInputs { expr: 1, inputs, .. } if inputs.is_empty()));
    assert!(matches!(&tasks[4], Task::OptimizeInputs { expr: 0, inputs, .. } if inputs[0].equal(&sorted(1))));
    // where nothing is required no enforcer comes
    enforce_and_cost(ctx.memo_mut(), &md, 1, &nothing(), false).unwrap();
    assert_eq!(ctx.memo().physical_count(1), 3);
    // at the root
    enforce_and_cost(ctx.memo_mut(), &md, 2, &sorted(1), false).unwrap();
    assert_eq!(ctx.memo().physical_count(2), 2);
    assert!(ctx.memo().physical_expr(2, 1).is_enforcer());
}

#[test]
fn without_statistics_nothing_is_costed() {
    let mut ctx = context(is_null(0));
    let md = accessor();
    apply_rule(ctx.memo_mut(), &md, 0, 0, Rule::ImplementScan, &nothing()).unwrap();
    let empty = MdAccessor::new(CachedMdProvider::new(MdCache::new()));
    let tasks = enforce_and_cost(ctx.memo_mut(), &empty, 0, &nothing(), false).unwrap();
    assert_eq!(tasks.len(), 1);
    assert!(matches!(&tasks[0], Task::EnforceAndCost { group: 0, costed: true, .. }));
    assert_eq!(ctx.memo().statistics(0), None);
}

#[test]
fn optimize_inputs_waits_for_the_first_open_input() {
    let mut ctx = context(is_null(0));
    let md = accessor();
    apply_rule(ctx.memo_mut(), &md, 1, 0, Rule::ImplementFilter, &nothing()).unwrap();
    enforce_and_cost(ctx.memo_mut(), &md, 1, &nothing(), false).unwrap();
    let tasks = optimize_inputs(ctx.memo_mut(), 1, 0, nothing(), vec![sorted(1)]).unwrap();
    assert_eq!(tasks.len(), 2);
    assert!(matches!(&tasks[1], Task::OptimizeGroup { group: 0, required } if required.equal(&sorted(1))));
    assert!(matches!(&tasks[0], Task::OptimizeInputs { group: 1, expr: 0, inputs, .. } if inputs[0].equal(&sorted(1))));
    // an input without a winner gives no plan
    ctx.memo_mut().close(0, &sorted(1));
    assert!(optimize_inputs(ctx.memo_mut(), 1, 0, nothing(), vec![sorted(1)]).unwrap().is_empty());
    assert!(ctx.memo().lookup(1, &nothing()).is_none());
    // one requirement for each input
    assert!(optimize_inputs(ctx.memo_mut(), 1, 0, nothing(), vec![]).is_err());
    assert!(optimize_inputs(ctx.memo_mut(), 1, 3, nothing(), vec![nothing()]).is_err());
}

#[test]
fn run_task_runs_each_kind() {
    let mut ctx = context(is_null(0));
    let md = accessor();
    let rules = create_rule_set();
    let tasks = run_task(ctx.memo_mut(), &rules, &md, Task::OptimizeGroup { group: 0, required: nothing() }).unwrap();
    assert_eq!(tasks.len(), 2);
    let task = Task::ApplyRule { group: 0, expr: 0, rule: Rule::ImplementScan, required: nothing() };
    assert!(run_task(ctx.memo_mut(), &rules, &md, task).unwrap().is_empty());
    assert_eq!(ctx.memo().physical_count(0), 1);
    let task = Task::EnforceAndCost { group: 0, required: nothing(), costed: false };
    assert_eq!(run_task(ctx.memo_mut(), &rules, &md, task).unwrap().len(), 2);
    let task = Task::OptimizeInputs { group: 0, expr: 0, required: nothing(), inputs: vec![] };
    assert!(run_task(ctx.memo_mut(), &rules, &md, task).unwrap().is_empty());
    assert_eq!(ctx.memo().lookup(0, &nothing()).unwrap().cost(), Cost::new(90210));
}

#[test]
fn search_records_costs_of_whole_plans() {
    // project over index scan
    let ctx = searched(is_null(0), sorted(0));
    let entry = ctx.memo().lookup(2, &sorted(0)).unwrap();
    assert_eq!(entry.cost(), Cost::new(9011 + 9011 * 6 + 50));
    assert!(entry.delivered().equal(&sorted(0)));
    assert!(entry.input_required()[0].equal(&sorted(0)));
    assert!(ctx.memo().is_closed(2, &sorted(0)));
    assert!(ctx.memo().is_closed(1, &sorted(0)));
    assert!(ctx.memo().is_closed(1, &nothing()));
    // sort over project over filter over scan
    let ctx = searched(is_null(1), sorted(0));
    let entry = ctx.memo().lookup(2, &sorted(0)).unwrap();
    assert_eq!(entry.cost(), Cost::new(9011 * 13 * 2 + 9011 + 9011 + 90210));
    assert!(ctx.memo().physical_expr(2, entry.expr()).is_enforcer());
    assert!(entry.input_required()[0].is_empty());
}

#[test]
fn every_recorded_entry_delivers_what_was_required() {
    let ctx = searched(ScalarExpr::and(vec![is_null(0), is_null(1)]), sorted(1));
    let memo = ctx.memo();
    for group in 0..memo.group_count() {
        for required in [nothing(), sorted(0), sorted(1)] {
            if let Some(entry) = memo.lookup(group, &required) {
                assert!(entry.delivered().satisfies(&required));
                let (delivered, cost) =
                    memo.candidate(group, entry.expr(), &required, entry.input_required()).unwrap();
                assert!(delivered.equal(entry.delivered()));
                assert_eq!(cost, entry.cost());
                let expr = memo.physical_expr(group, entry.expr());
                assert_eq!(expr.children().len(), expr.operator().arity());
                assert!(memo.extract(group, &required).is_some());
            }
        }
    }
}

#[test]
fn a_fault_ends_the_run() {
    let mut ctx = context(is_null(0));
    let mut runner = TaskRunner::new();
    runner.push_task(Task::OptimizeGroup { group: 0, required: nothing() });
    runner.push_task(Task::OptimizeGroup { group: 7, required: nothing() });
    assert_eq!(runner.run(&mut ctx), Err(OptimizerError::InvariantViolation));
    assert!(!ctx.memo().is_closed(0, &nothing()));
}

#[test]
fn two_optimizations_give_the_same_plan() {
    let run = || -> Result<PhysicalPlan, OptimizerError> {
        let mut optimizer = Optimizer::new(Options::default());
        optimizer.optimize(
            plan(ScalarExpr::and(vec![is_null(0), is_null(1)])),
            sorted(1),
            accessor(),
            create_rule_set(),
        )
    };
    let first = run();
    assert!(first.is_ok());
    assert_eq!(first, run());
}

fn delivered(plan: &PhysicalPlan) -> PhysicalProperties {
    let below: Vec<PhysicalProperties> = plan.inputs().iter().map(delivered).collect();
    plan.operator().derive_output_properties(&below)
}

fn arity_holds(plan: &PhysicalPlan) -> bool {
    plan.inputs().len() == plan.operator().arity() && plan.inputs().iter().all(arity_holds)
}

#[test]
fn the_plan_delivers_what_was_required() {
    for (predicate, id) in [
        (is_null(0), 0),
        (is_null(1), 0),
        (ScalarExpr::and(vec![is_null(0), is_null(1)]), 0),
        (is_null(0), 1),
        (ScalarExpr::and(vec![is_null(0), is_null(1)]), 1),
        (is_null(2), 2),
    ] {
        let mut optimizer = Optimizer::new(Options::default());
        let best = optimizer.optimize(plan(predicate), sorted(id), accessor(), create_rule_set()).unwrap();
        assert!(delivered(&best).satisfies(&sorted(id)));
        assert!(arity_holds(&best));
    }
}

#[test]
fn nothing_required_needs_no_sort() {
    let mut optimizer = Optimizer::new(Options::default());
    let best = optimizer.optimize(plan(is_null(1)), nothing(), accessor(), create_rule_set()).unwrap();
    assert!(matches!(best.operator(), PhysicalOp::Project(_)));
    assert!(matches!(best.inputs()[0].operator(), PhysicalOp::Filter(_)));
    assert!(matches!(best.inputs()[0].inputs()[0].operator(), PhysicalOp::Scan(_)));
}

#[test]
fn malformed_plan_is_refused() {
    let childless = LogicalPlan::new(LogicalOp::Filter(LogicalFilter::new(is_null(0))), vec![], vec![]);
    let mut optimizer = Optimizer::new(Options::default());
    assert_eq!(
        optimizer.optimize(childless, nothing(), accessor(), create_rule_set()),
        Err(OptimizerError::MalformedInput)
    );
}

#[test]
fn a_relation_that_the_metadata_lacks_has_no_plan() {
    let empty = MdAccessor::new(CachedMdProvider::new(MdCache::new()));
    let mut optimizer = Optimizer::new(Options::default());
    assert_eq!(
        optimizer.optimize(plan(is_null(0)), nothing(), empty, create_rule_set()),
        Err(OptimizerError::NoPlan)
    );
}

#[test]
fn without_rules_there_is_no_plan() {
    for required in [nothing(), sorted(0), sorted(1)] {
        let mut optimizer = Optimizer::new(Options::default());
        assert_eq!(
            optimizer.optimize(plan(is_null(0)), required, accessor(), RuleSet::new()),
            Err(OptimizerError::NoPlan)
        );
    }
    let empty = MdAccessor::new(CachedMdProvider::new(MdCache::new()));
    let mut optimizer = Optimizer::new(Options::default());
    assert_eq!(
        optimizer.optimize(plan(is_null(1)), sorted(0), empty, RuleSet::new()),
        Err(OptimizerError::NoPlan)
    );
}

#[test]
fn rules_that_implement_a_part_give_no_plan() {
    let mut rules = RuleSet::new();
    rules.push(Rule::ImplementScan);
    rules.push(Rule::ImplementFilter);
    let mut optimizer = Optimizer::new(Options::default());
    assert_eq!(optimizer.optimize(plan(is_null(0)), nothing(), accessor(), rules), Err(OptimizerError::NoPlan));
}
