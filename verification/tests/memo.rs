use cso::cost::Cost;
use cso::expression::{ColumnVar, ScalarExpr};
use cso::memo::{Added, GroupExpr, Memo};
use cso::metadata::{CachedMdProvider, MdAccessor, MdCache, Metadata, RelationMetadata, RelationStats, Stats};
use cso::operator::catalog::{LogicalOp, Operator, PhysicalOp};
use cso::operator::logical_filter::LogicalFilter;
use cso::operator::logical_project::LogicalProject;
use cso::operator::logical_scan::{LogicalScan, TableDesc};
use cso::operator::physical_filter::PhysicalFilter;
use cso::operator::physical_scan::PhysicalScan;
use cso::property::{OrderSpec, PhysicalProperties, SortKey, SortProperty};
use cso::{LogicalPlan, OptimizerError, PhysicalPlan, Plan};

fn columns() -> Vec<ColumnVar> {
    vec![ColumnVar::new(0), ColumnVar::new(1), ColumnVar::new(2)]
}

fn scan_op(table: u64) -> LogicalOp {
    LogicalOp::Scan(LogicalScan::new(TableDesc::new(table), columns()))
}

fn filter_op(id: u32) -> LogicalOp {
    LogicalOp::Filter(LogicalFilter::new(ScalarExpr::is_null(ScalarExpr::column(id))))
}

fn scan_plan() -> LogicalPlan {
    LogicalPlan::new(scan_op(2), vec![], vec![])
}

fn filter_plan(id: u32) -> LogicalPlan {
    LogicalPlan::new(filter_op(id), vec![scan_plan()], vec![])
}

fn physical_scan() -> Operator {
    Operator::Physical(PhysicalOp::Scan(PhysicalScan::new(TableDesc::new(2), columns())))
}

fn physical_filter(id: u32) -> Operator {
    Operator::Physical(PhysicalOp::Filter(PhysicalFilter::new(ScalarExpr::is_null(ScalarExpr::column(id)))))
}

fn sorted(id: u32) -> PhysicalProperties {
    PhysicalProperties::with_property(SortProperty::with_order(OrderSpec { order_desc: vec![SortKey::new(id)] }))
}

fn nothing() -> PhysicalProperties {
    PhysicalProperties::new()
}

fn accessor() -> MdAccessor {
    let mut cache = MdCache::new();
    cache.insert(1, Metadata::RelationStats(RelationStats::new("t1".to_string(), 9011, false, vec![])));
    cache.insert(2, Metadata::Relation(RelationMetadata::new("t1".to_string(), vec![], 1, vec![])));
    MdAccessor::new(CachedMdProvider::new(cache))
}

#[test]
fn new_memo_is_empty() {
    let memo = Memo::new();
    assert_eq!(memo.group_count(), 0);
    assert_eq!(memo.root_group(), None);
    assert!(memo.lookup(0, &nothing()).is_none());
    assert!(!memo.is_closed(0, &nothing()));
    assert!(!memo.is_fired(0, 0));
    assert_eq!(memo.extract_best_plan(&nothing()), Err(OptimizerError::NoPlan));
}

#[test]
fn init_makes_a_group_for_each_node_inputs_first() {
    let mut memo = Memo::new();
    assert_eq!(memo.init(filter_plan(0)), Ok(()));
    assert_eq!(memo.group_count(), 2);
    assert_eq!(memo.root_group(), Some(1));
    assert_eq!(memo.logical_count(0), 1);
    assert_eq!(memo.logical_count(1), 1);
    assert_eq!(memo.physical_count(1), 0);
    assert_eq!(memo.logical_expr(1, 0).children(), &vec![0]);
    assert!(memo.logical_expr(0, 0).children().is_empty());
    assert!(memo.logical_expr(1, 0).operator().is_logical());
    assert!(!memo.logical_expr(1, 0).is_enforcer());
    assert_eq!(memo.rank(0), 0);
    assert_eq!(memo.rank(1), 1);
    assert_eq!(memo.statistics(1), None);
}

#[test]
fn init_shares_equal_expressions() {
    let mut memo = Memo::new();
    assert_eq!(memo.intern(scan_plan().plan()), Ok(0));
    assert_eq!(memo.intern(scan_plan().plan()), Ok(0));
    assert_eq!(memo.intern(filter_plan(0).plan()), Ok(1));
    assert_eq!(memo.intern(filter_plan(1).plan()), Ok(2));
    assert_eq!(memo.intern(filter_plan(0).plan()), Ok(1));
    assert_eq!(memo.group_count(), 3);
    assert_eq!(memo.root_group(), None);
    assert_eq!(memo.find_expr(&Operator::Logical(filter_op(1)), &vec![0]), Some(2));
    assert_eq!(memo.find_expr(&Operator::Logical(filter_op(1)), &vec![1]), None);
    assert_eq!(memo.find_expr(&Operator::Logical(filter_op(2)), &vec![0]), None);
}

#[test]
fn init_refuses_a_node_with_the_wrong_number_of_inputs() {
    let mut memo = Memo::new();
    let childless = LogicalPlan::new(filter_op(0), vec![], vec![]);
    assert_eq!(memo.init(childless), Err(OptimizerError::MalformedInput));
    assert_eq!(memo.group_count(), 0);

    let mut memo = Memo::new();
    let crowded = LogicalPlan::new(scan_op(2), vec![scan_plan()], vec![]);
    assert_eq!(memo.init(crowded), Err(OptimizerError::MalformedInput));
    assert_eq!(memo.root_group(), None);

    let mut memo = Memo::new();
    let project = LogicalOp::Project(LogicalProject::new(vec![ScalarExpr::column(1)]));
    let deep = LogicalPlan::new(project, vec![LogicalPlan::new(filter_op(0), vec![], vec![])], vec![]);
    assert_eq!(memo.init(deep), Err(OptimizerError::MalformedInput));
}

#[test]
fn intern_refuses_a_group_that_is_not_there() {
    let mut memo = Memo::new();
    assert_eq!(memo.intern(&Plan::group(0)), Err(OptimizerError::MalformedInput));
    assert_eq!(memo.intern(scan_plan().plan()), Ok(0));
    assert_eq!(memo.intern(&Plan::group(0)), Ok(0));
    // a node that carries its group stands for that group
    assert_eq!(memo.intern(&Plan::new(Operator::Logical(filter_op(0)), vec![], Some(0))), Ok(0));
    assert_eq!(
        memo.intern(&Plan::new(Operator::Logical(filter_op(0)), vec![], Some(4))),
        Err(OptimizerError::MalformedInput)
    );
    assert_eq!(memo.group_count(), 1);
}

#[test]
fn add_group_refuses_physical_founders() {
    let mut memo = Memo::new();
    assert_eq!(memo.add_group(GroupExpr::new(physical_scan(), vec![]), vec![]), Err(OptimizerError::MalformedInput));
    assert_eq!(
        memo.add_group(GroupExpr::new(Operator::Logical(filter_op(0)), vec![3]), vec![]),
        Err(OptimizerError::MalformedInput)
    );
    assert_eq!(memo.add_group(GroupExpr::new(Operator::Logical(scan_op(2)), vec![]), vec![sorted(0)]), Ok(0));
}

#[test]
fn add_expr_appends_and_skips_what_the_memo_holds() {
    let mut memo = Memo::new();
    memo.init(filter_plan(0)).unwrap();
    assert_eq!(memo.add_expr(0, GroupExpr::new(physical_scan(), vec![])), Ok(Some(0)));
    assert_eq!(memo.add_expr(0, GroupExpr::new(physical_scan(), vec![])), Ok(None));
    assert_eq!(memo.add_expr(1, GroupExpr::new(physical_filter(0), vec![0])), Ok(Some(0)));
    assert_eq!(memo.add_expr(1, GroupExpr::new(physical_filter(1), vec![0])), Ok(Some(1)));
    assert_eq!(memo.add_expr(1, GroupExpr::new(Operator::Logical(filter_op(1)), vec![0])), Ok(Some(1)));
    assert_eq!(memo.add_expr(1, GroupExpr::new(Operator::Logical(filter_op(0)), vec![0])), Ok(None));
    assert_eq!(memo.physical_count(1), 2);
    assert_eq!(memo.logical_count(1), 2);
    assert!(memo.physical_expr(1, 1).operator().is_physical());
}

#[test]
fn add_expr_refuses_what_breaks_the_rules() {
    let mut memo = Memo::new();
    memo.init(filter_plan(0)).unwrap();
    // no such group
    assert_eq!(memo.add_expr(2, GroupExpr::new(physical_scan(), vec![])), Err(OptimizerError::InvariantViolation));
    // the wrong number of inputs
    assert_eq!(memo.add_expr(1, GroupExpr::new(physical_filter(0), vec![])), Err(OptimizerError::InvariantViolation));
    // an input that does not rank lower
    assert_eq!(memo.add_expr(1, GroupExpr::new(physical_filter(0), vec![1])), Err(OptimizerError::InvariantViolation));
    assert_eq!(memo.add_expr(0, GroupExpr::new(physical_filter(0), vec![1])), Err(OptimizerError::InvariantViolation));
    // an input that is not there
    assert_eq!(memo.add_expr(1, GroupExpr::new(physical_filter(0), vec![9])), Err(OptimizerError::InvariantViolation));
    assert_eq!(memo.physical_count(1), 0);
}

#[test]
fn insert_plan_takes_inputs_in_and_adds_the_root() {
    let mut memo = Memo::new();
    memo.init(filter_plan(0)).unwrap();
    let physical = Plan::new(physical_filter(0), vec![Plan::group(0)], None);
    assert_eq!(memo.insert_plan(1, &physical), Ok(Added::Physical(0)));
    assert_eq!(memo.insert_plan(1, &physical), Ok(Added::Nothing));
    // a new logical expression over a new group
    let other_scan = Plan::new(Operator::Logical(scan_op(7)), vec![], None);
    let over = Plan::new(Operator::Logical(filter_op(1)), vec![other_scan], None);
    assert_eq!(memo.insert_plan(1, &over), Ok(Added::Logical(1)));
    assert_eq!(memo.group_count(), 3);
    assert_eq!(memo.logical_expr(1, 1).children(), &vec![2]);
    // a bare group is no expression
    assert_eq!(memo.insert_plan(1, &Plan::group(0)), Err(OptimizerError::InvariantViolation));
    // a plan that carries its group is held already
    let held = Plan::new(physical_filter(9), vec![Plan::group(0)], Some(1));
    assert_eq!(memo.insert_plan(1, &held), Ok(Added::Nothing));
    assert_eq!(memo.physical_count(1), 1);
    let stray = Plan::new(physical_filter(9), vec![Plan::group(0)], Some(8));
    assert_eq!(memo.insert_plan(1, &stray), Err(OptimizerError::InvariantViolation));
    // an input that is not there
    let lost = Plan::new(physical_filter(0), vec![Plan::group(5)], None);
    assert_eq!(memo.insert_plan(1, &lost), Err(OptimizerError::InvariantViolation));
    // the group itself as input
    let cyclic = Plan::new(physical_filter(3), vec![Plan::group(1)], None);
    assert_eq!(memo.insert_plan(1, &cyclic), Err(OptimizerError::InvariantViolation));
}

#[test]
fn mark_fired_marks_once() {
    let mut memo = Memo::new();
    memo.init(scan_plan()).unwrap();
    assert!(!memo.is_fired(0, 3));
    assert!(memo.mark_fired(0, 3));
    assert!(memo.is_fired(0, 3));
    assert!(!memo.mark_fired(0, 3));
    assert!(memo.mark_fired(0, 4));
    assert!(!memo.mark_fired(1, 3));
    assert!(!memo.is_fired(1, 3));
}

#[test]
fn close_ends_the_search_under_one_requirement() {
    let mut memo = Memo::new();
    memo.init(scan_plan()).unwrap();
    assert!(!memo.is_closed(0, &sorted(0)));
    memo.close(0, &sorted(0));
    assert!(memo.is_closed(0, &sorted(0)));
    assert!(!memo.is_closed(0, &sorted(1)));
    assert!(!memo.is_closed(0, &nothing()));
    memo.close(4, &nothing());
    assert!(!memo.is_closed(4, &nothing()));
}

#[test]
fn statistics_are_derived_from_the_inputs_and_kept() {
    let mut memo = Memo::new();
    memo.init(filter_plan(0)).unwrap();
    let md = accessor();
    assert_eq!(memo.statistics(0), None);
    assert_eq!(memo.derive_statistics(&md, 1), Some(Stats::new(9011)));
    assert_eq!(memo.statistics(0), Some(Stats::new(9011)));
    assert_eq!(memo.statistics(1), Some(Stats::new(9011)));
    // what is kept is not derived again
    let empty = MdAccessor::new(CachedMdProvider::new(MdCache::new()));
    assert_eq!(memo.derive_statistics(&empty, 1), Some(Stats::new(9011)));
    assert_eq!(memo.derive_statistics(&empty, 9), None);
}

#[test]
fn statistics_fail_without_metadata() {
    let mut memo = Memo::new();
    memo.init(filter_plan(0)).unwrap();
    let empty = MdAccessor::new(CachedMdProvider::new(MdCache::new()));
    assert_eq!(memo.derive_statistics(&empty, 1), None);
    assert_eq!(memo.statistics(0), None);
    assert_eq!(memo.statistics(1), None);
}

fn costed_scan() -> Memo {
    let mut memo = Memo::new();
    memo.init(filter_plan(0)).unwrap();
    memo.add_expr(0, GroupExpr::new(physical_scan(), vec![])).unwrap();
    memo.add_expr(1, GroupExpr::new(physical_filter(0), vec![0])).unwrap();
    memo.derive_statistics(&accessor(), 1);
    memo
}

#[test]
fn candidate_costs_an_expression_over_closed_inputs() {
    let mut memo = costed_scan();
    let (delivered, cost) = memo.candidate(0, 0, &nothing(), &vec![]).unwrap();
    assert!(delivered.is_empty());
    assert_eq!(cost, Cost::new(90210));
    // the input of the filter has no winner, and its search is not over
    assert!(memo.candidate(1, 0, &nothing(), &vec![nothing()]).is_none());
    assert_eq!(memo.update(0, nothing(), 0, nothing(), vec![], Cost::new(90210)), Ok(true));
    assert!(memo.candidate(1, 0, &nothing(), &vec![nothing()]).is_none());
    memo.close(0, &nothing());
    let (delivered, cost) = memo.candidate(1, 0, &nothing(), &vec![nothing()]).unwrap();
    assert!(delivered.is_empty());
    assert_eq!(cost, Cost::new(9011 + 90210));
    // one requirement for each input
    assert!(memo.candidate(1, 0, &nothing(), &vec![]).is_none());
    assert!(memo.candidate(1, 1, &nothing(), &vec![nothing()]).is_none());
    assert!(memo.candidate(2, 0, &nothing(), &vec![]).is_none());
}

#[test]
fn update_installs_and_then_only_betters() {
    let mut memo = costed_scan();
    assert!(memo.lookup(0, &nothing()).is_none());
    assert_eq!(memo.update(0, nothing(), 0, nothing(), vec![], Cost::new(90210)), Ok(true));
    let entry = memo.lookup(0, &nothing()).unwrap();
    assert_eq!(entry.cost(), Cost::new(90210));
    assert_eq!(entry.expr(), 0);
    assert!(entry.delivered().is_empty());
    assert!(entry.required().is_empty());
    assert!(entry.input_required().is_empty());
    // the same plan again does not better the table
    assert_eq!(memo.update(0, nothing(), 0, nothing(), vec![], Cost::new(90210)), Ok(false));
    assert_eq!(memo.lookup(0, &nothing()).unwrap().cost(), Cost::new(90210));
    assert!(memo.lookup(0, &sorted(0)).is_none());
}

#[test]
fn update_refuses_what_is_not_so() {
    let mut memo = costed_scan();
    // a cost that the plan does not have
    assert_eq!(
        memo.update(0, nothing(), 0, nothing(), vec![], Cost::new(1)),
        Err(OptimizerError::InvariantViolation)
    );
    // properties that the plan does not deliver
    assert_eq!(
        memo.update(0, nothing(), 0, sorted(0), vec![], Cost::new(90210)),
        Err(OptimizerError::InvariantViolation)
    );
    // a requirement that the plan does not meet
    assert_eq!(
        memo.update(0, sorted(0), 0, nothing(), vec![], Cost::new(90210)),
        Err(OptimizerError::InvariantViolation)
    );
    // an input whose table has no entry for what is asked of it
    assert_eq!(
        memo.update(1, nothing(), 0, nothing(), vec![nothing()], Cost::new(99221)),
        Err(OptimizerError::InvariantViolation)
    );
    // no such expression, no such group
    assert_eq!(
        memo.update(0, nothing(), 5, nothing(), vec![], Cost::new(90210)),
        Err(OptimizerError::InvariantViolation)
    );
    assert_eq!(
        memo.update(7, nothing(), 0, nothing(), vec![], Cost::new(90210)),
        Err(OptimizerError::InvariantViolation)
    );
    // a search that is over
    memo.close(0, &nothing());
    assert_eq!(
        memo.update(0, nothing(), 0, nothing(), vec![], Cost::new(90210)),
        Err(OptimizerError::InvariantViolation)
    );
    assert!(memo.lookup(0, &nothing()).is_none());
}

#[test]
fn enforcer_comes_into_the_group_once() {
    let mut memo = costed_scan();
    assert_eq!(memo.add_enforcer(0, &nothing()), None);
    assert_eq!(memo.add_enforcer(5, &sorted(0)), None);
    assert_eq!(memo.add_enforcer(0, &sorted(0)), Some(1));
    assert_eq!(memo.add_enforcer(0, &sorted(0)), Some(1));
    assert_eq!(memo.add_enforcer(0, &sorted(1)), Some(2));
    assert_eq!(memo.physical_count(0), 3);
    assert!(memo.physical_expr(0, 1).is_enforcer());
    assert_eq!(memo.physical_expr(0, 1).children(), &vec![0]);
}

#[test]
fn enforcer_wins_over_the_plan_of_its_own_group() {
    let mut memo = costed_scan();
    memo.update(0, nothing(), 0, nothing(), vec![], Cost::new(90210)).unwrap();
    let sort = memo.add_enforcer(0, &sorted(1)).unwrap();
    // the search under the empty requirement is not over
    assert!(memo.candidate(0, sort, &sorted(1), &vec![nothing()]).is_none());
    memo.close(0, &nothing());
    // an enforcer is not run where nothing is required
    assert!(memo.candidate(0, sort, &nothing(), &vec![nothing()]).is_none());
    let (delivered, cost) = memo.candidate(0, sort, &sorted(1), &vec![nothing()]).unwrap();
    assert!(delivered.equal(&sorted(1)));
    assert_eq!(cost, Cost::new(9011 * 13 * 2 + 90210));
    assert_eq!(memo.update(0, sorted(1), sort, delivered, vec![nothing()], cost), Ok(true));

    let plan = memo.extract(0, &sorted(1)).unwrap();
    assert_eq!(plan.inputs().len(), 1);
    assert!(matches!(plan.operator(), PhysicalOp::Sort(_)));
    assert!(matches!(plan.inputs()[0].operator(), PhysicalOp::Scan(_)));
    assert!(memo.extract(0, &sorted(0)).is_none());
    assert!(memo.extract(3, &nothing()).is_none());
}

#[test]
fn best_plan_is_walked_from_the_root() {
    let mut memo = costed_scan();
    memo.update(0, nothing(), 0, nothing(), vec![], Cost::new(90210)).unwrap();
    memo.close(0, &nothing());
    assert_eq!(memo.extract_best_plan(&nothing()), Err(OptimizerError::NoPlan));
    memo.update(1, nothing(), 0, nothing(), vec![nothing()], Cost::new(99221)).unwrap();
    let expected = PhysicalPlan::new(
        PhysicalOp::Filter(PhysicalFilter::new(ScalarExpr::is_null(ScalarExpr::column(0)))),
        vec![PhysicalPlan::new(PhysicalOp::Scan(PhysicalScan::new(TableDesc::new(2), columns())), vec![])],
    );
    assert_eq!(memo.extract_best_plan(&nothing()), Ok(expected));
    assert_eq!(memo.extract_best_plan(&sorted(0)), Err(OptimizerError::NoPlan));
}

#[test]
fn enforcer_is_the_sort_that_the_property_names() {
    let made = cso::memo::make_enforcer(&sorted(1), 3);
    assert_eq!(made.len(), 1);
    assert!(made[0].is_enforcer());
    assert_eq!(made[0].children(), &vec![3]);
    match made[0].operator() {
        Operator::Physical(PhysicalOp::Sort(sort)) => {
            assert!(sort.order_spec().equal(&OrderSpec { order_desc: vec![SortKey::new(1)] }))
        }
        _ => panic!("a sort"),
    }
    assert!(cso::memo::make_enforcer(&nothing(), 3).is_empty());
    let property = SortProperty::with_order(OrderSpec { order_desc: vec![SortKey::new(2), SortKey::new(0)] });
    assert!(property.enforcer_operator().order_spec().equal(property.order()));
    assert!(sorted(1).sort_property().is_some());
    assert!(nothing().sort_property().is_none());
}

#[test]
fn requirements_of_the_plan_are_kept_on_the_group() {
    let mut memo = Memo::new();
    let scan = LogicalPlan::new(scan_op(2), vec![], vec![sorted(2)]);
    let filter = LogicalPlan::new(filter_op(0), vec![scan], vec![sorted(0), sorted(1)]);
    memo.init(filter).unwrap();
    assert_eq!(memo.required_properties(0).len(), 1);
    assert!(memo.required_properties(0)[0].equal(&sorted(2)));
    assert_eq!(memo.required_properties(1).len(), 2);
    assert!(memo.required_properties(1)[1].equal(&sorted(1)));
}
