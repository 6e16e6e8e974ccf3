use cso::column_set::ColumnRefSet;
use cso::expression::{ColumnVar, ScalarExpr};
use cso::operator::catalog::{LogicalOp, Operator, PhysicalOp};
use cso::operator::logical_filter::LogicalFilter;
use cso::operator::logical_project::LogicalProject;
use cso::operator::logical_scan::{LogicalScan, TableDesc};
use cso::operator::physical_scan::PhysicalScan;
use cso::operator::physical_sort::PhysicalSort;
use cso::operator::{LogicalOperator, OperatorId, PhysicalOperator};
use cso::property::{OrderSpec, PhysicalProperties, SortKey, SortProperty};
use cso::{LogicalPlan, PhysicalPlan, Plan};

fn scan(table: u64) -> PhysicalPlan {
    PhysicalPlan::new(PhysicalOp::Scan(PhysicalScan::new(TableDesc::new(table), vec![ColumnVar::new(0)])), vec![])
}

fn sort(id: u32, input: PhysicalPlan) -> PhysicalPlan {
    PhysicalPlan::new(PhysicalOp::Sort(PhysicalSort::new(OrderSpec { order_desc: vec![SortKey::new(id)] })), vec![input])
}

#[test]
fn physical_plans_are_compared_by_structure() {
    assert_eq!(sort(1, scan(2)), sort(1, scan(2)));
    assert_ne!(sort(1, scan(2)), sort(0, scan(2)));
    assert_ne!(sort(1, scan(2)), sort(1, scan(3)));
    assert_ne!(sort(1, scan(2)), scan(2));
    assert_ne!(sort(1, scan(2)), sort(1, sort(1, scan(2))));
    assert!(sort(1, scan(2)).equal(&sort(1, scan(2))));
}

#[test]
fn physical_plan_gives_its_parts() {
    let plan = sort(1, scan(2));
    assert_eq!(plan.operator().operator_id(), OperatorId::PhysicalSort);
    assert_eq!(plan.operator().name(), "physical sort");
    assert_eq!(plan.inputs().len(), 1);
    assert_eq!(plan.inputs()[0], scan(2));
    assert_eq!(plan.operator().arity(), 1);
}

#[test]
fn operator_tells_its_side() {
    let logical = Operator::Logical(LogicalOp::Scan(LogicalScan::new(TableDesc::new(2), vec![])));
    let physical = Operator::Physical(PhysicalOp::Scan(PhysicalScan::new(TableDesc::new(2), vec![])));
    assert!(logical.is_logical());
    assert!(!logical.is_physical());
    assert!(physical.is_physical());
    assert!(!physical.is_logical());
    assert_eq!(logical.logical_op().name(), "logical scan");
    assert_eq!(physical.physical_op().name(), "physical scan");
    assert_eq!(logical.operator_id(), OperatorId::LogicalScan);
    assert_eq!(physical.operator_id(), OperatorId::PhysicalScan);
    assert!(!logical.equal(&physical));
    assert!(logical.equal(&logical.clone()));
    assert_eq!(logical.arity(), 0);
}

#[test]
fn logical_plan_keeps_its_requirements() {
    let order = PhysicalProperties::with_property(SortProperty::with_order(OrderSpec { order_desc: vec![SortKey::new(1)] }));
    let plan = LogicalPlan::new(LogicalOp::Scan(LogicalScan::new(TableDesc::new(2), vec![])), vec![], vec![order.clone()]);
    assert_eq!(plan.required_properties().len(), 1);
    assert!(plan.required_properties()[0].equal(&order));
    assert_eq!(plan.plan().input_count(), 0);
}

#[test]
fn logical_plan_keeps_the_order_of_its_inputs() {
    let a = LogicalPlan::new(LogicalOp::Scan(LogicalScan::new(TableDesc::new(1), vec![])), vec![], vec![]);
    let b = LogicalPlan::new(LogicalOp::Scan(LogicalScan::new(TableDesc::new(2), vec![])), vec![], vec![]);
    let c = LogicalPlan::new(LogicalOp::Scan(LogicalScan::new(TableDesc::new(3), vec![])), vec![], vec![]);
    let project = LogicalOp::Project(LogicalProject::new(vec![]));
    let plan = LogicalPlan::new(project, vec![a, b, c], vec![]);
    let tables: Vec<u64> = (0..3)
        .map(|i| match plan.plan().input(i).operator() {
            Some(Operator::Logical(LogicalOp::Scan(s))) => s.table_desc().mdid(),
            _ => 0,
        })
        .collect();
    assert_eq!(tables, vec![1, 2, 3]);
}

#[test]
fn plan_leaf_stands_for_a_group() {
    let leaf = Plan::group(4);
    assert_eq!(leaf.group_plan(), Some(4));
    assert!(leaf.operator().is_none());
    assert_eq!(leaf.input_count(), 0);
    let node = Plan::new(Operator::Logical(LogicalOp::Scan(LogicalScan::new(TableDesc::new(2), vec![]))), vec![], None);
    assert_eq!(node.group_plan(), None);
    let held = Plan::new(
        Operator::Logical(LogicalOp::Scan(LogicalScan::new(TableDesc::new(2), vec![]))),
        vec![Plan::group(1), Plan::group(0)],
        Some(3),
    );
    assert_eq!(held.group_plan(), Some(3));
    assert_eq!(held.clone().group_plan(), Some(3));
    assert_eq!(held.inputs().len(), 2);
    assert_eq!(held.input(0).group_plan(), Some(1));
    assert_eq!(held.input(1).group_plan(), Some(0));
    assert!(held.operator().unwrap().is_logical());
    assert!(node.operator().is_some());
    let copy = node.clone();
    assert!(copy.operator().unwrap().equal(node.operator().unwrap()));
}

#[test]
fn output_columns_of_a_logical_plan() {
    let scan = Plan::new(
        Operator::Logical(LogicalOp::Scan(LogicalScan::new(TableDesc::new(2), vec![ColumnVar::new(0), ColumnVar::new(2)]))),
        vec![],
        None,
    );
    let filter = Plan::new(
        Operator::Logical(LogicalOp::Filter(LogicalFilter::new(ScalarExpr::is_null(ScalarExpr::column(7))))),
        vec![scan],
        None,
    );
    let mut set = ColumnRefSet::new();
    filter.derive_output_columns(&mut set);
    assert!(set.contains(0));
    assert!(set.contains(2));
    assert!(!set.contains(7));
    assert_eq!(set.len(), 2);

    let project = Plan::new(
        Operator::Logical(LogicalOp::Project(LogicalProject::new(vec![ScalarExpr::column(5), ScalarExpr::column(1)]))),
        vec![filter],
        None,
    );
    let mut set = ColumnRefSet::with_id(9);
    project.derive_output_columns(&mut set);
    assert!(set.contains(5));
    assert!(set.contains(1));
    assert!(set.contains(9));
    assert_eq!(set.len(), 3);
}

#[test]
fn physical_operators_deliver_and_require() {
    let order = || PhysicalProperties::with_property(SortProperty::with_order(OrderSpec { order_desc: vec![SortKey::new(1)] }));
    let scan = PhysicalScan::new(TableDesc::new(2), vec![]);
    assert!(scan.derive_output_properties(&vec![]).is_empty());
    let alts = scan.required_properties(&order());
    assert_eq!(alts.len(), 1);
    assert!(alts[0].is_empty());

    let sort = PhysicalSort::new(OrderSpec { order_desc: vec![SortKey::new(1)] });
    assert!(sort.derive_output_properties(&vec![PhysicalProperties::new()]).equal(&order()));
    // a sort delivers its own order, whatever its input delivers
    let other = PhysicalProperties::with_property(SortProperty::with_order(OrderSpec { order_desc: vec![SortKey::new(0)] }));
    assert!(sort.derive_output_properties(&vec![other.clone()]).equal(&order()));
    let unordered = PhysicalSort::new(OrderSpec { order_desc: vec![] });
    assert!(unordered.derive_output_properties(&vec![other]).is_empty());
    let alts = sort.required_properties(&order());
    assert_eq!(alts.len(), 1);
    assert_eq!(alts[0].len(), 1);
    assert!(alts[0][0].is_empty());
    assert!(sort.order_spec().equal(&OrderSpec { order_desc: vec![SortKey::new(1)] }));

    let filter = cso::operator::physical_filter::PhysicalFilter::new(ScalarExpr::is_null(ScalarExpr::column(0)));
    assert!(filter.derive_output_properties(&vec![order()]).equal(&order()));
    let alts = filter.required_properties(&order());
    assert_eq!(alts.len(), 2);
    assert!(alts[0][0].equal(&order()));
    assert!(alts[1][0].is_empty());
}
