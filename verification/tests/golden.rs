use cso::expression::{ColumnVar, ScalarExpr};
use cso::metadata::{
    CachedMdProvider, IndexInfo, IndexMd, MdAccessor, MdCache, Metadata, RelationMetadata, RelationStats,
};
use cso::operator::catalog::LogicalOp;
use cso::operator::logical_filter::LogicalFilter;
use cso::operator::logical_project::LogicalProject;
use cso::operator::logical_scan::{LogicalScan, TableDesc};
use cso::operator::PhysicalOperator;
use cso::property::{OrderSpec, PhysicalProperties, SortKey, SortProperty};
use cso::rules::create_rule_set;
use cso::task::{Task, TaskRunner};
use cso::{LogicalPlan, OptimizerContext, PhysicalPlan};

fn columns() -> Vec<ColumnVar> {
    vec![ColumnVar::new(0), ColumnVar::new(1), ColumnVar::new(2)]
}

fn is_null(id: u32) -> ScalarExpr {
    ScalarExpr::is_null(ScalarExpr::column(id))
}

fn scan() -> LogicalPlan {
    LogicalPlan::new(LogicalOp::Scan(LogicalScan::new(TableDesc::new(2), columns())), vec![], vec![])
}

fn filter(predicate: ScalarExpr) -> LogicalPlan {
    LogicalPlan::new(LogicalOp::Filter(LogicalFilter::new(predicate)), vec![scan()], vec![])
}

fn project(input: LogicalPlan) -> LogicalPlan {
    let project = LogicalProject::new(vec![ScalarExpr::column(1), ScalarExpr::column(2)]);
    LogicalPlan::new(LogicalOp::Project(project), vec![input], vec![])
}

fn accessor() -> MdAccessor {
    let mut cache = MdCache::new();
    cache.insert(1, Metadata::RelationStats(RelationStats::new("t1".to_string(), 9011, false, vec![])));
    cache.insert(2, Metadata::Relation(RelationMetadata::new("t1".to_string(), vec![], 1, vec![IndexInfo::new(4)])));
    cache.insert(4, Metadata::Index(IndexMd::new(4, "IDX_1".to_string(), vec![ColumnVar::new(0)], columns())));
    MdAccessor::new(CachedMdProvider::new(cache))
}

fn sorted(ids: &[u32]) -> PhysicalProperties {
    if ids.is_empty() {
        return PhysicalProperties::new();
    }
    let order_desc = ids.iter().map(|id| SortKey::new(*id)).collect();
    PhysicalProperties::with_property(SortProperty::with_order(OrderSpec { order_desc }))
}

fn shape(plan: &PhysicalPlan) -> String {
    let name = plan.operator().name().replace("physical ", "").replace(' ', "");
    if plan.inputs().is_empty() {
        name
    } else {
        let below: Vec<String> = plan.inputs().iter().map(shape).collect();
        format!("{}({})", name, below.join(","))
    }
}

fn best(plan: LogicalPlan, required: &[u32]) -> (String, u64, usize) {
    let mut ctx = OptimizerContext::new(accessor(), create_rule_set());
    ctx.memo_mut().init(plan).unwrap();
    let root = ctx.memo().root_group().unwrap();
    let mut runner = TaskRunner::new();
    runner.push_task(Task::OptimizeGroup { group: root, required: sorted(required) });
    runner.run(&mut ctx).unwrap();
    let plan = ctx.memo().extract_best_plan(&sorted(required)).unwrap();
    let cost = ctx.memo().lookup(root, &sorted(required)).unwrap().cost().value();
    (shape(&plan), cost, ctx.memo().group_count())
}

#[test]
fn index_scan_without_a_requirement() {
    assert_eq!(best(project(filter(is_null(0))), &[]), ("project(indexscan)".to_string(), 63127, 3));
}

#[test]
fn table_scan_without_a_requirement() {
    assert_eq!(best(project(filter(is_null(1))), &[]), ("project(filter(scan))".to_string(), 108232, 3));
}

#[test]
fn partly_covered_filter_without_a_requirement() {
    let predicate = ScalarExpr::and(vec![is_null(0), is_null(1)]);
    assert_eq!(best(project(filter(predicate)), &[]), ("project(filter(indexscan))".to_string(), 72138, 4));
}

#[test]
fn sort_on_top_without_an_index_for_the_filter() {
    assert_eq!(best(project(filter(is_null(2))), &[2]), ("sort(project(filter(scan)))".to_string(), 342518, 3));
}

#[test]
fn index_order_is_too_short_for_the_requirement() {
    assert_eq!(best(project(filter(is_null(0))), &[0, 1]), ("project(sort(indexscan))".to_string(), 297413, 3));
}

#[test]
fn covered_conjunct_behind_another() {
    let predicate = ScalarExpr::and(vec![is_null(1), is_null(0)]);
    assert_eq!(best(project(filter(predicate)), &[0]), ("project(filter(indexscan))".to_string(), 72138, 4));
}

#[test]
fn sorted_scan() {
    assert_eq!(best(scan(), &[0]), ("sort(scan)".to_string(), 324496, 1));
}

#[test]
fn index_scan_delivers_its_key_order() {
    assert_eq!(best(filter(is_null(0)), &[0]), ("indexscan".to_string(), 54116, 2));
}

#[test]
fn sort_over_index_scan() {
    assert_eq!(best(filter(is_null(0)), &[1]), ("sort(indexscan)".to_string(), 288402, 2));
}
