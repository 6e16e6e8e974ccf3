use cso::expression::{ColumnVar, ScalarExpr};
use cso::memo::Memo;
use cso::metadata::{
    CachedMdProvider, IndexInfo, IndexMd, MdAccessor, MdCache, Metadata, RelationMetadata, RelationStats,
};
use cso::operator::catalog::{LogicalOp, Operator, PhysicalOp};
use cso::operator::logical_filter::LogicalFilter;
use cso::operator::logical_index_scan::LogicalIndexScan;
use cso::operator::logical_project::LogicalProject;
use cso::operator::logical_scan::{LogicalScan, TableDesc};
use cso::operator::OperatorId;
use cso::rule::{bindings, group_bindings, Pattern, RuleKind};
use cso::rules::{create_rule_set, Rule, RuleSet};
use cso::{LogicalPlan, Plan};

fn columns() -> Vec<ColumnVar> {
    vec![ColumnVar::new(0), ColumnVar::new(1), ColumnVar::new(2)]
}

fn is_null(id: u32) -> ScalarExpr {
    ScalarExpr::is_null(ScalarExpr::column(id))
}

fn scan_op() -> Operator {
    Operator::Logical(LogicalOp::Scan(LogicalScan::new(TableDesc::new(2), columns())))
}

fn filter_op(predicate: ScalarExpr) -> Operator {
    Operator::Logical(LogicalOp::Filter(LogicalFilter::new(predicate)))
}

fn scan_plan() -> LogicalPlan {
    LogicalPlan::new(LogicalOp::Scan(LogicalScan::new(TableDesc::new(2), columns())), vec![], vec![])
}

fn filter_plan(predicate: ScalarExpr) -> LogicalPlan {
    LogicalPlan::new(LogicalOp::Filter(LogicalFilter::new(predicate)), vec![scan_plan()], vec![])
}

fn accessor(indexes: Vec<(u64, IndexMd)>) -> MdAccessor {
    let mut cache = MdCache::new();
    cache.insert(1, Metadata::RelationStats(RelationStats::new("t1".to_string(), 9011, false, vec![])));
    let infos = indexes.iter().map(|(id, _)| IndexInfo::new(*id)).collect();
    cache.insert(2, Metadata::Relation(RelationMetadata::new("t1".to_string(), vec![], 1, infos)));
    for (id, index) in indexes {
        cache.insert(id, Metadata::Index(index));
    }
    MdAccessor::new(CachedMdProvider::new(cache))
}

fn idx_1() -> IndexMd {
    IndexMd::new(4, "IDX_1".to_string(), vec![ColumnVar::new(0)], columns())
}

fn operator_id(plan: &Plan) -> OperatorId {
    plan.operator().unwrap().operator_id()
}

#[test]
fn catalog_rules_in_order() {
    let rules = create_rule_set();
    assert_eq!(rules.len(), 5);
    assert_eq!(rules.get(0), Rule::FilterToIndexScan);
    assert_eq!(rules.get(1), Rule::ImplementIndexScan);
    assert_eq!(rules.get(2), Rule::ImplementScan);
    assert_eq!(rules.get(3), Rule::ImplementFilter);
    assert_eq!(rules.get(4), Rule::ImplementProject);
    for i in 0..5 {
        assert_eq!(rules.get(i).id(), i);
    }
    assert_eq!(rules.get(0).kind(), RuleKind::Exploration);
    assert_eq!(rules.get(3).kind(), RuleKind::Implementation);
    let mut own = RuleSet::new();
    own.push(Rule::ImplementScan);
    assert_eq!(own.len(), 1);
    assert_eq!(own.get(0), Rule::ImplementScan);
}

#[test]
fn patterns_of_the_catalog() {
    assert!(matches!(Rule::ImplementScan.pattern(), Pattern::Node(OperatorId::LogicalScan, inputs) if inputs.is_empty()));
    match Rule::ImplementFilter.pattern() {
        Pattern::Node(OperatorId::LogicalFilter, inputs) => {
            assert_eq!(inputs.len(), 1);
            assert!(matches!(inputs[0], Pattern::Any));
        }
        _ => panic!("a filter over anything"),
    }
    match Rule::FilterToIndexScan.pattern() {
        Pattern::Node(OperatorId::LogicalFilter, inputs) => {
            assert_eq!(inputs.len(), 1);
            assert!(matches!(&inputs[0], Pattern::Node(OperatorId::LogicalScan, below) if below.is_empty()));
        }
        _ => panic!("a filter over a scan"),
    }
}

#[test]
fn wildcard_binds_inputs_as_groups() {
    let mut memo = Memo::new();
    memo.init(filter_plan(is_null(0))).unwrap();
    let found = bindings(&memo, &Rule::ImplementFilter.pattern(), 1, memo.logical_expr(1, 0));
    assert_eq!(found.len(), 1);
    assert_eq!(operator_id(&found[0]), OperatorId::LogicalFilter);
    assert_eq!(found[0].input_count(), 1);
    assert_eq!(found[0].input(0).group_plan(), Some(0));
    // what is bound carries its group
    assert_eq!(found[0].group_plan(), Some(1));
    // the operator at the root must be that of the pattern
    assert!(bindings(&memo, &Rule::ImplementFilter.pattern(), 0, memo.logical_expr(0, 0)).is_empty());
    assert!(bindings(&memo, &Rule::ImplementProject.pattern(), 1, memo.logical_expr(1, 0)).is_empty());
    // the wildcard at the root binds the expression over its groups
    let any = bindings(&memo, &Pattern::Any, 1, memo.logical_expr(1, 0));
    assert_eq!(any.len(), 1);
    assert_eq!(any[0].inputs().len(), 1);
    assert_eq!(any[0].input(0).group_plan(), Some(0));
}

#[test]
fn pattern_for_an_input_binds_each_matching_expression() {
    let mut memo = Memo::new();
    memo.init(filter_plan(is_null(0))).unwrap();
    let pattern = Rule::FilterToIndexScan.pattern();
    let found = bindings(&memo, &pattern, 1, memo.logical_expr(1, 0));
    assert_eq!(found.len(), 1);
    assert_eq!(operator_id(found[0].input(0)), OperatorId::LogicalScan);
    assert_eq!(found[0].input(0).input_count(), 0);
    assert_eq!(found[0].group_plan(), Some(1));
    assert_eq!(found[0].input(0).group_plan(), Some(0));

    // a second scan in the group of the input gives a second binding, behind the first
    let other = Operator::Logical(LogicalOp::Scan(LogicalScan::new(TableDesc::new(9), columns())));
    memo.insert_plan(0, &Plan::new(other, vec![], None)).unwrap();
    let found = bindings(&memo, &pattern, 1, memo.logical_expr(1, 0));
    assert_eq!(found.len(), 2);
    match found[1].input(0).operator().unwrap() {
        Operator::Logical(LogicalOp::Scan(s)) => assert_eq!(s.table_desc().mdid(), 9),
        _ => panic!("a scan"),
    }
    assert_eq!(group_bindings(&memo, &Pattern::leaf(OperatorId::LogicalScan), 0).len(), 2);
    assert_eq!(group_bindings(&memo, &Pattern::leaf(OperatorId::LogicalFilter), 0).len(), 0);
    assert_eq!(group_bindings(&memo, &Pattern::Any, 1).len(), 1);
}

#[test]
fn implementation_keeps_parameters_and_groups() {
    let binding = Plan::new(filter_op(is_null(1)), vec![Plan::group(3)], None);
    let md = accessor(vec![]);
    let made = Rule::ImplementFilter.transform(&binding, &md);
    assert_eq!(made.len(), 1);
    match made[0].operator().unwrap() {
        Operator::Physical(PhysicalOp::Filter(f)) => assert!(f.predicate().equal(&is_null(1))),
        _ => panic!("a physical filter"),
    }
    assert_eq!(made[0].input(0).group_plan(), Some(3));

    let scan = Plan::new(scan_op(), vec![], None);
    let made = Rule::ImplementScan.transform(&scan, &md);
    assert_eq!(made.len(), 1);
    assert_eq!(operator_id(&made[0]), OperatorId::PhysicalScan);
    // a rule makes nothing of another operator
    assert!(Rule::ImplementScan.transform(&binding, &md).is_empty());
    assert!(Rule::ImplementProject.transform(&binding, &md).is_empty());
    assert!(Rule::ImplementIndexScan.transform(&scan, &md).is_empty());
    // nor of a group, nor of an input that is no group
    assert!(Rule::ImplementFilter.transform(&Plan::group(0), &md).is_empty());
    let nested = Plan::new(filter_op(is_null(1)), vec![Plan::new(scan_op(), vec![], None)], None);
    assert!(Rule::ImplementFilter.transform(&nested, &md).is_empty());

    let project = Plan::new(
        Operator::Logical(LogicalOp::Project(LogicalProject::new(vec![ScalarExpr::column(1)]))),
        vec![Plan::group(1)],
        None,
    );
    let made = Rule::ImplementProject.transform(&project, &md);
    assert_eq!(operator_id(&made[0]), OperatorId::PhysicalProject);

    let through = LogicalIndexScan::new(TableDesc::new(2), &idx_1(), columns(), is_null(0));
    let made = Rule::ImplementIndexScan.transform(&Plan::new(Operator::Logical(LogicalOp::IndexScan(through)), vec![], None), &md);
    assert_eq!(operator_id(&made[0]), OperatorId::PhysicalIndexScan);
}

fn index_binding(predicate: ScalarExpr) -> Plan {
    Plan::new(filter_op(predicate), vec![Plan::new(scan_op(), vec![], Some(0))], Some(1))
}

#[test]
fn index_covers_the_whole_predicate() {
    let md = accessor(vec![(4, idx_1())]);
    let made = Rule::FilterToIndexScan.transform(&index_binding(is_null(0)), &md);
    assert_eq!(made.len(), 1);
    match made[0].operator().unwrap() {
        Operator::Logical(LogicalOp::IndexScan(s)) => {
            assert!(s.predicate().equal(&ScalarExpr::and(vec![is_null(0)])));
            assert_eq!(s.output_columns(), &columns());
            assert_eq!(s.index_desc().key_columns(), &vec![ColumnVar::new(0)]);
            assert_eq!(s.index_desc().included_columns(), &columns());
        }
        _ => panic!("an index scan"),
    }
    assert_eq!(made[0].input_count(), 0);
    // what a rule makes is not in the memo yet
    assert_eq!(made[0].group_plan(), None);
}

#[test]
fn index_covers_a_part_of_the_predicate() {
    let md = accessor(vec![(4, idx_1())]);
    let predicate = ScalarExpr::and(vec![is_null(1), is_null(0), is_null(2)]);
    let made = Rule::FilterToIndexScan.transform(&index_binding(predicate), &md);
    assert_eq!(made.len(), 1);
    match made[0].operator().unwrap() {
        Operator::Logical(LogicalOp::Filter(f)) => {
            assert!(f.predicate().equal(&ScalarExpr::and(vec![is_null(1), is_null(2)])));
        }
        _ => panic!("a filter"),
    }
    match made[0].input(0).operator().unwrap() {
        Operator::Logical(LogicalOp::IndexScan(s)) => {
            assert!(s.predicate().equal(&ScalarExpr::and(vec![is_null(0)])));
        }
        _ => panic!("an index scan"),
    }
}

#[test]
fn index_that_covers_nothing_gives_nothing() {
    let md = accessor(vec![(4, idx_1())]);
    assert!(Rule::FilterToIndexScan.transform(&index_binding(is_null(1)), &md).is_empty());
    // a conjunct that reads a column beside the key is not covered
    let both = ScalarExpr::and(vec![ScalarExpr::and(vec![is_null(0), is_null(1)])]);
    assert!(Rule::FilterToIndexScan.transform(&index_binding(both), &md).is_empty());
}

#[test]
fn index_must_hold_the_columns_of_the_scan() {
    let narrow = IndexMd::new(4, "IDX_2".to_string(), vec![ColumnVar::new(0)], vec![ColumnVar::new(0), ColumnVar::new(1)]);
    let md = accessor(vec![(4, narrow)]);
    assert!(Rule::FilterToIndexScan.transform(&index_binding(is_null(0)), &md).is_empty());
}

#[test]
fn each_index_of_the_relation_is_tried_in_order() {
    let second = IndexMd::new(5, "IDX_B".to_string(), vec![ColumnVar::new(1), ColumnVar::new(0)], columns());
    let md = accessor(vec![(4, idx_1()), (5, second)]);
    let predicate = ScalarExpr::and(vec![is_null(0), is_null(1)]);
    let made = Rule::FilterToIndexScan.transform(&index_binding(predicate), &md);
    assert_eq!(made.len(), 2);
    assert_eq!(operator_id(&made[0]), OperatorId::LogicalFilter);
    match made[1].operator().unwrap() {
        Operator::Logical(LogicalOp::IndexScan(s)) => {
            assert!(s.predicate().equal(&ScalarExpr::and(vec![is_null(0), is_null(1)])));
            assert_eq!(s.index_desc().key_columns_count(), 2);
        }
        _ => panic!("an index scan"),
    }
}

#[test]
fn index_rule_needs_the_metadata_of_the_relation() {
    let empty = MdAccessor::new(CachedMdProvider::new(MdCache::new()));
    assert!(Rule::FilterToIndexScan.transform(&index_binding(is_null(0)), &empty).is_empty());
    // an index that the metadata lacks is passed over
    let mut cache = MdCache::new();
    cache.insert(2, Metadata::Relation(RelationMetadata::new("t1".to_string(), vec![], 1, vec![IndexInfo::new(4)])));
    let md = MdAccessor::new(CachedMdProvider::new(cache));
    assert!(Rule::FilterToIndexScan.transform(&index_binding(is_null(0)), &md).is_empty());
    // what is no filter over a scan gives nothing
    let md = accessor(vec![(4, idx_1())]);
    assert!(Rule::FilterToIndexScan.transform(&Plan::new(scan_op(), vec![], None), &md).is_empty());
    assert!(Rule::FilterToIndexScan.transform(&Plan::new(filter_op(is_null(0)), vec![Plan::group(0)], None), &md).is_empty());
}
