use cso::expression::{ColumnVar, ScalarExpr};
use cso::metadata::{
    Bucket, CachedMdProvider, ColumnMetadata, ColumnStats, Datum, Histogram, IndexInfo, IndexMd, IndexType,
    MdAccessor, MdCache, Metadata, RelationMetadata, RelationStats,
};
use cso::operator::catalog::{LogicalOp, PhysicalOp};
use cso::operator::logical_filter::LogicalFilter;
use cso::operator::logical_index_scan::IndexDesc;
use cso::operator::logical_project::LogicalProject;
use cso::operator::logical_scan::{LogicalScan, TableDesc};
use cso::operator::physical_filter::PhysicalFilter;
use cso::operator::physical_index_scan::PhysicalIndexScan;
use cso::operator::physical_project::PhysicalProject;
use cso::operator::physical_scan::PhysicalScan;
use cso::operator::physical_sort::PhysicalSort;
use cso::property::{OrderSpec, PhysicalProperties, SortKey, SortProperty};
use cso::rules::{create_rule_set, RuleSet};
use cso::{LogicalPlan, Optimizer, OptimizerError, Options, PhysicalPlan};

fn logical_scan() -> LogicalPlan {
    let mdid = 2;
    let table_desc = TableDesc::new(mdid);
    let output_columns = vec![ColumnVar::new(0), ColumnVar::new(1), ColumnVar::new(2)];

    let scan = LogicalScan::new(table_desc, output_columns);
    LogicalPlan::new(LogicalOp::Scan(scan), vec![], vec![])
}

fn logical_filter(input: Vec<LogicalPlan>, id_1: u32, id_2: Option<u32>) -> LogicalPlan {
    let predicate = ScalarExpr::is_null(ScalarExpr::column(id_1));
    let predicate = match id_2 {
        Some(id) => {
            let predicate_2 = ScalarExpr::is_null(ScalarExpr::column(id));
            ScalarExpr::and(vec![predicate, predicate_2])
        }
        None => predicate,
    };

    let filter = LogicalFilter::new(predicate);
    LogicalPlan::new(LogicalOp::Filter(filter), input, vec![])
}

fn logical_project(inputs: Vec<LogicalPlan>) -> LogicalPlan {
    let project = vec![ScalarExpr::column(1), ScalarExpr::column(2)];
    let project = LogicalProject::new(project);
    LogicalPlan::new(LogicalOp::Project(project), inputs, vec![])
}

fn required_properties(id: u32) -> PhysicalProperties {
    let order = OrderSpec {
        order_desc: vec![SortKey {
            key: ColumnVar::new(id),
            ascending: true,
            nulls_first: true,
        }],
    };
    let sort_property = SortProperty::with_order(order);
    PhysicalProperties::with_property(sort_property)
}

fn md_cache() -> MdCache {
    // mdids
    let relation_stats_id = 1;
    let relation_md_id = 2;
    let column_stats_id = 3;
    let index_md_id = 4;

    // relation stats
    let relation_stats = RelationStats::new("t1".to_string(), 9011, false, vec![column_stats_id]);

    // index metadata
    let index_md = IndexMd::new(
        4,
        "IDX_1".to_string(),
        vec![ColumnVar::new(0)],
        vec![ColumnVar::new(0), ColumnVar::new(1), ColumnVar::new(2)],
    );

    // relation metadata
    let column_md = vec![
        ColumnMetadata::new("c1".to_string(), 1, true, 4, Datum::I32(0)),
        ColumnMetadata::new("c2".to_string(), 2, true, 4, Datum::I32(0)),
        ColumnMetadata::new("c3".to_string(), 3, false, 4, Datum::I32(0)),
        ColumnMetadata::new("c4".to_string(), 4, false, 4, Datum::I32(0)),
        ColumnMetadata::new("c5".to_string(), 5, false, 4, Datum::I32(0)),
        ColumnMetadata::new("c6".to_string(), 6, false, 4, Datum::I32(0)),
    ];
    let relation_md = RelationMetadata::new(
        "t1".to_string(),
        column_md,
        relation_stats_id,
        vec![IndexInfo::new(index_md_id)],
    );

    // column stats
    let buckets = vec![
        Bucket::new(Datum::I32(0), Datum::I32(1), 1, 2),
        Bucket::new(Datum::I32(1), Datum::I32(3), 3, 3),
    ];
    let histogram = Histogram::new(buckets);
    let column_stats = ColumnStats::new(1, 'x'.to_string(), Datum::I32(0), Datum::I32(1), 0, Some(histogram));

    // metadata cache
    let mut md_cache = MdCache::new();
    md_cache.insert(relation_stats_id, Metadata::RelationStats(relation_stats));
    md_cache.insert(relation_md_id, Metadata::Relation(relation_md));
    md_cache.insert(column_stats_id, Metadata::ColumnStats(column_stats));
    md_cache.insert(index_md_id, Metadata::Index(index_md));

    md_cache
}

fn metadata_accessor() -> MdAccessor {
    let md_cache = md_cache();
    let md_provider = CachedMdProvider::new(md_cache);
    MdAccessor::new(md_provider)
}

fn index_scan_c1() -> PhysicalPlan {
    let mdid = 2;
    let table_desc = TableDesc::new(mdid);
    let index_desc = IndexDesc::new(
        4,
        "IDX_1".to_string(),
        IndexType::Btree,
        vec![ColumnVar::new(0)],
        vec![ColumnVar::new(0), ColumnVar::new(1), ColumnVar::new(2)],
    );
    let output_columns = vec![ColumnVar::new(0), ColumnVar::new(1), ColumnVar::new(2)];
    let predicate = ScalarExpr::is_null(ScalarExpr::column(0));
    let scan = PhysicalIndexScan::new(index_desc, table_desc, output_columns, ScalarExpr::and(vec![predicate]));
    PhysicalPlan::new(PhysicalOp::IndexScan(scan), vec![])
}

fn project_over(input: PhysicalPlan) -> PhysicalPlan {
    let project = vec![ScalarExpr::column(1), ScalarExpr::column(2)];
    let project = PhysicalProject::new(project);
    PhysicalPlan::new(PhysicalOp::Project(project), vec![input])
}

fn sort_over(input: PhysicalPlan, id: u32) -> PhysicalPlan {
    let order = OrderSpec {
        order_desc: vec![SortKey {
            key: ColumnVar::new(id),
            ascending: true,
            nulls_first: true,
        }],
    };
    let sort = PhysicalSort::new(order);
    PhysicalPlan::new(PhysicalOp::Sort(sort), vec![input])
}

fn expected_physical_plan_with_index() -> PhysicalPlan {
    project_over(index_scan_c1())
}

// can completely cover filter
// sql: select c2, c3 from t1 where c1 is null order by c1;
// idx: key columns(c1) included columns(c1, c2, c3)
// Project(c2, c3) -> IndexScan(c1)
#[test]
fn test_sort_project_index_scan_matched() {
    let mut optimizer = Optimizer::new(Options::default());
    let rule_set = create_rule_set();

    let scan = logical_scan();
    let filter = logical_filter(vec![scan], 0, None);
    let project = logical_project(vec![filter]);
    let required_properties = required_properties(0);
    let md_accessor = metadata_accessor();

    let physical_plan = optimizer.optimize(project, required_properties, md_accessor, rule_set);
    assert_eq!(physical_plan, Ok(expected_physical_plan_with_index()));
}

fn expected_physical_plan_without_index() -> PhysicalPlan {
    let mdid = 2;
    let table_desc = TableDesc::new(mdid);
    let output_columns = vec![ColumnVar::new(0), ColumnVar::new(1), ColumnVar::new(2)];

    let scan = PhysicalScan::new(table_desc, output_columns);
    let scan = PhysicalPlan::new(PhysicalOp::Scan(scan), vec![]);

    let predicate = ScalarExpr::is_null(ScalarExpr::column(1));
    let filter = PhysicalFilter::new(predicate);
    let filter = PhysicalPlan::new(PhysicalOp::Filter(filter), vec![scan]);

    sort_over(project_over(filter), 0)
}

// can not cover filter
// sql: select c2, c3 from t1 where c2 is null order by c1;
// idx: key columns(c1) included columns(c1, c2, c3)
// Sort(c1) -> project(c2, c3) -> filter(c2) -> Scan
#[test]
fn test_sort_project_index_scan_not_matched() {
    let mut optimizer = Optimizer::new(Options::default());
    let rule_set = create_rule_set();

    let scan = logical_scan();
    let filter = logical_filter(vec![scan], 1, None);
    let project = logical_project(vec![filter]);
    let required_properties = required_properties(0);
    let md_accessor = metadata_accessor();

    let physical_plan = optimizer.optimize(project, required_properties, md_accessor, rule_set);
    assert_eq!(physical_plan, Ok(expected_physical_plan_without_index()));
}

fn filter_c2_over_index_scan() -> PhysicalPlan {
    let filter = PhysicalFilter::new(ScalarExpr::and(vec![ScalarExpr::is_null(ScalarExpr::column(1))]));
    PhysicalPlan::new(PhysicalOp::Filter(filter), vec![index_scan_c1()])
}

fn expected_physical_plan_with_index_and_filter() -> PhysicalPlan {
    project_over(filter_c2_over_index_scan())
}

// can partly cover filter
// sql: select c2, c3 from t1 where c1 is null and c2 is null order by c1;
// idx: key columns(c1) included columns(c1, c2, c3)
// project(c2, c3) -> filter(c2) -> IndexScan(c1)
#[test]
fn test_sort_project_index_scan_partly_matched() {
    let mut optimizer = Optimizer::new(Options::default());
    let rule_set = create_rule_set();

    let scan = logical_scan();
    let filter = logical_filter(vec![scan], 0, Some(1));
    let project = logical_project(vec![filter]);
    let required_properties = required_properties(0);
    let md_accessor = metadata_accessor();

    let physical_plan = optimizer.optimize(project, required_properties, md_accessor, rule_set);
    assert_eq!(physical_plan, Ok(expected_physical_plan_with_index_and_filter()));
}

fn expected_physical_plan_with_index_2() -> PhysicalPlan {
    project_over(sort_over(index_scan_c1(), 1))
}

// can completely cover filter but need another column to order by
// sql: select c2, c3 from t1 where c1 is null order by c2;
// idx: key columns(c1) included columns(c1, c2, c3)
// valid plan:
// 1. Sort(c2) -> Project(c2, c3) -> IndexScan(c1)
// 2. Project(c2, c3) -> Sort(c2) -> IndexScan(c1) -- expected
// 3. Sort(c2) -> Project(c2, c3) -> Filter(c1) -> Scan
#[test]
fn test_sort_project_index_scan_matched_2() {
    let mut optimizer = Optimizer::new(Options::default());
    let rule_set = create_rule_set();

    let scan = logical_scan();
    let filter = logical_filter(vec![scan], 0, None);
    let project = logical_project(vec![filter]);
    let required_properties = required_properties(1);
    let md_accessor = metadata_accessor();

    let physical_plan = optimizer.optimize(project, required_properties, md_accessor, rule_set);
    assert_eq!(physical_plan, Ok(expected_physical_plan_with_index_2()));
}

fn expected_physical_plan_with_index_and_filter_2() -> PhysicalPlan {
    sort_over(project_over(filter_c2_over_index_scan()), 1)
}

// can partly cover filter
// sql: select c2, c3 from t1 where c1 is null and c2 is null order by c2;
// idx: key columns(c1) included columns(c1, c2, c3)
// Sort(c2) -> project(c2, c3) -> filter(c2) -> IndexScan(c1)
#[test]
fn test_sort_project_index_scan_partly_matched_2() {
    let mut optimizer = Optimizer::new(Options::default());
    let rule_set = create_rule_set();

    let scan = logical_scan();
    let filter = logical_filter(vec![scan], 0, Some(1));
    let project = logical_project(vec![filter]);
    let required_properties = required_properties(1);
    let md_accessor = metadata_accessor();

    let physical_plan = optimizer.optimize(project, required_properties, md_accessor, rule_set);
    assert_eq!(physical_plan, Ok(expected_physical_plan_with_index_and_filter_2()));
}

// without rules no physical expression comes into the memo
#[test]
fn empty_rule_set_gives_no_plan() {
    let mut optimizer = Optimizer::new(Options::default());

    let scan = logical_scan();
    let filter = logical_filter(vec![scan], 0, None);
    let project = logical_project(vec![filter]);

    let physical_plan = optimizer.optimize(project, required_properties(0), metadata_accessor(), RuleSet::new());
    assert_eq!(physical_plan, Err(OptimizerError::NoPlan));
}
