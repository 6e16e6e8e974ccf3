use cso::expression::ColumnVar;
use cso::metadata::{
    CachedMdProvider, IndexMd, IndexType, MdAccessor, MdCache, Metadata, RelationMetadata, RelationStats, Stats,
};
use cso::operator::logical_filter::LogicalFilter;
use cso::operator::logical_index_scan::LogicalIndexScan;
use cso::operator::logical_project::LogicalProject;
use cso::operator::logical_scan::{derive_scan_stats, LogicalScan, TableDesc};
use cso::operator::{LogicalOperator, OperatorId};
use cso::expression::ScalarExpr;

fn accessor() -> MdAccessor {
    let mut cache = MdCache::new();
    cache.insert(1, Metadata::RelationStats(RelationStats::new("t1".to_string(), 9011, false, vec![])));
    cache.insert(2, Metadata::Relation(RelationMetadata::new("t1".to_string(), vec![], 1, vec![])));
    cache.insert(2, Metadata::RelationStats(RelationStats::new("late".to_string(), 5, false, vec![])));
    cache.insert(8, Metadata::Relation(RelationMetadata::new("t2".to_string(), vec![], 77, vec![])));
    MdAccessor::new(CachedMdProvider::new(cache))
}

#[test]
fn retrieve_gives_the_first_entry_of_an_id() {
    let md = accessor();
    assert!(matches!(md.retrieve(2), Some(Metadata::Relation(_))));
    assert!(matches!(md.retrieve(1), Some(Metadata::RelationStats(_))));
    assert!(md.retrieve(3).is_none());
}

#[test]
fn relation_rows_follow_the_statistics() {
    let md = accessor();
    assert_eq!(md.relation_rows(2), Some(9011));
    assert_eq!(md.relation_rows(1), None);
    assert_eq!(md.relation_rows(8), None);
    assert_eq!(md.relation_rows(5), None);
}

#[test]
fn index_md_is_a_btree() {
    let index = IndexMd::new(4, "IDX_1".to_string(), vec![ColumnVar::new(0)], vec![ColumnVar::new(0)]);
    assert_eq!(index.index_type(), IndexType::Btree);
    assert_eq!(index.mdid(), 4);
    assert_eq!(index.index_name(), "IDX_1");
    assert_eq!(index.key_columns(), &vec![ColumnVar::new(0)]);
}

#[test]
fn scan_statistics_are_those_of_the_relation() {
    let md = accessor();
    assert_eq!(derive_scan_stats(&md, &TableDesc::new(2)), Some(Stats::new(9011)));
    assert_eq!(derive_scan_stats(&md, &TableDesc::new(3)), None);
    let scan = LogicalScan::new(TableDesc::new(2), vec![ColumnVar::new(0)]);
    assert_eq!(scan.derive_statistics(&md, &vec![]), Some(Stats::new(9011)));
    assert_eq!(scan.operator_id(), OperatorId::LogicalScan);
    assert_eq!(scan.arity(), 0);
    assert_eq!(scan.name(), "logical scan");
}

#[test]
fn filter_keeps_the_statistics_of_its_input() {
    let md = accessor();
    let one = LogicalFilter::new(ScalarExpr::is_null(ScalarExpr::column(0)));
    assert_eq!(one.derive_statistics(&md, &vec![Stats::new(9011)]), Some(Stats::new(9011)));
    let two = LogicalFilter::new(ScalarExpr::and(vec![
        ScalarExpr::is_null(ScalarExpr::column(0)),
        ScalarExpr::is_null(ScalarExpr::column(1)),
    ]));
    assert_eq!(two.derive_statistics(&md, &vec![Stats::new(9011)]), Some(Stats::new(9011)));
    assert_eq!(two.derive_statistics(&md, &vec![Stats::new(1)]), Some(Stats::new(1)));
    assert_eq!(one.arity(), 1);
}

#[test]
fn project_keeps_the_rows() {
    let md = accessor();
    let project = LogicalProject::new(vec![ScalarExpr::column(1)]);
    assert_eq!(project.derive_statistics(&md, &vec![Stats::new(17)]), Some(Stats::new(17)));
}

#[test]
fn index_scan_statistics_are_those_of_the_relation() {
    let md = accessor();
    let index = IndexMd::new(4, "IDX_1".to_string(), vec![ColumnVar::new(0)], vec![ColumnVar::new(0)]);
    let scan = LogicalIndexScan::new(
        TableDesc::new(2),
        &index,
        vec![ColumnVar::new(0)],
        ScalarExpr::and(vec![ScalarExpr::is_null(ScalarExpr::column(0))]),
    );
    assert_eq!(scan.derive_statistics(&md, &vec![]), Some(Stats::new(9011)));
    assert_eq!(scan.index_desc().key_columns_count(), 1);
    assert_eq!(scan.table_desc().mdid(), 2);
    let missing = LogicalIndexScan::new(
        TableDesc::new(99),
        &index,
        vec![ColumnVar::new(0)],
        ScalarExpr::is_null(ScalarExpr::column(0)),
    );
    assert_eq!(missing.derive_statistics(&md, &vec![]), None);
}
