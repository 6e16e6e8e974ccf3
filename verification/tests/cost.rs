use cso::cost::{cost_children, log2, sum, times, Cost};
use cso::expression::{ColumnVar, ScalarExpr};
use cso::metadata::{IndexType, Stats};
use cso::operator::logical_index_scan::IndexDesc;
use cso::operator::logical_scan::TableDesc;
use cso::operator::physical_filter::PhysicalFilter;
use cso::operator::physical_index_scan::PhysicalIndexScan;
use cso::operator::physical_project::PhysicalProject;
use cso::operator::physical_scan::PhysicalScan;
use cso::operator::physical_sort::PhysicalSort;
use cso::operator::PhysicalOperator;
use cso::property::{OrderSpec, SortKey};

#[test]
fn zero_is_the_identity_of_plus() {
    assert_eq!(Cost::zero().plus(Cost::new(5)), Cost::new(5));
    assert_eq!(Cost::new(5).plus(Cost::zero()), Cost::new(5));
}

#[test]
fn plus_saturates() {
    assert_eq!(Cost::new(u64::MAX).plus(Cost::new(1)), Cost::new(u64::MAX));
    assert_eq!(Cost::new(u64::MAX - 1).plus(Cost::new(1)), Cost::new(u64::MAX));
    assert_eq!(Cost::new(3).plus(Cost::new(4)).value(), 7);
}

#[test]
fn plus_is_associative_on_samples() {
    let a = Cost::new(u64::MAX - 3);
    let b = Cost::new(2);
    let c = Cost::new(5);
    assert_eq!(a.plus(b).plus(c), a.plus(b.plus(c)));
}

#[test]
fn less_than_is_strict() {
    assert!(Cost::new(1).less_than(&Cost::new(2)));
    assert!(!Cost::new(2).less_than(&Cost::new(2)));
    assert!(!Cost::new(3).less_than(&Cost::new(2)));
}

#[test]
fn times_and_sum_saturate() {
    assert_eq!(times(6, 7), 42);
    assert_eq!(times(0, u64::MAX), 0);
    assert_eq!(times(u64::MAX, 2), u64::MAX);
    assert_eq!(times(1 << 32, 1 << 32), u64::MAX);
    assert_eq!(sum(40, 2), 42);
    assert_eq!(sum(u64::MAX, 1), u64::MAX);
}

#[test]
fn log2_is_the_whole_part() {
    assert_eq!(log2(0), 0);
    assert_eq!(log2(1), 0);
    assert_eq!(log2(2), 1);
    assert_eq!(log2(3), 1);
    assert_eq!(log2(4), 2);
    assert_eq!(log2(4505), 12);
    assert_eq!(log2(9011), 13);
    assert_eq!(log2(u64::MAX), 63);
}

#[test]
fn cost_children_sums() {
    assert_eq!(cost_children(&vec![]), Cost::zero());
    assert_eq!(cost_children(&vec![Cost::new(1), Cost::new(2), Cost::new(3)]), Cost::new(6));
    assert_eq!(cost_children(&vec![Cost::new(u64::MAX), Cost::new(2)]), Cost::new(u64::MAX));
}

fn columns() -> Vec<ColumnVar> {
    vec![ColumnVar::new(0), ColumnVar::new(1), ColumnVar::new(2)]
}

#[test]
fn scan_cost() {
    let scan = PhysicalScan::new(TableDesc::new(2), columns());
    assert_eq!(scan.compute_cost(&vec![], &Stats::new(9011)), Cost::new(100 + 9011 * 10));
    assert_eq!(scan.compute_cost(&vec![], &Stats::new(0)), Cost::new(100));
}

#[test]
fn index_scan_cost() {
    let index = IndexDesc::new(4, "IDX_1".to_string(), IndexType::Btree, vec![ColumnVar::new(0)], columns());
    let scan = PhysicalIndexScan::new(
        index,
        TableDesc::new(2),
        columns(),
        ScalarExpr::and(vec![ScalarExpr::is_null(ScalarExpr::column(0))]),
    );
    assert_eq!(scan.compute_cost(&vec![], &Stats::new(4505)), Cost::new(4505 * (2 + 4) + 50));
}

#[test]
fn filter_cost_counts_the_columns_of_the_predicate() {
    let one = PhysicalFilter::new(ScalarExpr::is_null(ScalarExpr::column(1)));
    assert_eq!(one.compute_cost(&vec![Cost::new(7)], &Stats::new(4505)), Cost::new(4505 + 7));
    let two = PhysicalFilter::new(ScalarExpr::and(vec![
        ScalarExpr::is_null(ScalarExpr::column(0)),
        ScalarExpr::is_null(ScalarExpr::column(1)),
        ScalarExpr::is_null(ScalarExpr::column(0)),
    ]));
    assert_eq!(two.compute_cost(&vec![Cost::new(7)], &Stats::new(100)), Cost::new(200 + 7));
}

#[test]
fn project_cost() {
    let project = PhysicalProject::new(vec![ScalarExpr::column(1), ScalarExpr::column(2)]);
    assert_eq!(project.compute_cost(&vec![Cost::new(27080)], &Stats::new(4505)), Cost::new(4505 + 27080));
}

#[test]
fn sort_cost() {
    let sort = PhysicalSort::new(OrderSpec { order_desc: vec![SortKey::new(1)] });
    assert_eq!(sort.compute_cost(&vec![Cost::new(10)], &Stats::new(4505)), Cost::new(4505 * 12 * 2 + 10));
    assert_eq!(sort.compute_cost(&vec![], &Stats::new(0)), Cost::new(0));
    assert_eq!(sort.compute_cost(&vec![], &Stats::new(2)), Cost::new(2 * 1 * 2));
}

#[test]
fn costs_grow_with_the_row_count() {
    let scan = PhysicalScan::new(TableDesc::new(2), columns());
    let sort = PhysicalSort::new(OrderSpec { order_desc: vec![SortKey::new(1)] });
    let mut last_scan = 0;
    let mut last_sort = 0;
    for rows in [0u64, 1, 2, 3, 10, 1000, 9011, 1 << 40] {
        let s = scan.compute_cost(&vec![], &Stats::new(rows)).value();
        let t = sort.compute_cost(&vec![], &Stats::new(rows)).value();
        assert!(s >= last_scan);
        assert!(t >= last_sort);
        last_scan = s;
        last_sort = t;
    }
}
