//! The physical scan through an index.

use vstd::prelude::*;
use crate::cost::{
    cost_children, sum, times, Cost, COST_INDEX_FILTER_COST_UNIT, COST_INDEX_SCAN_TUP_COST_UNIT,
    COST_INDEX_SCAN_TUP_RANDOM_FACTOR,
};
use crate::expression::{ColumnVar, ScalarExpr};
use crate::metadata::Stats;
use crate::operator::logical_index_scan::IndexDesc;
use crate::operator::logical_scan::{copy_columns, same_columns, TableDesc};
use crate::operator::{
    index_order, no_inputs, IndexScanView, OperatorId, PhysicalOpView, PhysicalOperator,
};
use crate::property::{OrderSpec, PhysicalProperties, SortKey, SortProperty};

verus! {

/// The scan that reads the rows on which its predicate holds through an
/// index, in the order of the index's key.
#[derive(Debug)]
pub struct PhysicalIndexScan {
    index_desc: IndexDesc,
    table_desc: TableDesc,
    output_columns: Vec<ColumnVar>,
    predicate: ScalarExpr,
}

impl View for PhysicalIndexScan {
    type V = IndexScanView;

    closed spec fn view(&self) -> IndexScanView {
        IndexScanView {
            index: self.index_desc@,
            table: self.table_desc.mdid,
            output_columns: self.output_columns@,
            predicate: self.predicate@,
        }
    }
}

impl Clone for PhysicalIndexScan {
    fn clone(&self) -> (r: Self)
        ensures
            r@ == self@,
    {
        PhysicalIndexScan {
            index_desc: self.index_desc.clone(),
            table_desc: self.table_desc,
            output_columns: copy_columns(&self.output_columns),
            predicate: self.predicate.clone(),
        }
    }
}

impl PhysicalIndexScan {
    pub fn new(index_desc: IndexDesc, table_desc: TableDesc, output_columns: Vec<ColumnVar>, predicate: ScalarExpr) -> (s: Self)
        ensures
            s@ == (IndexScanView {
                index: index_desc@,
                table: table_desc.mdid,
                output_columns: output_columns@,
                predicate: predicate@,
            }),
    {
        PhysicalIndexScan { index_desc, table_desc, output_columns, predicate }
    }

    pub fn equal(&self, other: &PhysicalIndexScan) -> (b: bool)
        ensures
            b == (self@ == other@),
    {
        self.index_desc.equal(&other.index_desc) && self.table_desc.mdid == other.table_desc.mdid
            && same_columns(&self.output_columns, &other.output_columns) && self.predicate.equal(
            &other.predicate,
        )
    }
}

impl PhysicalOperator for PhysicalIndexScan {
    open spec fn physical_view(&self) -> PhysicalOpView {
        PhysicalOpView::IndexScan(self@)
    }

    fn name(&self) -> (n: &'static str) {
        "physical index scan"
    }

    fn operator_id(&self) -> (id: OperatorId) {
        OperatorId::PhysicalIndexScan
    }

    fn arity(&self) -> (n: usize) {
        0
    }

    fn derive_output_properties(&self, child_props: &Vec<PhysicalProperties>) -> (d: PhysicalProperties) {
        let key_columns = self.index_desc.key_columns();

        let mut order_desc: Vec<SortKey> = Vec::new();
        let mut i: usize = 0;
        while i < key_columns.len()
            invariant
                i <= key_columns.len(),
                order_desc@ == index_order(key_columns@.take(i as int)),
            decreases key_columns.len() - i,
        {
            order_desc.push(SortKey::new(key_columns[i].id()));
            assert(order_desc@ =~= index_order(key_columns@.take(i as int + 1)));
            i += 1;
        }
        assert(key_columns@.take(key_columns.len() as int) =~= key_columns@);

        let sort_prop = SortProperty::with_order(OrderSpec { order_desc });
        PhysicalProperties::with_property(sort_prop)
    }

    fn required_properties(&self, input_prop: &PhysicalProperties) -> (alts: Vec<Vec<PhysicalProperties>>) {
        no_inputs()
    }

    fn compute_cost(&self, input_costs: &Vec<Cost>, stats: &Stats) -> (c: Cost) {
        let index_key_column_count = self.index_desc.key_columns_count() as u64;
        let cost_per_index_row = sum(
            times(index_key_column_count, COST_INDEX_FILTER_COST_UNIT),
            COST_INDEX_SCAN_TUP_COST_UNIT,
        );
        let row_count = stats.output_row_count();
        let cost_local = Cost::new(sum(times(row_count, cost_per_index_row), COST_INDEX_SCAN_TUP_RANDOM_FACTOR));
        cost_local.plus(cost_children(input_costs))
    }
}

} // verus!
