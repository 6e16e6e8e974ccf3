//! The physical scan of a relation.

use vstd::prelude::*;
use crate::cost::{cost_children, sum, times, Cost, COST_INIT_SCAN_FACTOR, COST_TABLE_SCAN_COST_UNIT};
use crate::expression::ColumnVar;
use crate::metadata::Stats;
use crate::operator::logical_scan::{copy_columns, same_columns, TableDesc};
use crate::operator::{no_inputs, OperatorId, PhysicalOpView, PhysicalOperator, ScanView};
use crate::property::PhysicalProperties;

verus! {

/// The scan that reads every row of a relation, in no order.
#[derive(Debug)]
pub struct PhysicalScan {
    table_desc: TableDesc,
    output_columns: Vec<ColumnVar>,
}

impl View for PhysicalScan {
    type V = ScanView;

    closed spec fn view(&self) -> ScanView {
        ScanView { table: self.table_desc.mdid, output_columns: self.output_columns@ }
    }
}

impl Clone for PhysicalScan {
    fn clone(&self) -> (r: Self)
        ensures
            r@ == self@,
    {
        PhysicalScan { table_desc: self.table_desc, output_columns: copy_columns(&self.output_columns) }
    }
}

impl PhysicalScan {
    pub fn new(table_desc: TableDesc, output_columns: Vec<ColumnVar>) -> (s: Self)
        ensures
            s@ == (ScanView { table: table_desc.mdid, output_columns: output_columns@ }),
    {
        PhysicalScan { table_desc, output_columns }
    }

    pub fn equal(&self, other: &PhysicalScan) -> (b: bool)
        ensures
            b == (self@ == other@),
    {
        self.table_desc.mdid == other.table_desc.mdid && same_columns(
            &self.output_columns,
            &other.output_columns,
        )
    }
}

impl PhysicalOperator for PhysicalScan {
    open spec fn physical_view(&self) -> PhysicalOpView {
        PhysicalOpView::Scan(self@)
    }

    fn name(&self) -> (n: &'static str) {
        "physical scan"
    }

    fn operator_id(&self) -> (id: OperatorId) {
        OperatorId::PhysicalScan
    }

    fn arity(&self) -> (n: usize) {
        0
    }

    fn derive_output_properties(&self, child_props: &Vec<PhysicalProperties>) -> (d: PhysicalProperties) {
        PhysicalProperties::new()
    }

    fn required_properties(&self, input_prop: &PhysicalProperties) -> (alts: Vec<Vec<PhysicalProperties>>) {
        no_inputs()
    }

    fn compute_cost(&self, input_costs: &Vec<Cost>, stats: &Stats) -> (c: Cost) {
        let row_count = stats.output_row_count();
        let cost_local = Cost::new(sum(COST_INIT_SCAN_FACTOR, times(row_count, COST_TABLE_SCAN_COST_UNIT)));
        cost_local.plus(cost_children(input_costs))
    }
}

} // verus!
