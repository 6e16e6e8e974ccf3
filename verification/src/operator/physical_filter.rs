//! The physical filter.

use vstd::prelude::*;
use crate::column_set::ColumnRefSet;
use crate::cost::{cost_children, times, Cost, COST_FILTER_COL_COST_UNIT};
use crate::expression::{ExprView, ScalarExpr};
use crate::metadata::Stats;
use crate::operator::{pass_down, OperatorId, PhysicalOpView, PhysicalOperator};
use crate::property::PhysicalProperties;

verus! {

/// The filter that tests its predicate on every row of its input and
/// keeps the input's order.
#[derive(Debug)]
pub struct PhysicalFilter {
    predicate: ScalarExpr,
}

impl View for PhysicalFilter {
    type V = ExprView;

    closed spec fn view(&self) -> ExprView {
        self.predicate@
    }
}

impl Clone for PhysicalFilter {
    fn clone(&self) -> (r: Self)
        ensures
            r@ == self@,
    {
        PhysicalFilter { predicate: self.predicate.clone() }
    }
}

impl PhysicalFilter {
    /// The filter by `predicate`, which yields a truth value.
    pub fn new(predicate: ScalarExpr) -> (f: Self)
        requires
            !(predicate@ is Column),
        ensures
            f@ == predicate@,
    {
        PhysicalFilter { predicate }
    }

    pub fn predicate(&self) -> (p: &ScalarExpr)
        ensures
            p@ == self@,
    {
        &self.predicate
    }

    pub fn equal(&self, other: &PhysicalFilter) -> (b: bool)
        ensures
            b == (self@ == other@),
    {
        self.predicate.equal(other.predicate())
    }
}

impl PhysicalOperator for PhysicalFilter {
    open spec fn physical_view(&self) -> PhysicalOpView {
        PhysicalOpView::Filter(self@)
    }

    fn name(&self) -> (n: &'static str) {
        "physical filter"
    }

    fn operator_id(&self) -> (id: OperatorId) {
        OperatorId::PhysicalFilter
    }

    fn arity(&self) -> (n: usize) {
        1
    }

    fn derive_output_properties(&self, child_props: &Vec<PhysicalProperties>) -> (d: PhysicalProperties) {
        child_props[0].clone()
    }

    fn required_properties(&self, input_prop: &PhysicalProperties) -> (alts: Vec<Vec<PhysicalProperties>>) {
        pass_down(input_prop)
    }

    fn compute_cost(&self, input_costs: &Vec<Cost>, stats: &Stats) -> (c: Cost) {
        let mut filter_columns = ColumnRefSet::new();
        self.predicate.derive_used_columns(&mut filter_columns);
        assert(filter_columns@ =~= crate::expression::used_columns(self@));
        let filter_columns_count = filter_columns.len() as u64;

        let row_count = stats.output_row_count();
        let cost_local = Cost::new(times(times(row_count, filter_columns_count), COST_FILTER_COL_COST_UNIT));
        let cost_child = cost_children(input_costs);
        cost_local.plus(cost_child)
    }
}

} // verus!
