//! The physical sort.

use vstd::prelude::*;
use crate::cost::{cost_children, log2, times, Cost, COST_SORT_TUP_WIDTH_COST_UNIT};
use crate::metadata::Stats;
use crate::operator::{nothing_of_input, OperatorId, PhysicalOpView, PhysicalOperator};
use crate::property::{OrderSpec, PhysicalProperties, SortKey, SortProperty};

verus! {

/// The sort of its input into an order.
#[derive(Debug)]
pub struct PhysicalSort {
    order_spec: OrderSpec,
}

impl View for PhysicalSort {
    type V = Seq<SortKey>;

    closed spec fn view(&self) -> Seq<SortKey> {
        self.order_spec@
    }
}

impl Clone for PhysicalSort {
    fn clone(&self) -> (r: Self)
        ensures
            r@ == self@,
    {
        PhysicalSort { order_spec: self.order_spec.clone() }
    }
}

impl PhysicalSort {
    pub fn new(order_spec: OrderSpec) -> (s: Self)
        ensures
            s@ == order_spec@,
    {
        PhysicalSort { order_spec }
    }

    pub fn order_spec(&self) -> (o: &OrderSpec)
        ensures
            o@ == self@,
    {
        &self.order_spec
    }

    pub fn equal(&self, other: &PhysicalSort) -> (b: bool)
        ensures
            b == (self@ == other@),
    {
        self.order_spec.equal(&other.order_spec)
    }
}

impl SortProperty {
    /// The operator that enforces the property: the sort into its order.
    pub fn enforcer_operator(&self) -> (op: PhysicalSort)
        ensures
            op@ == self@,
    {
        PhysicalSort::new(self.order().clone())
    }
}

impl PhysicalOperator for PhysicalSort {
    open spec fn physical_view(&self) -> PhysicalOpView {
        PhysicalOpView::Sort(self@)
    }

    fn name(&self) -> (n: &'static str) {
        "physical sort"
    }

    fn operator_id(&self) -> (id: OperatorId) {
        OperatorId::PhysicalSort
    }

    fn arity(&self) -> (n: usize) {
        1
    }

    fn derive_output_properties(&self, child_props: &Vec<PhysicalProperties>) -> (d: PhysicalProperties) {
        PhysicalProperties::with_property(SortProperty::with_order(self.order_spec.clone()))
    }

    fn required_properties(&self, input_prop: &PhysicalProperties) -> (alts: Vec<Vec<PhysicalProperties>>) {
        nothing_of_input()
    }

    fn compute_cost(&self, input_costs: &Vec<Cost>, stats: &Stats) -> (c: Cost) {
        let rows = stats.output_row_count();
        let row_count = if rows < 1 {
            1
        } else {
            rows
        };
        let cost_local = Cost::new(times(times(row_count, log2(row_count)), COST_SORT_TUP_WIDTH_COST_UNIT));
        cost_local.plus(cost_children(input_costs))
    }
}

} // verus!
