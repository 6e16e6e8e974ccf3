//! The physical projection.

use vstd::prelude::*;
use crate::cost::{cost_children, times, Cost, COST_TUP_DEFAULT_PROC_COST_UNIT};
use crate::expression::{views_of, ExprView, ScalarExpr};
use crate::metadata::Stats;
use crate::operator::logical_project::{copy_exprs, same_exprs};
use crate::operator::{pass_down, OperatorId, PhysicalOpView, PhysicalOperator};
use crate::property::PhysicalProperties;

verus! {

/// The projection that computes its expressions on every row of its input
/// and keeps the input's order.
#[derive(Debug)]
pub struct PhysicalProject {
    project: Vec<ScalarExpr>,
}

impl View for PhysicalProject {
    type V = Seq<ExprView>;

    closed spec fn view(&self) -> Seq<ExprView> {
        views_of(self.project@)
    }
}

impl Clone for PhysicalProject {
    fn clone(&self) -> (r: Self)
        ensures
            r@ == self@,
    {
        PhysicalProject { project: copy_exprs(&self.project) }
    }
}

impl PhysicalProject {
    pub fn new(project: Vec<ScalarExpr>) -> (p: Self)
        ensures
            p@ == views_of(project@),
    {
        PhysicalProject { project }
    }

    pub fn equal(&self, other: &PhysicalProject) -> (b: bool)
        ensures
            b == (self@ == other@),
    {
        same_exprs(&self.project, &other.project)
    }
}

impl PhysicalOperator for PhysicalProject {
    open spec fn physical_view(&self) -> PhysicalOpView {
        PhysicalOpView::Project(self@)
    }

    fn name(&self) -> (n: &'static str) {
        "physical project"
    }

    fn operator_id(&self) -> (id: OperatorId) {
        OperatorId::PhysicalProject
    }

    fn arity(&self) -> (n: usize) {
        1
    }

    fn derive_output_properties(&self, child_output_props: &Vec<PhysicalProperties>) -> (d: PhysicalProperties) {
        child_output_props[0].clone()
    }

    fn required_properties(&self, input_prop: &PhysicalProperties) -> (alts: Vec<Vec<PhysicalProperties>>) {
        pass_down(input_prop)
    }

    fn compute_cost(&self, input_costs: &Vec<Cost>, stats: &Stats) -> (c: Cost) {
        let row_count = stats.output_row_count();
        let cost_local = Cost::new(times(row_count, COST_TUP_DEFAULT_PROC_COST_UNIT));
        cost_local.plus(cost_children(input_costs))
    }
}

} // verus!
