//! The closed catalog of operators, as tagged variants.

use vstd::prelude::*;
use crate::cost::Cost;
use crate::metadata::{MdAccessor, Stats};
use crate::operator::logical_filter::LogicalFilter;
use crate::operator::logical_index_scan::LogicalIndexScan;
use crate::operator::logical_project::LogicalProject;
use crate::operator::logical_scan::LogicalScan;
use crate::operator::physical_filter::PhysicalFilter;
use crate::operator::physical_index_scan::PhysicalIndexScan;
use crate::operator::physical_project::PhysicalProject;
use crate::operator::physical_scan::PhysicalScan;
use crate::operator::physical_sort::PhysicalSort;
use crate::operator::{
    LogicalOpView, LogicalOperator, OperatorId, OperatorView, PhysicalOpView, PhysicalOperator,
};
use crate::property::PhysicalProperties;

verus! {

/// A logical operator of the catalog.
#[derive(Debug)]
pub enum LogicalOp {
    Scan(LogicalScan),
    Filter(LogicalFilter),
    Project(LogicalProject),
    IndexScan(LogicalIndexScan),
}

/// A physical operator of the catalog.
#[derive(Debug)]
pub enum PhysicalOp {
    Scan(PhysicalScan),
    Filter(PhysicalFilter),
    Project(PhysicalProject),
    Sort(PhysicalSort),
    IndexScan(PhysicalIndexScan),
}

impl View for LogicalOp {
    type V = LogicalOpView;

    open spec fn view(&self) -> LogicalOpView {
        match self {
            LogicalOp::Scan(o) => LogicalOpView::Scan(o@),
            LogicalOp::Filter(o) => LogicalOpView::Filter(o@),
            LogicalOp::Project(o) => LogicalOpView::Project(o@),
            LogicalOp::IndexScan(o) => LogicalOpView::IndexScan(o@),
        }
    }
}

impl View for PhysicalOp {
    type V = PhysicalOpView;

    open spec fn view(&self) -> PhysicalOpView {
        match self {
            PhysicalOp::Scan(o) => PhysicalOpView::Scan(o@),
            PhysicalOp::Filter(o) => PhysicalOpView::Filter(o@),
            PhysicalOp::Project(o) => PhysicalOpView::Project(o@),
            PhysicalOp::Sort(o) => PhysicalOpView::Sort(o@),
            PhysicalOp::IndexScan(o) => PhysicalOpView::IndexScan(o@),
        }
    }
}

impl Clone for LogicalOp {
    fn clone(&self) -> (r: Self)
        ensures
            r@ == self@,
    {
        match self {
            LogicalOp::Scan(o) => LogicalOp::Scan(o.clone()),
            LogicalOp::Filter(o) => LogicalOp::Filter(o.clone()),
            LogicalOp::Project(o) => LogicalOp::Project(o.clone()),
            LogicalOp::IndexScan(o) => LogicalOp::IndexScan(o.clone()),
        }
    }
}

impl Clone for PhysicalOp {
    fn clone(&self) -> (r: Self)
        ensures
            r@ == self@,
    {
        match self {
            PhysicalOp::Scan(o) => PhysicalOp::Scan(o.clone()),
            PhysicalOp::Filter(o) => PhysicalOp::Filter(o.clone()),
            PhysicalOp::Project(o) => PhysicalOp::Project(o.clone()),
            PhysicalOp::Sort(o) => PhysicalOp::Sort(o.clone()),
            PhysicalOp::IndexScan(o) => PhysicalOp::IndexScan(o.clone()),
        }
    }
}

impl LogicalOp {
    /// Whether the two operators are of one kind and have the same parameters.
    pub fn equal(&self, other: &LogicalOp) -> (b: bool)
        ensures
            b == (self@ == other@),
    {
        match (self, other) {
            (LogicalOp::Scan(a), LogicalOp::Scan(b)) => a.equal(b),
            (LogicalOp::Filter(a), LogicalOp::Filter(b)) => a.equal(b),
            (LogicalOp::Project(a), LogicalOp::Project(b)) => a.equal(b),
            (LogicalOp::IndexScan(a), LogicalOp::IndexScan(b)) => a.equal(b),
            _ => false,
        }
    }
}

impl PhysicalOp {
    /// Whether the two operators are of one kind and have the same parameters.
    pub fn equal(&self, other: &PhysicalOp) -> (b: bool)
        ensures
            b == (self@ == other@),
    {
        match (self, other) {
            (PhysicalOp::Scan(a), PhysicalOp::Scan(b)) => a.equal(b),
            (PhysicalOp::Filter(a), PhysicalOp::Filter(b)) => a.equal(b),
            (PhysicalOp::Project(a), PhysicalOp::Project(b)) => a.equal(b),
            (PhysicalOp::Sort(a), PhysicalOp::Sort(b)) => a.equal(b),
            (PhysicalOp::IndexScan(a), PhysicalOp::IndexScan(b)) => a.equal(b),
            _ => false,
        }
    }
}

impl LogicalOperator for LogicalOp {
    open spec fn logical_view(&self) -> LogicalOpView {
        self@
    }

    fn name(&self) -> (n: &'static str) {
        match self {
            LogicalOp::Scan(o) => o.name(),
            LogicalOp::Filter(o) => o.name(),
            LogicalOp::Project(o) => o.name(),
            LogicalOp::IndexScan(o) => o.name(),
        }
    }

    fn operator_id(&self) -> (id: OperatorId) {
        match self {
            LogicalOp::Scan(o) => o.operator_id(),
            LogicalOp::Filter(o) => o.operator_id(),
            LogicalOp::Project(o) => o.operator_id(),
            LogicalOp::IndexScan(o) => o.operator_id(),
        }
    }

    fn arity(&self) -> (n: usize) {
        match self {
            LogicalOp::Scan(o) => o.arity(),
            LogicalOp::Filter(o) => o.arity(),
            LogicalOp::Project(o) => o.arity(),
            LogicalOp::IndexScan(o) => o.arity(),
        }
    }

    fn derive_statistics(&self, md_accessor: &MdAccessor, input_stats: &Vec<Stats>) -> (s: Option<Stats>) {
        match self {
            LogicalOp::Scan(o) => o.derive_statistics(md_accessor, input_stats),
            LogicalOp::Filter(o) => o.derive_statistics(md_accessor, input_stats),
            LogicalOp::Project(o) => o.derive_statistics(md_accessor, input_stats),
            LogicalOp::IndexScan(o) => o.derive_statistics(md_accessor, input_stats),
        }
    }
}

impl PhysicalOperator for PhysicalOp {
    open spec fn physical_view(&self) -> PhysicalOpView {
        self@
    }

    fn name(&self) -> (n: &'static str) {
        match self {
            PhysicalOp::Scan(o) => o.name(),
            PhysicalOp::Filter(o) => o.name(),
            PhysicalOp::Project(o) => o.name(),
            PhysicalOp::Sort(o) => o.name(),
            PhysicalOp::IndexScan(o) => o.name(),
        }
    }

    fn operator_id(&self) -> (id: OperatorId) {
        match self {
            PhysicalOp::Scan(o) => o.operator_id(),
            PhysicalOp::Filter(o) => o.operator_id(),
            PhysicalOp::Project(o) => o.operator_id(),
            PhysicalOp::Sort(o) => o.operator_id(),
            PhysicalOp::IndexScan(o) => o.operator_id(),
        }
    }

    fn arity(&self) -> (n: usize) {
        match self {
            PhysicalOp::Scan(o) => o.arity(),
            PhysicalOp::Filter(o) => o.arity(),
            PhysicalOp::Project(o) => o.arity(),
            PhysicalOp::Sort(o) => o.arity(),
            PhysicalOp::IndexScan(o) => o.arity(),
        }
    }

    fn derive_output_properties(&self, child_props: &Vec<PhysicalProperties>) -> (d: PhysicalProperties) {
        match self {
            PhysicalOp::Scan(o) => o.derive_output_properties(child_props),
            PhysicalOp::Filter(o) => o.derive_output_properties(child_props),
            PhysicalOp::Project(o) => o.derive_output_properties(child_props),
            PhysicalOp::Sort(o) => o.derive_output_properties(child_props),
            PhysicalOp::IndexScan(o) => o.derive_output_properties(child_props),
        }
    }

    fn required_properties(&self, input_prop: &PhysicalProperties) -> (alts: Vec<Vec<PhysicalProperties>>) {
        match self {
            PhysicalOp::Scan(o) => o.required_properties(input_prop),
            PhysicalOp::Filter(o) => o.required_properties(input_prop),
            PhysicalOp::Project(o) => o.required_properties(input_prop),
            PhysicalOp::Sort(o) => o.required_properties(input_prop),
            PhysicalOp::IndexScan(o) => o.required_properties(input_prop),
        }
    }

    fn compute_cost(&self, input_costs: &Vec<Cost>, stats: &Stats) -> (c: Cost) {
        match self {
            PhysicalOp::Scan(o) => o.compute_cost(input_costs, stats),
            PhysicalOp::Filter(o) => o.compute_cost(input_costs, stats),
            PhysicalOp::Project(o) => o.compute_cost(input_costs, stats),
            PhysicalOp::Sort(o) => o.compute_cost(input_costs, stats),
            PhysicalOp::IndexScan(o) => o.compute_cost(input_costs, stats),
        }
    }
}

/// An operator: logical or physical.
#[derive(Debug)]
pub enum Operator {
    Logical(LogicalOp),
    Physical(PhysicalOp),
}

impl View for Operator {
    type V = OperatorView;

    open spec fn view(&self) -> OperatorView {
        match self {
            Operator::Logical(o) => OperatorView::Logical(o@),
            Operator::Physical(o) => OperatorView::Physical(o@),
        }
    }
}

impl Clone for Operator {
    fn clone(&self) -> (r: Self)
        ensures
            r@ == self@,
    {
        match self {
            Operator::Logical(o) => Operator::Logical(o.clone()),
            Operator::Physical(o) => Operator::Physical(o.clone()),
        }
    }
}

impl Operator {
    #[inline]
    pub fn is_logical(&self) -> (b: bool)
        ensures
            b == (self@ is Logical),
    {
        match self {
            Operator::Logical(_) => true,
            Operator::Physical(_) => false,
        }
    }

    #[inline]
    pub fn is_physical(&self) -> (b: bool)
        ensures
            b == (self@ is Physical),
    {
        match self {
            Operator::Logical(_) => false,
            Operator::Physical(_) => true,
        }
    }

    /// The logical operator that this is.
    #[inline]
    pub fn logical_op(&self) -> (op: &LogicalOp)
        requires
            self@ is Logical,
        ensures
            self@ == OperatorView::Logical(op@),
    {
        match self {
            Operator::Logical(op) => op,
            Operator::Physical(_) => {
                proof {
                    assert(false);
                }
                vstd::pervasive::unreached()
            },
        }
    }

    /// The physical operator that this is.
    #[inline]
    pub fn physical_op(&self) -> (op: &PhysicalOp)
        requires
            self@ is Physical,
        ensures
            self@ == OperatorView::Physical(op@),
    {
        match self {
            Operator::Logical(_) => {
                proof {
                    assert(false);
                }
                vstd::pervasive::unreached()
            },
            Operator::Physical(op) => op,
        }
    }

    /// The number of inputs.
    pub fn arity(&self) -> (n: usize)
        ensures
            n == crate::operator::arity_spec(self@),
    {
        match self {
            Operator::Logical(op) => op.arity(),
            Operator::Physical(op) => op.arity(),
        }
    }

    pub fn operator_id(&self) -> (id: OperatorId)
        ensures
            id == crate::operator::operator_id_spec(self@),
    {
        match self {
            Operator::Logical(op) => op.operator_id(),
            Operator::Physical(op) => op.operator_id(),
        }
    }

    /// Whether the two operators are of one kind and have the same parameters.
    pub fn equal(&self, other: &Operator) -> (b: bool)
        ensures
            b == (self@ == other@),
    {
        match (self, other) {
            (Operator::Logical(a), Operator::Logical(b)) => a.equal(b),
            (Operator::Physical(a), Operator::Physical(b)) => a.equal(b),
            _ => false,
        }
    }
}

} // verus!
