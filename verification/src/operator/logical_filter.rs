//! The selection of rows by a predicate.

use vstd::prelude::*;
use crate::expression::{ExprView, ScalarExpr};
use crate::metadata::{MdAccessor, Stats};
use crate::operator::{LogicalOpView, LogicalOperator, OperatorId};

verus! {

/// The logical filter: it keeps the rows on which its predicate holds.
#[derive(Debug)]
pub struct LogicalFilter {
    predicate: ScalarExpr,
}

impl View for LogicalFilter {
    type V = ExprView;

    closed spec fn view(&self) -> ExprView {
        self.predicate@
    }
}

impl Clone for LogicalFilter {
    fn clone(&self) -> (r: Self)
        ensures
            r@ == self@,
    {
        LogicalFilter { predicate: self.predicate.clone() }
    }
}

impl LogicalFilter {
    /// The filter by `predicate`, which yields a truth value.
    pub fn new(predicate: ScalarExpr) -> (f: Self)
        requires
            !(predicate@ is Column),
        ensures
            f@ == predicate@,
    {
        LogicalFilter { predicate }
    }

    pub fn predicate(&self) -> (p: &ScalarExpr)
        ensures
            p@ == self@,
    {
        &self.predicate
    }

    pub fn equal(&self, other: &LogicalFilter) -> (b: bool)
        ensures
            b == (self@ == other@),
    {
        self.predicate.equal(&other.predicate)
    }
}

impl LogicalOperator for LogicalFilter {
    open spec fn logical_view(&self) -> LogicalOpView {
        LogicalOpView::Filter(self@)
    }

    fn name(&self) -> (n: &'static str) {
        "logical filter"
    }

    fn operator_id(&self) -> (id: OperatorId) {
        OperatorId::LogicalFilter
    }

    fn arity(&self) -> (n: usize) {
        1
    }

    fn derive_statistics(&self, md_accessor: &MdAccessor, input_stats: &Vec<Stats>) -> (s: Option<Stats>) {
        Some(input_stats[0])
    }
}

} // verus!
