//! The projection of rows onto expressions.

use vstd::prelude::*;
use crate::expression::{views_of, ExprView, ScalarExpr};
use crate::metadata::{MdAccessor, Stats};
use crate::operator::{LogicalOpView, LogicalOperator, OperatorId};

verus! {

/// A copy of `exprs`.
pub fn copy_exprs(exprs: &Vec<ScalarExpr>) -> (r: Vec<ScalarExpr>)
    ensures
        views_of(r@) == views_of(exprs@),
{
    let mut out: Vec<ScalarExpr> = Vec::new();
    let mut i: usize = 0;
    while i < exprs.len()
        invariant
            i <= exprs.len(),
            out@.len() == i,
            forall|j: int| 0 <= j < i ==> (#[trigger] out@[j])@ == exprs@[j]@,
        decreases exprs.len() - i,
    {
        out.push(exprs[i].clone());
        i += 1;
    }
    assert(views_of(out@) =~= views_of(exprs@));
    out
}

/// Whether two lists of expressions say the same, place by place.
pub fn same_exprs(a: &Vec<ScalarExpr>, b: &Vec<ScalarExpr>) -> (r: bool)
    ensures
        r == (views_of(a@) == views_of(b@)),
{
    if a.len() != b.len() {
        assert(views_of(a@).len() != views_of(b@).len());
        return false;
    }
    let mut i: usize = 0;
    while i < a.len()
        invariant
            i <= a.len(),
            a.len() == b.len(),
            forall|j: int| 0 <= j < i ==> (#[trigger] a@[j])@ == b@[j]@,
        decreases a.len() - i,
    {
        if !a[i].equal(&b[i]) {
            assert(views_of(a@)[i as int] != views_of(b@)[i as int]);
            return false;
        }
        i += 1;
    }
    assert(views_of(a@) =~= views_of(b@));
    true
}

/// The logical projection: it yields the values of its expressions.
#[derive(Debug)]
pub struct LogicalProject {
    project: Vec<ScalarExpr>,
}

impl View for LogicalProject {
    type V = Seq<ExprView>;

    closed spec fn view(&self) -> Seq<ExprView> {
        views_of(self.project@)
    }
}

impl Clone for LogicalProject {
    fn clone(&self) -> (r: Self)
        ensures
            r@ == self@,
    {
        LogicalProject { project: copy_exprs(&self.project) }
    }
}

impl LogicalProject {
    pub fn new(project: Vec<ScalarExpr>) -> (p: Self)
        ensures
            p@ == views_of(project@),
    {
        LogicalProject { project }
    }

    pub fn project(&self) -> (p: &Vec<ScalarExpr>)
        ensures
            views_of(p@) == self@,
    {
        &self.project
    }

    pub fn equal(&self, other: &LogicalProject) -> (b: bool)
        ensures
            b == (self@ == other@),
    {
        same_exprs(&self.project, &other.project)
    }
}

impl LogicalOperator for LogicalProject {
    open spec fn logical_view(&self) -> LogicalOpView {
        LogicalOpView::Project(self@)
    }

    fn name(&self) -> (n: &'static str) {
        "logical project"
    }

    fn operator_id(&self) -> (id: OperatorId) {
        OperatorId::LogicalProject
    }

    fn arity(&self) -> (n: usize) {
        1
    }

    fn derive_statistics(&self, md_accessor: &MdAccessor, input_stats: &Vec<Stats>) -> (s: Option<Stats>) {
        Some(input_stats[0])
    }
}

} // verus!
