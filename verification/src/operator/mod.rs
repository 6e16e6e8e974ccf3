//! The operators of logical and physical plans, and what the search asks of them.

pub mod catalog;
pub mod logical_filter;
pub mod logical_index_scan;
pub mod logical_project;
pub mod logical_scan;
pub mod physical_filter;
pub mod physical_index_scan;
pub mod physical_project;
pub mod physical_scan;
pub mod physical_sort;

use vstd::prelude::*;
use crate::cost::{
    plus_spec, sum_spec, times_spec, total_spec, log2_spec, Cost, COST_FILTER_COL_COST_UNIT,
    COST_INDEX_FILTER_COST_UNIT, COST_INDEX_SCAN_TUP_COST_UNIT, COST_INDEX_SCAN_TUP_RANDOM_FACTOR,
    COST_INIT_SCAN_FACTOR, COST_SORT_TUP_WIDTH_COST_UNIT, COST_TABLE_SCAN_COST_UNIT,
    COST_TUP_DEFAULT_PROC_COST_UNIT,
};
use crate::expression::{used_columns, ColumnVar, ExprView};
use crate::metadata::{IndexType, MdAccessor, Stats};
use crate::property::{alts_views, props_views, PhysicalProperties, SortKey};

verus! {

/// The kinds of operators.
#[derive(Clone, Copy, Debug, PartialEq, Eq, Structural)]
pub enum OperatorId {
    LogicalScan,
    LogicalFilter,
    LogicalProject,
    LogicalIndexScan,
    PhysicalScan,
    PhysicalFilter,
    PhysicalProject,
    PhysicalSort,
    PhysicalIndexScan,
}

/// What a scan says: the relation it reads and the columns it yields.
pub ghost struct ScanView {
    pub table: u64,
    pub output_columns: Seq<ColumnVar>,
}

/// What the description of an index says.
pub ghost struct IndexDescView {
    pub mdid: u64,
    pub name: Seq<char>,
    pub index_type: IndexType,
    pub key_columns: Seq<ColumnVar>,
    pub included_columns: Seq<ColumnVar>,
}

/// What an index scan says: the index, the relation, the columns it
/// yields, and the predicate it applies.
pub ghost struct IndexScanView {
    pub index: IndexDescView,
    pub table: u64,
    pub output_columns: Seq<ColumnVar>,
    pub predicate: ExprView,
}

/// What a logical operator says: its kind and its parameters.
pub ghost enum LogicalOpView {
    Scan(ScanView),
    Filter(ExprView),
    Project(Seq<ExprView>),
    IndexScan(IndexScanView),
}

/// What a physical operator says: its kind and its parameters.
pub ghost enum PhysicalOpView {
    Scan(ScanView),
    Filter(ExprView),
    Project(Seq<ExprView>),
    Sort(Seq<SortKey>),
    IndexScan(IndexScanView),
}

/// What an operator says.
pub ghost enum OperatorView {
    Logical(LogicalOpView),
    Physical(PhysicalOpView),
}

/// The kind of a logical operator.
pub open spec fn logical_id(op: LogicalOpView) -> OperatorId {
    match op {
        LogicalOpView::Scan(_) => OperatorId::LogicalScan,
        LogicalOpView::Filter(_) => OperatorId::LogicalFilter,
        LogicalOpView::Project(_) => OperatorId::LogicalProject,
        LogicalOpView::IndexScan(_) => OperatorId::LogicalIndexScan,
    }
}

/// The kind of a physical operator.
pub open spec fn physical_id(op: PhysicalOpView) -> OperatorId {
    match op {
        PhysicalOpView::Scan(_) => OperatorId::PhysicalScan,
        PhysicalOpView::Filter(_) => OperatorId::PhysicalFilter,
        PhysicalOpView::Project(_) => OperatorId::PhysicalProject,
        PhysicalOpView::Sort(_) => OperatorId::PhysicalSort,
        PhysicalOpView::IndexScan(_) => OperatorId::PhysicalIndexScan,
    }
}

/// The kind of an operator.
pub open spec fn operator_id_spec(op: OperatorView) -> OperatorId {
    match op {
        OperatorView::Logical(l) => logical_id(l),
        OperatorView::Physical(p) => physical_id(p),
    }
}

/// The name of a kind of operator.
pub open spec fn name_spec(id: OperatorId) -> Seq<char> {
    match id {
        OperatorId::LogicalScan => "logical scan"@,
        OperatorId::LogicalFilter => "logical filter"@,
        OperatorId::LogicalProject => "logical project"@,
        OperatorId::LogicalIndexScan => "logical index scan"@,
        OperatorId::PhysicalScan => "physical scan"@,
        OperatorId::PhysicalFilter => "physical filter"@,
        OperatorId::PhysicalProject => "physical project"@,
        OperatorId::PhysicalSort => "physical sort"@,
        OperatorId::PhysicalIndexScan => "physical index scan"@,
    }
}

/// The number of inputs of a logical operator.
pub open spec fn logical_arity(op: LogicalOpView) -> nat {
    match op {
        LogicalOpView::Scan(_) => 0,
        LogicalOpView::Filter(_) => 1,
        LogicalOpView::Project(_) => 1,
        LogicalOpView::IndexScan(_) => 0,
    }
}

/// The number of inputs of a physical operator.
pub open spec fn physical_arity(op: PhysicalOpView) -> nat {
    match op {
        PhysicalOpView::Scan(_) => 0,
        PhysicalOpView::Filter(_) => 1,
        PhysicalOpView::Project(_) => 1,
        PhysicalOpView::Sort(_) => 1,
        PhysicalOpView::IndexScan(_) => 0,
    }
}

/// The number of inputs of an operator.
pub open spec fn arity_spec(op: OperatorView) -> nat {
    match op {
        OperatorView::Logical(l) => logical_arity(l),
        OperatorView::Physical(p) => physical_arity(p),
    }
}

/// The statistics of a logical operator's result: those of the relation
/// for a scan, through an index or not, and those of the input for a
/// filter or a projection; none where the metadata lacks the relation.
pub open spec fn logical_rows(op: LogicalOpView, md: MdAccessor, inputs: Seq<Stats>) -> Option<Stats> {
    match op {
        LogicalOpView::Scan(s) => match md.relation_rows_spec(s.table) {
            Some(rows) => Some(Stats { row_count: rows }),
            None => None,
        },
        LogicalOpView::Filter(_) => Some(inputs[0]),
        LogicalOpView::Project(_) => Some(inputs[0]),
        LogicalOpView::IndexScan(s) => match md.relation_rows_spec(s.table) {
            Some(rows) => Some(Stats { row_count: rows }),
            None => None,
        },
    }
}

/// The order in which an index yields its rows: by its key columns,
/// ascending, nulls first.
pub open spec fn index_order(keys: Seq<ColumnVar>) -> Seq<SortKey> {
    Seq::new(keys.len(), |i: int| SortKey { key: keys[i], ascending: true, nulls_first: true })
}

/// The properties that a physical operator delivers, given those that its
/// inputs deliver: a scan none, an index scan the order of its key, a
/// filter or a projection what its input delivers, and a sort its own
/// order, whatever its input delivers.
pub open spec fn delivered_spec(op: PhysicalOpView, inputs: Seq<Seq<SortKey>>) -> Seq<SortKey> {
    match op {
        PhysicalOpView::Scan(_) => Seq::empty(),
        PhysicalOpView::Filter(_) => inputs[0],
        PhysicalOpView::Project(_) => inputs[0],
        PhysicalOpView::Sort(order) => order,
        PhysicalOpView::IndexScan(s) => index_order(s.index.key_columns),
    }
}

/// The alternatives of what a physical operator asks of its inputs when
/// `required` is asked of it: each alternative holds one requirement per
/// input. A filter or a projection hands the requirement down, or asks
/// nothing; a sort asks nothing; an operator without inputs has the one
/// alternative that holds nothing.
pub open spec fn required_spec(op: PhysicalOpView, required: Seq<SortKey>) -> Seq<Seq<Seq<SortKey>>> {
    match op {
        PhysicalOpView::Scan(_) => seq![Seq::empty()],
        PhysicalOpView::Filter(_) => seq![seq![required], seq![Seq::empty()]],
        PhysicalOpView::Project(_) => seq![seq![required], seq![Seq::empty()]],
        PhysicalOpView::Sort(_) => seq![seq![Seq::empty()]],
        PhysicalOpView::IndexScan(_) => seq![Seq::empty()],
    }
}

/// The larger of a row count and one.
pub open spec fn at_least_one(rows: u64) -> u64 {
    if rows < 1 {
        1
    } else {
        rows
    }
}

/// What a physical operator costs by itself on a result of `rows` rows.
pub open spec fn local_cost_spec(op: PhysicalOpView, rows: u64) -> Cost {
    match op {
        PhysicalOpView::Scan(_) => Cost {
            value: sum_spec(COST_INIT_SCAN_FACTOR, times_spec(rows, COST_TABLE_SCAN_COST_UNIT)),
        },
        PhysicalOpView::Filter(p) => Cost {
            value: times_spec(
                times_spec(rows, used_columns(p).len() as u64),
                COST_FILTER_COL_COST_UNIT,
            ),
        },
        PhysicalOpView::Project(_) => Cost { value: times_spec(rows, COST_TUP_DEFAULT_PROC_COST_UNIT) },
        PhysicalOpView::Sort(_) => Cost {
            value: times_spec(
                times_spec(at_least_one(rows), log2_spec(at_least_one(rows)) as u64),
                COST_SORT_TUP_WIDTH_COST_UNIT,
            ),
        },
        PhysicalOpView::IndexScan(s) => Cost {
            value: sum_spec(
                times_spec(
                    rows,
                    sum_spec(
                        times_spec(s.index.key_columns.len() as u64, COST_INDEX_FILTER_COST_UNIT),
                        COST_INDEX_SCAN_TUP_COST_UNIT,
                    ),
                ),
                COST_INDEX_SCAN_TUP_RANDOM_FACTOR,
            ),
        },
    }
}

/// The cost of a plan whose root is `op`: what the operator costs by
/// itself, and the costs of its inputs' plans.
pub open spec fn cost_spec(op: PhysicalOpView, input_costs: Seq<Cost>, rows: u64) -> Cost {
    plus_spec(local_cost_spec(op, rows), total_spec(input_costs))
}

/// What the search asks of a logical operator.
pub trait LogicalOperator {
    /// What the operator says.
    spec fn logical_view(&self) -> LogicalOpView;

    fn name(&self) -> (n: &'static str)
        ensures
            n@ == name_spec(logical_id(self.logical_view())),
    ;

    fn operator_id(&self) -> (id: OperatorId)
        ensures
            id == logical_id(self.logical_view()),
    ;

    /// The number of inputs.
    fn arity(&self) -> (n: usize)
        ensures
            n == logical_arity(self.logical_view()),
    ;

    /// The statistics of the result, from those of the inputs.
    fn derive_statistics(&self, md_accessor: &MdAccessor, input_stats: &Vec<Stats>) -> (s: Option<Stats>)
        requires
            input_stats@.len() == logical_arity(self.logical_view()),
        ensures
            s == logical_rows(self.logical_view(), *md_accessor, input_stats@),
    ;
}

/// What the search asks of a physical operator.
pub trait PhysicalOperator {
    /// What the operator says.
    spec fn physical_view(&self) -> PhysicalOpView;

    fn name(&self) -> (n: &'static str)
        ensures
            n@ == name_spec(physical_id(self.physical_view())),
    ;

    fn operator_id(&self) -> (id: OperatorId)
        ensures
            id == physical_id(self.physical_view()),
    ;

    /// The number of inputs.
    fn arity(&self) -> (n: usize)
        ensures
            n == physical_arity(self.physical_view()),
    ;

    /// The properties that the operator delivers over inputs that deliver
    /// `child_props`.
    fn derive_output_properties(&self, child_props: &Vec<PhysicalProperties>) -> (d: PhysicalProperties)
        requires
            child_props@.len() == physical_arity(self.physical_view()),
        ensures
            d@ == delivered_spec(self.physical_view(), props_views(child_props@)),
    ;

    /// The alternatives of what the operator asks of its inputs when
    /// `input_prop` is asked of it.
    fn required_properties(&self, input_prop: &PhysicalProperties) -> (alts: Vec<Vec<PhysicalProperties>>)
        ensures
            alts_views(alts@) == required_spec(self.physical_view(), input_prop@),
    ;

    /// The cost of the plan that runs the operator over inputs whose plans
    /// cost `input_costs`, on a result that `stats` describe.
    fn compute_cost(&self, input_costs: &Vec<Cost>, stats: &Stats) -> (c: Cost)
        ensures
            c == cost_spec(self.physical_view(), input_costs@, stats.row_count),
    ;
}

/// The one alternative of an operator without inputs: it asks nothing of nobody.
pub fn no_inputs() -> (alts: Vec<Vec<PhysicalProperties>>)
    ensures
        alts_views(alts@) == seq![Seq::<Seq<SortKey>>::empty()],
{
    let mut alts: Vec<Vec<PhysicalProperties>> = Vec::new();
    alts.push(Vec::new());
    assert(alts_views(alts@) =~= seq![Seq::<Seq<SortKey>>::empty()]) by {
        assert(props_views(alts@[0]@) =~= Seq::<Seq<SortKey>>::empty());
    }
    alts
}

/// The one alternative that asks nothing of the one input.
pub fn nothing_of_input() -> (alts: Vec<Vec<PhysicalProperties>>)
    ensures
        alts_views(alts@) == seq![seq![Seq::<SortKey>::empty()]],
{
    let mut alt: Vec<PhysicalProperties> = Vec::new();
    alt.push(PhysicalProperties::new());
    let mut alts: Vec<Vec<PhysicalProperties>> = Vec::new();
    alts.push(alt);
    assert(alts_views(alts@) =~= seq![seq![Seq::<SortKey>::empty()]]) by {
        assert(props_views(alts@[0]@) =~= seq![Seq::<SortKey>::empty()]);
    }
    alts
}

/// The two alternatives of an operator that keeps the order of its one
/// input: to hand `input_prop` down, or to ask nothing.
pub fn pass_down(input_prop: &PhysicalProperties) -> (alts: Vec<Vec<PhysicalProperties>>)
    ensures
        alts_views(alts@) == seq![seq![input_prop@], seq![Seq::<SortKey>::empty()]],
{
    let mut first: Vec<PhysicalProperties> = Vec::new();
    first.push(input_prop.clone());
    let mut second: Vec<PhysicalProperties> = Vec::new();
    second.push(PhysicalProperties::new());
    let mut alts: Vec<Vec<PhysicalProperties>> = Vec::new();
    alts.push(first);
    alts.push(second);
    assert(alts_views(alts@) =~= seq![seq![input_prop@], seq![Seq::<SortKey>::empty()]]) by {
        assert(props_views(alts@[0]@) =~= seq![input_prop@]);
        assert(props_views(alts@[1]@) =~= seq![Seq::<SortKey>::empty()]);
    }
    alts
}

} // verus!
