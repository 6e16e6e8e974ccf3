//! The scan of a relation.

use vstd::prelude::*;
use crate::expression::ColumnVar;
use crate::metadata::{MdAccessor, Stats};
use crate::operator::{LogicalOpView, LogicalOperator, OperatorId, ScanView};

verus! {

/// A reference to a relation, by the identifier of its metadata.
#[derive(Clone, Copy, Debug, PartialEq, Eq, Structural)]
pub struct TableDesc {
    pub mdid: u64,
}

impl TableDesc {
    pub fn new(mdid: u64) -> (t: Self)
        ensures
            t.mdid == mdid,
    {
        TableDesc { mdid }
    }

    pub fn mdid(&self) -> (id: u64)
        ensures
            id == self.mdid,
    {
        self.mdid
    }
}

/// A copy of `columns`.
pub fn copy_columns(columns: &Vec<ColumnVar>) -> (r: Vec<ColumnVar>)
    ensures
        r@ == columns@,
{
    let mut out: Vec<ColumnVar> = Vec::new();
    let mut i: usize = 0;
    while i < columns.len()
        invariant
            i <= columns.len(),
            out@ == columns@.take(i as int),
        decreases columns.len() - i,
    {
        out.push(columns[i]);
        i += 1;
    }
    out
}

/// Whether two lists of columns hold the same columns in the same places.
pub fn same_columns(a: &Vec<ColumnVar>, b: &Vec<ColumnVar>) -> (r: bool)
    ensures
        r == (a@ == b@),
{
    if a.len() != b.len() {
        return false;
    }
    let mut i: usize = 0;
    while i < a.len()
        invariant
            i <= a.len(),
            a.len() == b.len(),
            forall|j: int| 0 <= j < i ==> a@[j] == b@[j],
        decreases a.len() - i,
    {
        if a[i] != b[i] {
            return false;
        }
        i += 1;
    }
    assert(a@ =~= b@);
    true
}

/// The logical scan of a relation.
#[derive(Debug)]
pub struct LogicalScan {
    table_desc: TableDesc,
    output_columns: Vec<ColumnVar>,
}

impl View for LogicalScan {
    type V = ScanView;

    closed spec fn view(&self) -> ScanView {
        ScanView { table: self.table_desc.mdid, output_columns: self.output_columns@ }
    }
}

impl Clone for LogicalScan {
    fn clone(&self) -> (r: Self)
        ensures
            r@ == self@,
    {
        LogicalScan { table_desc: self.table_desc, output_columns: copy_columns(&self.output_columns) }
    }
}

impl LogicalScan {
    pub fn new(table_desc: TableDesc, output_columns: Vec<ColumnVar>) -> (s: Self)
        ensures
            s@ == (ScanView { table: table_desc.mdid, output_columns: output_columns@ }),
    {
        LogicalScan { table_desc, output_columns }
    }

    pub fn table_desc(&self) -> (t: &TableDesc)
        ensures
            t.mdid == self@.table,
    {
        &self.table_desc
    }

    pub fn output_columns(&self) -> (c: &Vec<ColumnVar>)
        ensures
            c@ == self@.output_columns,
    {
        &self.output_columns
    }

    pub fn equal(&self, other: &LogicalScan) -> (b: bool)
        ensures
            b == (self@ == other@),
    {
        self.table_desc.mdid == other.table_desc.mdid && same_columns(
            &self.output_columns,
            &other.output_columns,
        )
    }
}

impl LogicalOperator for LogicalScan {
    open spec fn logical_view(&self) -> LogicalOpView {
        LogicalOpView::Scan(self@)
    }

    fn name(&self) -> (n: &'static str) {
        "logical scan"
    }

    fn operator_id(&self) -> (id: OperatorId) {
        OperatorId::LogicalScan
    }

    fn arity(&self) -> (n: usize) {
        0
    }

    fn derive_statistics(&self, md_accessor: &MdAccessor, input_stats: &Vec<Stats>) -> (s: Option<Stats>) {
        derive_scan_stats(md_accessor, &self.table_desc)
    }
}

/// The statistics of a relation: its row count, where the metadata holds it.
pub fn derive_scan_stats(md_accessor: &MdAccessor, table_desc: &TableDesc) -> (s: Option<Stats>)
    ensures
        s == match md_accessor.relation_rows_spec(table_desc.mdid) {
            Some(rows) => Some(Stats { row_count: rows }),
            None => None,
        },
{
    match md_accessor.relation_rows(table_desc.mdid()) {
        Some(rows) => Some(Stats::new(rows)),
        None => None,
    }
}

} // verus!
