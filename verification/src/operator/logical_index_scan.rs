//! The scan of a relation through an index.

use vstd::prelude::*;
use crate::expression::{ColumnVar, ScalarExpr};
use crate::metadata::{IndexMd, IndexType, MdAccessor, Stats};
use crate::operator::logical_scan::{copy_columns, derive_scan_stats, same_columns, TableDesc};
use crate::operator::{IndexDescView, IndexScanView, LogicalOpView, LogicalOperator, OperatorId};

verus! {

/// The description of an index, as an operator holds it.
#[derive(Debug)]
pub struct IndexDesc {
    mdid: u64,
    name: String,
    index_type: IndexType,
    key_columns: Vec<ColumnVar>,
    included_columns: Vec<ColumnVar>,
}

impl View for IndexDesc {
    type V = IndexDescView;

    closed spec fn view(&self) -> IndexDescView {
        IndexDescView {
            mdid: self.mdid,
            name: self.name@,
            index_type: self.index_type,
            key_columns: self.key_columns@,
            included_columns: self.included_columns@,
        }
    }
}

impl Clone for IndexDesc {
    fn clone(&self) -> (r: Self)
        ensures
            r@ == self@,
    {
        IndexDesc {
            mdid: self.mdid,
            name: self.name.clone(),
            index_type: self.index_type,
            key_columns: copy_columns(&self.key_columns),
            included_columns: copy_columns(&self.included_columns),
        }
    }
}

impl IndexDesc {
    pub fn new(
        mdid: u64,
        name: String,
        index_type: IndexType,
        key_columns: Vec<ColumnVar>,
        included_columns: Vec<ColumnVar>,
    ) -> (d: Self)
        ensures
            d@ == (IndexDescView {
                mdid,
                name: name@,
                index_type,
                key_columns: key_columns@,
                included_columns: included_columns@,
            }),
    {
        Self { mdid, name, index_type, key_columns, included_columns }
    }

    pub fn key_columns(&self) -> (k: &Vec<ColumnVar>)
        ensures
            k@ == self@.key_columns,
    {
        &self.key_columns
    }

    pub fn included_columns(&self) -> (k: &Vec<ColumnVar>)
        ensures
            k@ == self@.included_columns,
    {
        &self.included_columns
    }

    pub fn key_columns_count(&self) -> (n: usize)
        ensures
            n == self@.key_columns.len(),
    {
        self.key_columns.len()
    }

    pub fn equal(&self, other: &IndexDesc) -> (b: bool)
        ensures
            b == (self@ == other@),
    {
        let b = self.mdid == other.mdid && self.name == other.name && self.index_type
            == other.index_type && same_columns(&self.key_columns, &other.key_columns)
            && same_columns(&self.included_columns, &other.included_columns);
        b
    }
}

/// The logical scan of a relation through an index, which applies a predicate.
#[derive(Debug)]
pub struct LogicalIndexScan {
    index_desc: IndexDesc,
    table_desc: TableDesc,
    output_columns: Vec<ColumnVar>,
    predicate: ScalarExpr,
}

impl View for LogicalIndexScan {
    type V = IndexScanView;

    closed spec fn view(&self) -> IndexScanView {
        IndexScanView {
            index: self.index_desc@,
            table: self.table_desc.mdid,
            output_columns: self.output_columns@,
            predicate: self.predicate@,
        }
    }
}

impl Clone for LogicalIndexScan {
    fn clone(&self) -> (r: Self)
        ensures
            r@ == self@,
    {
        LogicalIndexScan {
            index_desc: self.index_desc.clone(),
            table_desc: self.table_desc,
            output_columns: copy_columns(&self.output_columns),
            predicate: self.predicate.clone(),
        }
    }
}

impl LogicalIndexScan {
    pub fn new(table_desc: TableDesc, index_md: &IndexMd, output_columns: Vec<ColumnVar>, predicate: ScalarExpr) -> (s: Self)
        ensures
            s@ == (IndexScanView {
                index: IndexDescView {
                    mdid: index_md.mdid,
                    name: index_md.index_name@,
                    index_type: index_md.index_type,
                    key_columns: index_md.key_columns@,
                    included_columns: index_md.included_columns@,
                },
                table: table_desc.mdid,
                output_columns: output_columns@,
                predicate: predicate@,
            }),
    {
        let index_desc = IndexDesc::new(
            index_md.mdid(),
            index_md.index_name().clone(),
            index_md.index_type(),
            copy_columns(index_md.key_columns()),
            copy_columns(index_md.included_columns()),
        );

        Self { index_desc, table_desc, output_columns, predicate }
    }

    pub fn index_desc(&self) -> (d: &IndexDesc)
        ensures
            d@ == self@.index,
    {
        &self.index_desc
    }

    pub fn table_desc(&self) -> (t: &TableDesc)
        ensures
            t.mdid == self@.table,
    {
        &self.table_desc
    }

    pub fn output_columns(&self) -> (c: &Vec<ColumnVar>)
        ensures
            c@ == self@.output_columns,
    {
        &self.output_columns
    }

    pub fn predicate(&self) -> (p: &ScalarExpr)
        ensures
            p@ == self@.predicate,
    {
        &self.predicate
    }

    pub fn equal(&self, other: &LogicalIndexScan) -> (b: bool)
        ensures
            b == (self@ == other@),
    {
        self.index_desc.equal(&other.index_desc) && self.table_desc.mdid == other.table_desc.mdid
            && same_columns(&self.output_columns, &other.output_columns) && self.predicate.equal(
            &other.predicate,
        )
    }
}

impl LogicalOperator for LogicalIndexScan {
    open spec fn logical_view(&self) -> LogicalOpView {
        LogicalOpView::IndexScan(self@)
    }

    fn name(&self) -> (n: &'static str) {
        "logical index scan"
    }

    fn operator_id(&self) -> (id: OperatorId) {
        OperatorId::LogicalIndexScan
    }

    fn arity(&self) -> (n: usize) {
        0
    }

    fn derive_statistics(&self, md_accessor: &MdAccessor, input_stats: &Vec<Stats>) -> (s: Option<Stats>) {
        derive_scan_stats(md_accessor, self.table_desc())
    }
}

} // verus!
