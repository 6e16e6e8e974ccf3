//! Metadata about relations and their indexes, and the cache that holds it.

use vstd::prelude::*;
use crate::expression::ColumnVar;

verus! {

/// How an index is built.
#[derive(Clone, Copy, Debug, PartialEq, Eq, Structural)]
pub enum IndexType {
    Btree,
    Hash,
}

/// A value of a column.
#[derive(Clone, Copy, Debug, PartialEq, Eq, Structural)]
pub enum Datum {
    I32(i32),
}

/// One bucket of a histogram: its bounds, the distinct values and the rows in it.
#[derive(Clone, Copy, Debug)]
pub struct Bucket {
    pub lower: Datum,
    pub upper: Datum,
    pub distinct: u64,
    pub rows: u64,
}

impl Bucket {
    pub fn new(lower: Datum, upper: Datum, distinct: u64, rows: u64) -> (b: Self)
        ensures
            b.lower == lower,
            b.upper == upper,
            b.distinct == distinct,
            b.rows == rows,
    {
        Bucket { lower, upper, distinct, rows }
    }
}

/// The distribution of a column's values.
#[derive(Debug)]
pub struct Histogram {
    pub buckets: Vec<Bucket>,
}

impl Histogram {
    pub fn new(buckets: Vec<Bucket>) -> (h: Self)
        ensures
            h.buckets == buckets,
    {
        Histogram { buckets }
    }
}

/// Statistics of one column.
#[derive(Debug)]
pub struct ColumnStats {
    pub attno: u32,
    pub name: String,
    pub min: Datum,
    pub max: Datum,
    pub null_count: u64,
    pub histogram: Option<Histogram>,
}

impl ColumnStats {
    pub fn new(
        attno: u32,
        name: String,
        min: Datum,
        max: Datum,
        null_count: u64,
        histogram: Option<Histogram>,
    ) -> (s: Self)
        ensures
            s.attno == attno,
            s.name == name,
            s.min == min,
            s.max == max,
            s.null_count == null_count,
            s.histogram == histogram,
    {
        ColumnStats { attno, name, min, max, null_count, histogram }
    }
}

/// Statistics of a relation: its row count and where its column statistics are.
#[derive(Debug)]
pub struct RelationStats {
    pub name: String,
    pub rows: u64,
    pub empty: bool,
    pub column_stats: Vec<u64>,
}

impl RelationStats {
    pub fn new(name: String, rows: u64, empty: bool, column_stats: Vec<u64>) -> (s: Self)
        ensures
            s.name == name,
            s.rows == rows,
            s.empty == empty,
            s.column_stats == column_stats,
    {
        RelationStats { name, rows, empty, column_stats }
    }
}

/// The description of one column of a relation.
#[derive(Debug)]
pub struct ColumnMetadata {
    pub name: String,
    pub attno: u32,
    pub nullable: bool,
    pub width: u32,
    pub default_value: Datum,
}

impl ColumnMetadata {
    pub fn new(name: String, attno: u32, nullable: bool, width: u32, default_value: Datum) -> (c: Self)
        ensures
            c.name == name,
            c.attno == attno,
            c.nullable == nullable,
            c.width == width,
            c.default_value == default_value,
    {
        ColumnMetadata { name, attno, nullable, width, default_value }
    }
}

/// A reference from a relation to one of its indexes.
#[derive(Clone, Copy, Debug, PartialEq, Eq, Structural)]
pub struct IndexInfo {
    pub mdid: u64,
}

impl IndexInfo {
    pub fn new(mdid: u64) -> (i: Self)
        ensures
            i.mdid == mdid,
    {
        IndexInfo { mdid }
    }
}

/// The description of a relation: its columns, where its statistics are,
/// and its indexes.
#[derive(Debug)]
pub struct RelationMetadata {
    pub name: String,
    pub columns: Vec<ColumnMetadata>,
    pub stats_mdid: u64,
    pub indexes: Vec<IndexInfo>,
}

impl RelationMetadata {
    pub fn new(name: String, columns: Vec<ColumnMetadata>, stats_mdid: u64, indexes: Vec<IndexInfo>) -> (r: Self)
        ensures
            r.name == name,
            r.columns == columns,
            r.stats_mdid == stats_mdid,
            r.indexes == indexes,
    {
        RelationMetadata { name, columns, stats_mdid, indexes }
    }
}

/// The description of an index: its key columns, in order, and the columns
/// it holds.
#[derive(Debug)]
pub struct IndexMd {
    pub mdid: u64,
    pub index_name: String,
    pub index_type: IndexType,
    pub key_columns: Vec<ColumnVar>,
    pub included_columns: Vec<ColumnVar>,
}

impl IndexMd {
    /// A B-tree index.
    pub fn new(mdid: u64, index_name: String, key_columns: Vec<ColumnVar>, included_columns: Vec<ColumnVar>) -> (i: Self)
        ensures
            i.mdid == mdid,
            i.index_name == index_name,
            i.index_type == IndexType::Btree,
            i.key_columns == key_columns,
            i.included_columns == included_columns,
    {
        IndexMd { mdid, index_name, index_type: IndexType::Btree, key_columns, included_columns }
    }

    pub fn mdid(&self) -> (id: u64)
        ensures
            id == self.mdid,
    {
        self.mdid
    }

    pub fn index_name(&self) -> (n: &String)
        ensures
            n == self.index_name,
    {
        &self.index_name
    }

    pub fn index_type(&self) -> (t: IndexType)
        ensures
            t == self.index_type,
    {
        self.index_type
    }

    pub fn key_columns(&self) -> (k: &Vec<ColumnVar>)
        ensures
            k == self.key_columns,
    {
        &self.key_columns
    }

    pub fn included_columns(&self) -> (k: &Vec<ColumnVar>)
        ensures
            k == self.included_columns,
    {
        &self.included_columns
    }
}

/// One object of metadata.
#[derive(Debug)]
pub enum Metadata {
    RelationStats(RelationStats),
    Relation(RelationMetadata),
    ColumnStats(ColumnStats),
    Index(IndexMd),
}

/// The entry that `id` first names among `entries`.
pub open spec fn find_spec(entries: Seq<(u64, Metadata)>, id: u64) -> Option<Metadata>
    decreases entries.len(),
{
    if entries.len() == 0 {
        None
    } else if entries[0].0 == id {
        Some(entries[0].1)
    } else {
        find_spec(entries.drop_first(), id)
    }
}

/// A cache of metadata objects by identifier.
#[derive(Debug)]
pub struct MdCache {
    pub entries: Vec<(u64, Metadata)>,
}

impl MdCache {
    pub fn new() -> (c: Self)
        ensures
            c.entries@ == Seq::<(u64, Metadata)>::empty(),
    {
        MdCache { entries: Vec::new() }
    }

    /// Adds `metadata` under `id`. An object that the cache already holds
    /// under `id` stays the one that is found.
    pub fn insert(&mut self, id: u64, metadata: Metadata)
        ensures
            final(self).entries@ == old(self).entries@.push((id, metadata)),
    {
        self.entries.push((id, metadata));
    }
}

/// A provider of metadata that answers from a cache.
#[derive(Debug)]
pub struct CachedMdProvider {
    pub cache: MdCache,
}

impl CachedMdProvider {
    pub fn new(cache: MdCache) -> (p: Self)
        ensures
            p.cache == cache,
    {
        CachedMdProvider { cache }
    }
}

/// Access to metadata by identifier.
#[derive(Debug)]
pub struct MdAccessor {
    pub provider: CachedMdProvider,
}

impl MdAccessor {
    pub fn new(provider: CachedMdProvider) -> (a: Self)
        ensures
            a.provider == provider,
    {
        MdAccessor { provider }
    }

    /// The object that `id` names.
    pub open spec fn retrieve_spec(&self, id: u64) -> Option<Metadata> {
        find_spec(self.provider.cache.entries@, id)
    }

    /// The row count of the relation that `mdid` names: that of the
    /// statistics that the relation's description points to.
    pub open spec fn relation_rows_spec(&self, mdid: u64) -> Option<u64> {
        match self.retrieve_spec(mdid) {
            Some(Metadata::Relation(r)) => match self.retrieve_spec(r.stats_mdid) {
                Some(Metadata::RelationStats(s)) => Some(s.rows),
                _ => None,
            },
            _ => None,
        }
    }

    /// The object that `id` names, if the cache holds one.
    pub fn retrieve(&self, id: u64) -> (m: Option<&Metadata>)
        ensures
            match m {
                Some(md) => self.retrieve_spec(id) == Some(*md),
                None => self.retrieve_spec(id) is None,
            },
    {
        let entries = &self.provider.cache.entries;
        let mut i: usize = 0;
        assert(entries@.skip(0) =~= entries@);
        while i < entries.len()
            invariant
                i <= entries.len(),
                entries == &self.provider.cache.entries,
                find_spec(entries@, id) == find_spec(entries@.skip(i as int), id),
            decreases entries.len() - i,
        {
            assert(entries@.skip(i as int).drop_first() =~= entries@.skip(i as int + 1));
            if entries[i].0 == id {
                return Some(&entries[i].1);
            }
            i += 1;
        }
        None
    }

    /// The row count of the relation that `mdid` names.
    pub fn relation_rows(&self, mdid: u64) -> (rows: Option<u64>)
        ensures
            rows == self.relation_rows_spec(mdid),
    {
        match self.retrieve(mdid) {
            Some(Metadata::Relation(r)) => match self.retrieve(r.stats_mdid) {
                Some(Metadata::RelationStats(s)) => Some(s.rows),
                _ => None,
            },
            _ => None,
        }
    }
}

/// The statistics of a group: how many rows it yields.
#[derive(Clone, Copy, Debug, PartialEq, Eq, Structural)]
pub struct Stats {
    pub row_count: u64,
}

impl Stats {
    pub fn new(row_count: u64) -> (s: Self)
        ensures
            s.row_count == row_count,
    {
        Stats { row_count }
    }

    pub fn output_row_count(&self) -> (n: u64)
        ensures
            n == self.row_count,
    {
        self.row_count
    }
}

} // verus!
