//! Ordered secondary indexes: B-link trees over slotted pages.
use crate::format::{PageId, RelId, RowId, TuplePtr};
use crate::format::order;
use std::cmp::Ordering;
use vstd::prelude::*;

pub mod btree;
pub mod cell;
pub mod deletes;
pub mod entries;
pub mod growth;
pub mod inserts;
pub mod key;
pub mod laws;
pub mod model;
pub mod node;
pub mod outcomes;
pub mod redo;
pub mod shape;
pub mod splits;
pub mod unique;
pub mod validity;
pub mod visibility;

pub use btree::{BtreeIndex, PageLog};
pub use key::{encode_physical_key, KeyBuf};
pub use node::{INDEX_SPECIAL_LEN, INDEX_VERSION};
pub use unique::{UniqueKeyGuard, UniqueKeyLockTable};

verus! {

/// Identifies an index.
#[derive(Clone, Copy, Debug, Default, PartialEq, Eq, PartialOrd, Ord, Hash, Structural)]
pub struct IndexId(pub u64);

/// Whether a key may stand for more than one row.
#[derive(Clone, Copy, Debug, PartialEq, Eq, Structural)]
pub enum IndexUniqueness {
    NonUnique,
    Unique,
}

/// What an index is an index of.
#[derive(Clone, Copy, Debug, PartialEq, Eq, Structural)]
pub struct IndexDescriptor {
    pub index_id: IndexId,
    pub rel_id: RelId,
    pub uniqueness: IndexUniqueness,
}

impl IndexDescriptor {
    pub fn new(index_id: IndexId, rel_id: RelId, uniqueness: IndexUniqueness) -> (desc: IndexDescriptor)
        ensures
            desc == (IndexDescriptor { index_id, rel_id, uniqueness }),
    {
        IndexDescriptor { index_id, rel_id, uniqueness }
    }
}

/// The row that an index entry points to.
#[derive(Clone, Copy, Debug, PartialEq, Eq, Hash, Structural)]
pub struct IndexRowRef {
    pub row_id: RowId,
    pub tuple: TuplePtr,
}

impl IndexRowRef {
    pub fn new(tuple: TuplePtr) -> (row: IndexRowRef)
        ensures
            row == (IndexRowRef { row_id: RowId(0), tuple }),
    {
        IndexRowRef { row_id: RowId(0), tuple }
    }

    pub fn with_row_id(row_id: RowId, tuple: TuplePtr) -> (row: IndexRowRef)
        ensures
            row == (IndexRowRef { row_id, tuple }),
    {
        IndexRowRef { row_id, tuple }
    }
}

/// What a walk over the whole tree found.
#[derive(Clone, Debug, PartialEq, Eq)]
pub struct IndexValidationReport {
    pub pages_seen: usize,
    pub leaf_pages: usize,
    pub internal_pages: usize,
    pub errors: Vec<&'static str>,
}

/// A live leaf entry and the page it stands on.
#[derive(Clone, Debug, PartialEq, Eq)]
pub struct IndexEntry {
    pub logical_key: Vec<u8>,
    pub row: IndexRowRef,
    pub leaf_page_id: PageId,
}

/// The order of physical keys.
pub fn compare_physical_key(left: &[u8], right: &[u8]) -> (r: Ordering)
    ensures
        match r {
            Ordering::Less => order::bytes_lt(left@, right@),
            Ordering::Equal => left@ == right@,
            Ordering::Greater => order::bytes_lt(right@, left@),
        },
{
    order::compare_bytes(left, right)
}

/// Counters of an index since it was opened.
#[derive(Clone, Copy, Debug, Default, PartialEq, Eq, Structural)]
pub struct IndexStats {
    pub range_scan_leaves_visited: u64,
}

} // verus!
