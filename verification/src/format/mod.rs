//! Typed storage identifiers and the on-disk encodings.
use vstd::prelude::*;

pub mod bytes;
pub mod image;
pub mod order;
pub mod page;

verus! {

/// Position in the write-ahead log, in bytes.
#[derive(Clone, Copy, Debug, Default, PartialEq, Eq, PartialOrd, Ord, Hash, Structural)]
pub struct Lsn(pub u64);

/// Transaction identifier; zero stands for "no transaction".
#[derive(Clone, Copy, Debug, Default, PartialEq, Eq, PartialOrd, Ord, Hash, Structural)]
pub struct TxId(pub u64);

/// Commit sequence number.
#[derive(Clone, Copy, Debug, Default, PartialEq, Eq, PartialOrd, Ord, Hash, Structural)]
pub struct Csn(pub u64);

/// Page identifier; the first page of a file is page one.
#[derive(Clone, Copy, Debug, Default, PartialEq, Eq, PartialOrd, Ord, Hash, Structural)]
pub struct PageId(pub u64);

/// Relation identifier.
#[derive(Clone, Copy, Debug, Default, PartialEq, Eq, PartialOrd, Ord, Hash, Structural)]
pub struct RelId(pub u64);

/// Row identifier.
#[derive(Clone, Copy, Debug, Default, PartialEq, Eq, PartialOrd, Ord, Hash, Structural)]
pub struct RowId(pub u64);

/// How often a page has been reused.
#[derive(Clone, Copy, Debug, Default, PartialEq, Eq, PartialOrd, Ord, Hash, Structural)]
pub struct PageGeneration(pub u32);

impl Lsn {
    pub fn new(raw: u64) -> (lsn: Lsn)
        ensures
            lsn == Lsn(raw),
    {
        Lsn(raw)
    }
}

/// Address of a heap tuple.
#[derive(Clone, Copy, Debug, PartialEq, Eq, Hash, Structural)]
pub struct TuplePtr {
    pub page_id: PageId,
    pub slot: u16,
    pub generation: PageGeneration,
}

impl TuplePtr {
    pub fn new_with_generation(page_id: PageId, slot: u16, generation: PageGeneration) -> (ptr: TuplePtr)
        ensures
            ptr == (TuplePtr { page_id, slot, generation }),
    {
        TuplePtr { page_id, slot, generation }
    }
}

} // verus!
