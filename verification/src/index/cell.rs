//! Index entries and the cells that hold them.
use crate::error::{Error, Result};
use crate::format::bytes;
use crate::format::order;
use crate::format::{Csn, PageGeneration, PageId, RowId, TuplePtr, TxId};
use crate::index::IndexRowRef;
use crate::txn::{ConcurrentTxStatus, Snapshot, TxState};
use vstd::prelude::*;

verus! {

/// Bytes of a leaf cell before its keys.
pub const LEAF_CELL_HEADER: usize = 42;

/// Bytes of an internal cell before its separator.
pub const INTERNAL_CELL_HEADER: usize = 10;

/// The mark of a deletion that belongs to no transaction.
pub const NON_TRANSACTIONAL_DELETE: u64 = 0xffff_ffff_ffff_ffff;

/// The contents of an index entry.
#[verifier::ext_equal]
pub enum EntryView {
    Leaf { logical_key: Seq<u8>, row: IndexRowRef, physical: Seq<u8>, create_tx: TxId, delete_tx: TxId },
    Internal { separator: Seq<u8>, child: PageId },
}

impl EntryView {
    /// The key an entry sorts by.
    pub open spec fn sort_key(self) -> Seq<u8> {
        match self {
            EntryView::Leaf { physical, .. } => physical,
            EntryView::Internal { separator, .. } => separator,
        }
    }

    /// The key an entry is found by.
    pub open spec fn logical(self) -> Seq<u8> {
        match self {
            EntryView::Leaf { logical_key, .. } => logical_key,
            EntryView::Internal { separator, .. } => separator,
        }
    }

    /// Whether `self` sorts strictly before `other`. Entries of different kinds do not.
    pub open spec fn before(self, other: EntryView) -> bool {
        (self is Leaf) == (other is Leaf) && order::bytes_lt(self.sort_key(), other.sort_key())
    }

    /// Whether nothing has marked the entry deleted.
    pub open spec fn live(self) -> bool {
        match self {
            EntryView::Leaf { delete_tx, .. } => delete_tx == TxId(0),
            EntryView::Internal { .. } => false,
        }
    }

    /// Whether a snapshot sees the entry: it sees the transaction that made it and not the one
    /// that deleted it.
    pub open spec fn seen(self, txs: ConcurrentTxStatus, snapshot: Snapshot, owner: Option<TxId>) -> bool {
        match self {
            EntryView::Leaf { create_tx, delete_tx, .. } => {
                &&& create_tx == TxId(0) || txs.visible(create_tx, snapshot, owner)
                &&& delete_tx != TxId(NON_TRANSACTIONAL_DELETE)
                &&& delete_tx == TxId(0) || !txs.visible(delete_tx, snapshot, owner)
            },
            EntryView::Internal { .. } => false,
        }
    }

    /// Whether a transaction that committed before `horizon` deleted the entry.
    pub open spec fn dead_before(self, txs: ConcurrentTxStatus, horizon: Csn) -> bool {
        match self {
            EntryView::Leaf { delete_tx, .. } => delete_tx != TxId(0) && match txs.state_of(delete_tx) {
                TxState::Committed(csn) => csn.0 < horizon.0,
                _ => false,
            },
            EntryView::Internal { .. } => false,
        }
    }

    /// The bytes of the cell that holds the entry.
    pub open spec fn cell(self) -> Seq<u8> {
        match self {
            EntryView::Leaf { logical_key, row, physical, create_tx, delete_tx } => {
                bytes::le_bytes(logical_key.len() % 65536, 2) + bytes::le_bytes(physical.len() % 65536, 2)
                    + bytes::le_bytes(row.row_id.0 as nat, 8) + bytes::le_bytes(row.tuple.page_id.0 as nat, 8)
                    + bytes::le_bytes(row.tuple.slot as nat, 2)
                    + bytes::le_bytes(row.tuple.generation.0 as nat, 4)
                    + bytes::le_bytes(create_tx.0 as nat, 8) + bytes::le_bytes(delete_tx.0 as nat, 8)
                    + logical_key + physical
            },
            EntryView::Internal { separator, child } => {
                bytes::le_bytes(separator.len() % 65536, 2) + bytes::le_bytes(child.0 as nat, 8) + separator
            },
        }
    }

    /// The length of the cell that holds the entry.
    pub open spec fn cell_len(self) -> nat {
        match self {
            EntryView::Leaf { logical_key, physical, .. } => {
                LEAF_CELL_HEADER as nat + logical_key.len() + physical.len()
            },
            EntryView::Internal { separator, .. } => INTERNAL_CELL_HEADER as nat + separator.len(),
        }
    }

    /// Whether the key lengths can be written down in a cell.
    pub open spec fn encodable(self) -> bool {
        match self {
            EntryView::Leaf { logical_key, physical, .. } => logical_key.len() < 65536 && physical.len() < 65536,
            EntryView::Internal { separator, .. } => separator.len() < 65536,
        }
    }
}

/// The leaf entry that a cell holds.
pub open spec fn parse_leaf_cell(cell: Seq<u8>) -> Result<EntryView> {
    if cell.len() < LEAF_CELL_HEADER {
        Err(Error::BufferTooSmall { needed: LEAF_CELL_HEADER, actual: cell.len() as usize })
    } else {
        let logical_end = LEAF_CELL_HEADER + bytes::le_value(cell.subrange(0, 2));
        let physical_end = logical_end + bytes::le_value(cell.subrange(2, 4));
        if physical_end > cell.len() {
            Err(Error::CorruptPage("leaf cell overflow"))
        } else {
            Ok(
                EntryView::Leaf {
                    logical_key: cell.subrange(LEAF_CELL_HEADER as int, logical_end),
                    row: IndexRowRef {
                        row_id: RowId(bytes::le_value(cell.subrange(4, 12)) as u64),
                        tuple: TuplePtr {
                            page_id: PageId(bytes::le_value(cell.subrange(12, 20)) as u64),
                            slot: bytes::le_value(cell.subrange(20, 22)) as u16,
                            generation: PageGeneration(bytes::le_value(cell.subrange(22, 26)) as u32),
                        },
                    },
                    physical: cell.subrange(logical_end, physical_end),
                    create_tx: TxId(bytes::le_value(cell.subrange(26, 34)) as u64),
                    delete_tx: TxId(bytes::le_value(cell.subrange(34, 42)) as u64),
                },
            )
        }
    }
}

/// The internal entry that a cell holds.
pub open spec fn parse_internal_cell(cell: Seq<u8>) -> Result<EntryView> {
    if cell.len() < INTERNAL_CELL_HEADER {
        Err(Error::BufferTooSmall { needed: INTERNAL_CELL_HEADER, actual: cell.len() as usize })
    } else {
        let end = INTERNAL_CELL_HEADER + bytes::le_value(cell.subrange(0, 2));
        if end > cell.len() {
            Err(Error::CorruptPage("internal cell overflow"))
        } else {
            Ok(
                EntryView::Internal {
                    separator: cell.subrange(INTERNAL_CELL_HEADER as int, end),
                    child: PageId(bytes::le_value(cell.subrange(2, 10)) as u64),
                },
            )
        }
    }
}

/// Every entry whose key lengths fit two bytes is read back from its cell as it was written.
pub proof fn law_cell_round_trips(entry: EntryView)
    requires
        entry.encodable(),
    ensures
        entry.cell().len() == entry.cell_len(),
        match entry {
            EntryView::Leaf { .. } => parse_leaf_cell(entry.cell()) == Ok::<EntryView, Error>(entry),
            EntryView::Internal { .. } => parse_internal_cell(entry.cell()) == Ok::<EntryView, Error>(entry),
        },
{
    match entry {
        EntryView::Leaf { logical_key, row, physical, create_tx, delete_tx } => {
            lemma_leaf_cell(logical_key, row, physical, create_tx, delete_tx);
        },
        EntryView::Internal { separator, child } => {
            lemma_internal_cell(separator, child);
        },
    }
}

#[verifier::spinoff_prover]
#[verifier::rlimit(50)]
proof fn lemma_leaf_cell(logical_key: Seq<u8>, row: IndexRowRef, physical: Seq<u8>, create_tx: TxId, delete_tx: TxId)
    requires
        logical_key.len() < 65536,
        physical.len() < 65536,
    ensures
        ({
            let entry = EntryView::Leaf { logical_key, row, physical, create_tx, delete_tx };
            &&& entry.cell().len() == entry.cell_len()
            &&& parse_leaf_cell(entry.cell()) == Ok::<EntryView, Error>(entry)
        }),
{
    broadcast use bytes::lemma_le_bytes_len;
    broadcast use bytes::lemma_le_value_of_bytes;

    bytes::lemma_pow256();
    let cell = (EntryView::Leaf { logical_key, row, physical, create_tx, delete_tx }).cell();
    let logical_end = (LEAF_CELL_HEADER + logical_key.len()) as int;
    assert(cell.subrange(0, 2) =~= bytes::le_bytes(logical_key.len(), 2));
    assert(cell.subrange(2, 4) =~= bytes::le_bytes(physical.len(), 2));
    assert(cell.subrange(4, 12) =~= bytes::le_bytes(row.row_id.0 as nat, 8));
    assert(cell.subrange(12, 20) =~= bytes::le_bytes(row.tuple.page_id.0 as nat, 8));
    assert(cell.subrange(20, 22) =~= bytes::le_bytes(row.tuple.slot as nat, 2));
    assert(cell.subrange(22, 26) =~= bytes::le_bytes(row.tuple.generation.0 as nat, 4));
    assert(cell.subrange(26, 34) =~= bytes::le_bytes(create_tx.0 as nat, 8));
    assert(cell.subrange(34, 42) =~= bytes::le_bytes(delete_tx.0 as nat, 8));
    assert(cell.subrange(LEAF_CELL_HEADER as int, logical_end) =~= logical_key);
    assert(cell.subrange(logical_end, logical_end + physical.len()) =~= physical);
}

proof fn lemma_internal_cell(separator: Seq<u8>, child: PageId)
    requires
        separator.len() < 65536,
    ensures
        ({
            let entry = EntryView::Internal { separator, child };
            &&& entry.cell().len() == entry.cell_len()
            &&& parse_internal_cell(entry.cell()) == Ok::<EntryView, Error>(entry)
        }),
{
    broadcast use bytes::lemma_le_bytes_len;
    broadcast use bytes::lemma_le_value_of_bytes;

    bytes::lemma_pow256();
    let cell = (EntryView::Internal { separator, child }).cell();
    assert(cell.subrange(0, 2) =~= bytes::le_bytes(separator.len(), 2));
    assert(cell.subrange(2, 10) =~= bytes::le_bytes(child.0 as nat, 8));
    assert(cell.subrange(10, (10 + separator.len()) as int) =~= separator);
}

/// A leaf cell that lost bytes at its end is refused.
pub proof fn law_cut_leaf_cell_is_refused(entry: EntryView, cut: int)
    requires
        entry.encodable(),
        entry is Leaf,
        0 <= cut < entry.cell().len(),
    ensures
        parse_leaf_cell(entry.cell().subrange(0, cut)) == if cut < LEAF_CELL_HEADER {
            Err::<EntryView, Error>(Error::BufferTooSmall { needed: LEAF_CELL_HEADER, actual: cut as usize })
        } else {
            Err(Error::CorruptPage("leaf cell overflow"))
        },
{
    law_cell_round_trips(entry);
    let cell = entry.cell();
    let short = cell.subrange(0, cut);
    if cut >= LEAF_CELL_HEADER {
        assert(short.subrange(0, 2) =~= cell.subrange(0, 2));
        assert(short.subrange(2, 4) =~= cell.subrange(2, 4));
        let logical = bytes::le_value(cell.subrange(0, 2));
        let physical = bytes::le_value(cell.subrange(2, 4));
        assert(parse_leaf_cell(cell) == Ok::<EntryView, Error>(entry));
        assert(entry->logical_key.len() == logical);
        assert(entry->physical.len() == physical);
    }
}

/// An internal cell that lost bytes at its end is refused.
pub proof fn law_cut_internal_cell_is_refused(entry: EntryView, cut: int)
    requires
        entry.encodable(),
        entry is Internal,
        0 <= cut < entry.cell().len(),
    ensures
        parse_internal_cell(entry.cell().subrange(0, cut)) == if cut < INTERNAL_CELL_HEADER {
            Err::<EntryView, Error>(Error::BufferTooSmall { needed: INTERNAL_CELL_HEADER, actual: cut as usize })
        } else {
            Err(Error::CorruptPage("internal cell overflow"))
        },
{
    law_cell_round_trips(entry);
    let cell = entry.cell();
    let short = cell.subrange(0, cut);
    if cut >= INTERNAL_CELL_HEADER {
        assert(short.subrange(0, 2) =~= cell.subrange(0, 2));
        assert(parse_internal_cell(cell) == Ok::<EntryView, Error>(entry));
        assert(entry->separator.len() == bytes::le_value(cell.subrange(0, 2)));
    }
}

pub proof fn lemma_cell_len(entry: EntryView)
    ensures
        entry.cell().len() == entry.cell_len(),
{
    broadcast use bytes::lemma_le_bytes_len;

}

/// An index entry.
#[derive(Debug, PartialEq, Eq)]
pub enum Entry {
    Leaf { logical_key: Vec<u8>, row: IndexRowRef, physical: Vec<u8>, create_tx: TxId, delete_tx: TxId },
    Internal { separator: Vec<u8>, child: PageId },
}

impl View for Entry {
    type V = EntryView;

    open spec fn view(&self) -> EntryView {
        match self {
            Entry::Leaf { logical_key, row, physical, create_tx, delete_tx } => EntryView::Leaf {
                logical_key: logical_key@,
                row: *row,
                physical: physical@,
                create_tx: *create_tx,
                delete_tx: *delete_tx,
            },
            Entry::Internal { separator, child } => EntryView::Internal { separator: separator@, child: *child },
        }
    }
}

/// The views of a list of entries.
pub open spec fn entry_views(entries: Seq<Entry>) -> Seq<EntryView> {
    Seq::new(entries.len(), |i: int| entries[i]@)
}

impl Entry {
    /// The key an entry sorts by.
    pub fn sort_key(&self) -> (key: &[u8])
        ensures
            key@ == self@.sort_key(),
    {
        match self {
            Entry::Leaf { physical, .. } => physical.as_slice(),
            Entry::Internal { separator, .. } => separator.as_slice(),
        }
    }

    /// The key an entry is found by.
    pub fn logical_key(&self) -> (key: &[u8])
        ensures
            key@ == self@.logical(),
    {
        match self {
            Entry::Leaf { logical_key, .. } => logical_key.as_slice(),
            Entry::Internal { separator, .. } => separator.as_slice(),
        }
    }

    /// The physical key of a leaf entry.
    pub fn physical(&self) -> (key: Option<&[u8]>)
        ensures
            match key {
                Some(key) => self@ is Leaf && key@ == self@.sort_key(),
                None => !(self@ is Leaf),
            },
    {
        match self {
            Entry::Leaf { physical, .. } => Some(physical.as_slice()),
            Entry::Internal { .. } => None,
        }
    }

    pub fn is_leaf(&self) -> (leaf: bool)
        ensures
            leaf == (self@ is Leaf),
    {
        match self {
            Entry::Leaf { .. } => true,
            Entry::Internal { .. } => false,
        }
    }

    /// Whether `self` sorts strictly before `other`.
    pub fn sorts_before(&self, other: &Entry) -> (r: bool)
        ensures
            r == self@.before(other@),
    {
        self.is_leaf() == other.is_leaf() && order::bytes_less(self.sort_key(), other.sort_key())
    }

    pub fn physically_live(&self) -> (live: bool)
        ensures
            live == self@.live(),
    {
        match self {
            Entry::Leaf { delete_tx, .. } => *delete_tx == TxId(0),
            Entry::Internal { .. } => false,
        }
    }

    pub fn is_committed_deleted_before(&self, tx_status: &ConcurrentTxStatus, horizon: Csn) -> (dead: bool)
        ensures
            dead == self@.dead_before(*tx_status, horizon),
    {
        match self {
            Entry::Leaf { delete_tx, .. } => {
                if *delete_tx == TxId(0) {
                    false
                } else {
                    match tx_status.state(*delete_tx) {
                        TxState::Committed(csn) => csn.0 < horizon.0,
                        _ => false,
                    }
                }
            },
            Entry::Internal { .. } => false,
        }
    }

    /// Whether a snapshot sees the entry.
    pub fn visible(&self, tx_status: &ConcurrentTxStatus, snapshot: &Snapshot, owner: Option<TxId>) -> (seen: bool)
        ensures
            seen == self@.seen(*tx_status, *snapshot, owner),
    {
        match self {
            Entry::Leaf { create_tx, delete_tx, .. } => {
                if *create_tx != TxId(0) && !tx_status.is_tx_visible(*create_tx, snapshot, owner) {
                    return false;
                }
                if *delete_tx == TxId(NON_TRANSACTIONAL_DELETE) {
                    return false;
                }
                !(*delete_tx != TxId(0) && tx_status.is_tx_visible(*delete_tx, snapshot, owner))
            },
            Entry::Internal { .. } => false,
        }
    }

    /// A copy of the entry.
    pub fn duplicate(&self) -> (copy: Entry)
        ensures
            copy@ == self@,
    {
        match self {
            Entry::Leaf { logical_key, row, physical, create_tx, delete_tx } => Entry::Leaf {
                logical_key: bytes::copy_bytes(logical_key.as_slice()),
                row: *row,
                physical: bytes::copy_bytes(physical.as_slice()),
                create_tx: *create_tx,
                delete_tx: *delete_tx,
            },
            Entry::Internal { separator, child } => Entry::Internal {
                separator: bytes::copy_bytes(separator.as_slice()),
                child: *child,
            },
        }
    }

    /// The bytes of the cell that holds the entry.
    pub fn encode(&self) -> (out: Vec<u8>)
        ensures
            out@ == self@.cell(),
    {
        let mut out: Vec<u8> = Vec::new();
        match self {
            Entry::Leaf { logical_key, row, physical, create_tx, delete_tx } => {
                bytes::push_le(&mut out, (logical_key.len() % 65536) as u64, 2);
                bytes::push_le(&mut out, (physical.len() % 65536) as u64, 2);
                bytes::push_le(&mut out, row.row_id.0, 8);
                bytes::push_le(&mut out, row.tuple.page_id.0, 8);
                bytes::push_le(&mut out, row.tuple.slot as u64, 2);
                bytes::push_le(&mut out, row.tuple.generation.0 as u64, 4);
                bytes::push_le(&mut out, create_tx.0, 8);
                bytes::push_le(&mut out, delete_tx.0, 8);
                bytes::push_bytes(&mut out, logical_key.as_slice());
                bytes::push_bytes(&mut out, physical.as_slice());
            },
            Entry::Internal { separator, child } => {
                bytes::push_le(&mut out, (separator.len() % 65536) as u64, 2);
                bytes::push_le(&mut out, child.0, 8);
                bytes::push_bytes(&mut out, separator.as_slice());
            },
        }
        proof {
            assert(out@ =~= self@.cell());
        }
        out
    }

    /// The leaf entry that a cell holds.
    pub fn decode_leaf(cell: &[u8]) -> (r: Result<Entry>)
        ensures
            match r {
                Ok(entry) => parse_leaf_cell(cell@) == Ok::<EntryView, Error>(entry@),
                Err(e) => parse_leaf_cell(cell@) == Err::<EntryView, Error>(e),
            },
    {
        if cell.len() < LEAF_CELL_HEADER {
            return Err(Error::BufferTooSmall { needed: LEAF_CELL_HEADER, actual: cell.len() });
        }
        let logical_len: usize = bytes::read_u16(cell, 0)? as usize;
        let physical_len: usize = bytes::read_u16(cell, 2)? as usize;
        let row = IndexRowRef {
            row_id: RowId(bytes::read_u64(cell, 4)?),
            tuple: TuplePtr::new_with_generation(
                PageId(bytes::read_u64(cell, 12)?),
                bytes::read_u16(cell, 20)?,
                PageGeneration(bytes::read_u32(cell, 22)?),
            ),
        };
        let create_tx = TxId(bytes::read_u64(cell, 26)?);
        let delete_tx = TxId(bytes::read_u64(cell, 34)?);
        let logical_end: usize = LEAF_CELL_HEADER + logical_len;
        let physical_end: usize = logical_end + physical_len;
        if physical_end > cell.len() {
            return Err(Error::CorruptPage("leaf cell overflow"));
        }
        Ok(
            Entry::Leaf {
                logical_key: bytes::copy_range(cell, LEAF_CELL_HEADER, logical_end),
                row,
                physical: bytes::copy_range(cell, logical_end, physical_end),
                create_tx,
                delete_tx,
            },
        )
    }

    /// The internal entry that a cell holds.
    pub fn decode_internal(cell: &[u8]) -> (r: Result<Entry>)
        ensures
            match r {
                Ok(entry) => parse_internal_cell(cell@) == Ok::<EntryView, Error>(entry@),
                Err(e) => parse_internal_cell(cell@) == Err::<EntryView, Error>(e),
            },
    {
        if cell.len() < INTERNAL_CELL_HEADER {
            return Err(Error::BufferTooSmall { needed: INTERNAL_CELL_HEADER, actual: cell.len() });
        }
        let len: usize = bytes::read_u16(cell, 0)? as usize;
        let child = PageId(bytes::read_u64(cell, 2)?);
        let end: usize = INTERNAL_CELL_HEADER + len;
        if end > cell.len() {
            return Err(Error::CorruptPage("internal cell overflow"));
        }
        Ok(Entry::Internal { separator: bytes::copy_range(cell, INTERNAL_CELL_HEADER, end), child })
    }
}

} // verus!
