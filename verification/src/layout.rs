//! Where everything stands in page files and in the log, byte by byte.
use crate::format::bytes;
use crate::format::image;
use crate::format::page::{PageKind, PageView};
use crate::format::{Csn, Lsn, PageId, RelId, RowId, TxId};
use crate::index::cell::EntryView;
use crate::index::node;
use crate::index::node::{HeaderView, MetaHeader};
use crate::index::{IndexRowRef, IndexUniqueness};
use crate::wal::payload;
use crate::wal::payload::PayloadView;
use crate::wal::record::{RecordView, WalRecordKind};
use vstd::prelude::*;

verus! {

/// The number in so many bytes at a position, least significant byte first.
pub open spec fn number_at(b: Seq<u8>, at: int, n: int) -> nat {
    bytes::le_value(b.subrange(at, at + n))
}

/// Numbers are written least significant byte first.
pub proof fn law_numbers_are_little_endian(x: u32)
    ensures
        bytes::le_bytes(x as nat, 4) == seq![
            (x % 256) as u8,
            (x / 256 % 256) as u8,
            (x / 65536 % 256) as u8,
            (x / 16777216) as u8,
        ],
        bytes::le_value(bytes::le_bytes(x as nat, 4)) == x,
{
    reveal_with_fuel(bytes::le_bytes, 5);
    bytes::lemma_pow256();
    bytes::lemma_le_value_of_bytes(x as nat, 4);
    assert(x / 256 / 256 == x / 65536);
    assert(x / 65536 / 256 == x / 16777216);
    assert(x / 16777216 % 256 == x / 16777216);
    assert(bytes::le_bytes(x as nat, 4) =~= seq![
        (x % 256) as u8,
        (x / 256 % 256) as u8,
        (x / 65536 % 256) as u8,
        (x / 16777216) as u8,
    ]);
}

/// A page starts with its magic number, version and kind, the page, its relation, the log position that it
/// reflects, its generation, and the counts of its cells and of its special bytes; its special bytes
/// follow.
#[verifier::spinoff_prover]
#[verifier::rlimit(40)]
pub proof fn law_page_layout(p: PageView)
    requires
        p.wf(),
    ensures
        ({
            let b = image::page_image(p);
            &&& b.len() == p.size
            &&& number_at(b, 0, 4) == 0x5244_5047
            &&& number_at(b, 4, 2) == 1
            &&& b[6] == match p.kind {
                PageKind::Heap => 1u8,
                PageKind::BtreeMeta => 2u8,
                PageKind::BtreeLeaf => 3u8,
                PageKind::BtreeInternal => 4u8,
            }
            &&& b[7] == 0
            &&& number_at(b, 8, 8) == p.page_id.0
            &&& number_at(b, 16, 8) == p.rel_id.0
            &&& number_at(b, 24, 8) == p.page_lsn.0
            &&& number_at(b, 32, 4) == p.generation.0
            &&& number_at(b, 36, 2) == p.cells.len()
            &&& number_at(b, 38, 2) == p.special.len()
            &&& b.subrange(48, 48 + p.special.len() as int) == p.special
        }),
{
    broadcast use bytes::lemma_le_bytes_len;
    broadcast use bytes::lemma_le_value_of_bytes;

    image::lemma_page_image_len(p);
    image::lemma_image_lens(p.cells);
    bytes::lemma_pow256();
    let b = image::page_image(p);
    assert(b.subrange(0, 4) =~= bytes::le_bytes(0x5244_5047, 4));
    assert(b.subrange(4, 6) =~= bytes::le_bytes(1, 2));
    assert(b[6] == p.kind.code());
    assert(b.subrange(8, 16) =~= bytes::le_bytes(p.page_id.0 as nat, 8));
    assert(b.subrange(16, 24) =~= bytes::le_bytes(p.rel_id.0 as nat, 8));
    assert(b.subrange(24, 32) =~= bytes::le_bytes(p.page_lsn.0 as nat, 8));
    assert(b.subrange(32, 36) =~= bytes::le_bytes(p.generation.0 as nat, 4));
    assert(b.subrange(36, 38) =~= bytes::le_bytes(p.cells.len(), 2));
    assert(b.subrange(38, 40) =~= bytes::le_bytes(p.special.len(), 2));
    assert(b.subrange(48, 48 + p.special.len() as int) =~= p.special);
}

/// A log record starts with its magic number, version and kind, its checksum, the length of its payload,
/// its own position, that of the record before it, and its transaction; its payload follows.
#[verifier::spinoff_prover]
#[verifier::rlimit(40)]
pub proof fn law_record_layout(r: RecordView)
    requires
        r.payload.len() <= u32::MAX,
    ensures
        ({
            let b = r.frame();
            &&& b.len() == 40 + r.payload.len()
            &&& number_at(b, 0, 4) == 0x5244_5741
            &&& number_at(b, 4, 2) == 1
            &&& b[6] == match r.kind {
                WalRecordKind::PageImage => 1u8,
                WalRecordKind::PageDelta => 2u8,
                WalRecordKind::Commit => 3u8,
            }
            &&& b[7] == 0
            &&& number_at(b, 12, 4) == r.payload.len()
            &&& number_at(b, 16, 8) == r.lsn.0
            &&& number_at(b, 24, 8) == r.prev_lsn.0
            &&& number_at(b, 32, 8) == r.tx_id.0
            &&& b.subrange(40, b.len() as int) == r.payload
        }),
{
    broadcast use bytes::lemma_le_bytes_len;
    broadcast use bytes::lemma_le_value_of_bytes;

    bytes::lemma_pow256();
    let b = r.frame();
    assert(b.subrange(0, 4) =~= bytes::le_bytes(0x5244_5741, 4));
    assert(b.subrange(4, 6) =~= bytes::le_bytes(1, 2));
    assert(b[6] == r.kind.code());
    assert(b[7] == 0);
    assert(b.subrange(12, 16) =~= bytes::le_bytes(r.payload.len(), 4));
    assert(b.subrange(16, 24) =~= bytes::le_bytes(r.lsn.0 as nat, 8));
    assert(b.subrange(24, 32) =~= bytes::le_bytes(r.prev_lsn.0 as nat, 8));
    assert(b.subrange(32, 40) =~= bytes::le_bytes(r.tx_id.0 as nat, 8));
    assert(b.subrange(40, b.len() as int) =~= r.payload);
}

/// A row change starts with what it is, then its transaction, relation and row, and the length of what it
/// carries, which follows. A deletion carries nothing.
#[verifier::spinoff_prover]
pub proof fn law_row_change_layout(tx_id: TxId, rel_id: RelId, row_id: RowId, data: Seq<u8>)
    requires
        data.len() <= u32::MAX,
    ensures
        ({
            let insert = (PayloadView::HeapInsert { tx_id, rel_id, row_id, payload: data }).image();
            let update = (PayloadView::HeapUpdate { tx_id, rel_id, row_id, payload: data }).image();
            let delete = (PayloadView::HeapDelete { tx_id, rel_id, row_id }).image();
            &&& insert[0] == 1
            &&& number_at(insert, 1, 8) == tx_id.0
            &&& number_at(insert, 9, 8) == rel_id.0
            &&& number_at(insert, 17, 8) == row_id.0
            &&& number_at(insert, 25, 4) == data.len()
            &&& insert.subrange(29, insert.len() as int) == data
            &&& update == insert.update(0, 2)
            &&& delete == insert.subrange(0, 25).update(0, 3)
        }),
{
    broadcast use bytes::lemma_le_bytes_len;
    broadcast use bytes::lemma_le_value_of_bytes;

    bytes::lemma_pow256();
    let insert = (PayloadView::HeapInsert { tx_id, rel_id, row_id, payload: data }).image();
    let update = (PayloadView::HeapUpdate { tx_id, rel_id, row_id, payload: data }).image();
    let delete = (PayloadView::HeapDelete { tx_id, rel_id, row_id }).image();
    assert(insert.subrange(1, 9) =~= bytes::le_bytes(tx_id.0 as nat, 8));
    assert(insert.subrange(9, 17) =~= bytes::le_bytes(rel_id.0 as nat, 8));
    assert(insert.subrange(17, 25) =~= bytes::le_bytes(row_id.0 as nat, 8));
    assert(insert.subrange(25, 29) =~= bytes::le_bytes(data.len(), 4));
    assert(insert.subrange(29, insert.len() as int) =~= data);
    assert(update =~= insert.update(0, 2));
    assert(delete =~= insert.subrange(0, 25).update(0, 3));
}

/// A commit is its transaction and its sequence number; a page image is its page, a log position and the
/// bytes of the page, with their length in front.
pub proof fn law_commit_and_image_layout(tx_id: TxId, csn: Csn, page_id: PageId, page_lsn: Lsn, data: Seq<u8>)
    requires
        data.len() <= u32::MAX,
    ensures
        ({
            let commit = (PayloadView::Commit { tx_id, csn }).image();
            let page = (PayloadView::PageImage { page_id, page_lsn, page_bytes: data }).image();
            &&& commit.len() == 17
            &&& commit[0] == 4
            &&& number_at(commit, 1, 8) == tx_id.0
            &&& number_at(commit, 9, 8) == csn.0
            &&& page[0] == 5
            &&& number_at(page, 1, 8) == page_id.0
            &&& number_at(page, 9, 8) == page_lsn.0
            &&& number_at(page, 17, 4) == data.len()
            &&& page.subrange(21, page.len() as int) == data
        }),
{
    broadcast use bytes::lemma_le_bytes_len;
    broadcast use bytes::lemma_le_value_of_bytes;

    bytes::lemma_pow256();
    let commit = (PayloadView::Commit { tx_id, csn }).image();
    let page = (PayloadView::PageImage { page_id, page_lsn, page_bytes: data }).image();
    assert(commit.subrange(1, 9) =~= bytes::le_bytes(tx_id.0 as nat, 8));
    assert(commit.subrange(9, 17) =~= bytes::le_bytes(csn.0 as nat, 8));
    assert(page.subrange(1, 9) =~= bytes::le_bytes(page_id.0 as nat, 8));
    assert(page.subrange(9, 17) =~= bytes::le_bytes(page_lsn.0 as nat, 8));
    assert(page.subrange(17, 21) =~= bytes::le_bytes(data.len(), 4));
    assert(page.subrange(21, page.len() as int) =~= data);
}

/// Row changes from before relations were logged are read as changes of relation zero, as long as the
/// bytes where a length would stand now do not happen to fit.
#[verifier::spinoff_prover]
pub proof fn law_row_changes_without_relation_are_read(tag: u8, tx_id: TxId, row_id: RowId, data: Seq<u8>)
    requires
        tag == 1 || tag == 2,
        data.len() < 8,
    ensures
        ({
            let b = seq![tag] + bytes::le_bytes(tx_id.0 as nat, 8) + bytes::le_bytes(row_id.0 as nat, 8) + bytes::le_bytes(
                data.len(),
                4,
            ) + data;
            payload::parse_payload(b) == Ok::<PayloadView, crate::error::Error>(
                if tag == 1 {
                    PayloadView::HeapInsert { tx_id, rel_id: RelId(0), row_id, payload: data }
                } else {
                    PayloadView::HeapUpdate { tx_id, rel_id: RelId(0), row_id, payload: data }
                },
            )
        }),
{
    broadcast use bytes::lemma_le_bytes_len;
    broadcast use bytes::lemma_le_value_of_bytes;

    bytes::lemma_pow256();
    let b = seq![tag] + bytes::le_bytes(tx_id.0 as nat, 8) + bytes::le_bytes(row_id.0 as nat, 8) + bytes::le_bytes(
        data.len(),
        4,
    ) + data;
    assert(b.subrange(1, 9) =~= bytes::le_bytes(tx_id.0 as nat, 8));
    assert(b.subrange(9, 17) =~= bytes::le_bytes(row_id.0 as nat, 8));
    assert(b.subrange(17, 21) =~= bytes::le_bytes(data.len(), 4));
    assert(b.subrange(21, b.len() as int) =~= data);
}

/// A deletion from before relations were logged is read as one of relation zero.
pub proof fn law_deletions_without_relation_are_read(tx_id: TxId, row_id: RowId)
    ensures
        payload::parse_payload(
            seq![3u8] + bytes::le_bytes(tx_id.0 as nat, 8) + bytes::le_bytes(row_id.0 as nat, 8),
        ) == Ok::<PayloadView, crate::error::Error>(PayloadView::HeapDelete { tx_id, rel_id: RelId(0), row_id }),
{
    broadcast use bytes::lemma_le_bytes_len;
    broadcast use bytes::lemma_le_value_of_bytes;

    bytes::lemma_pow256();
    let b = seq![3u8] + bytes::le_bytes(tx_id.0 as nat, 8) + bytes::le_bytes(row_id.0 as nat, 8);
    assert(b.subrange(1, 9) =~= bytes::le_bytes(tx_id.0 as nat, 8));
    assert(b.subrange(9, 17) =~= bytes::le_bytes(row_id.0 as nat, 8));
}

/// A leaf cell starts with the lengths of its two keys, then the row, where it stands, and the
/// transactions that made and deleted the entry; the keys follow, the logical one first.
#[verifier::spinoff_prover]
#[verifier::rlimit(40)]
pub proof fn law_leaf_cell_layout(
    logical_key: Seq<u8>,
    row: IndexRowRef,
    physical: Seq<u8>,
    create_tx: TxId,
    delete_tx: TxId,
)
    requires
        logical_key.len() < 65536,
        physical.len() < 65536,
    ensures
        ({
            let b = (EntryView::Leaf { logical_key, row, physical, create_tx, delete_tx }).cell();
            &&& number_at(b, 0, 2) == logical_key.len()
            &&& number_at(b, 2, 2) == physical.len()
            &&& number_at(b, 4, 8) == row.row_id.0
            &&& number_at(b, 12, 8) == row.tuple.page_id.0
            &&& number_at(b, 20, 2) == row.tuple.slot
            &&& number_at(b, 22, 4) == row.tuple.generation.0
            &&& number_at(b, 26, 8) == create_tx.0
            &&& number_at(b, 34, 8) == delete_tx.0
            &&& b.subrange(42, b.len() as int) == logical_key + physical
        }),
{
    broadcast use bytes::lemma_le_bytes_len;
    broadcast use bytes::lemma_le_value_of_bytes;

    bytes::lemma_pow256();
    let b = (EntryView::Leaf { logical_key, row, physical, create_tx, delete_tx }).cell();
    assert(b.subrange(0, 2) =~= bytes::le_bytes(logical_key.len(), 2));
    assert(b.subrange(2, 4) =~= bytes::le_bytes(physical.len(), 2));
    assert(b.subrange(4, 12) =~= bytes::le_bytes(row.row_id.0 as nat, 8));
    assert(b.subrange(12, 20) =~= bytes::le_bytes(row.tuple.page_id.0 as nat, 8));
    assert(b.subrange(20, 22) =~= bytes::le_bytes(row.tuple.slot as nat, 2));
    assert(b.subrange(22, 26) =~= bytes::le_bytes(row.tuple.generation.0 as nat, 4));
    assert(b.subrange(26, 34) =~= bytes::le_bytes(create_tx.0 as nat, 8));
    assert(b.subrange(34, 42) =~= bytes::le_bytes(delete_tx.0 as nat, 8));
    assert(b.subrange(42, b.len() as int) =~= logical_key + physical);
}

/// An internal cell is the length of its separator, its child and the separator.
pub proof fn law_internal_cell_layout(separator: Seq<u8>, child: PageId)
    requires
        separator.len() < 65536,
    ensures
        ({
            let b = (EntryView::Internal { separator, child }).cell();
            &&& number_at(b, 0, 2) == separator.len()
            &&& number_at(b, 2, 8) == child.0
            &&& b.subrange(10, b.len() as int) == separator
        }),
{
    broadcast use bytes::lemma_le_bytes_len;
    broadcast use bytes::lemma_le_value_of_bytes;

    bytes::lemma_pow256();
    let b = (EntryView::Internal { separator, child }).cell();
    assert(b.subrange(0, 2) =~= bytes::le_bytes(separator.len(), 2));
    assert(b.subrange(2, 10) =~= bytes::le_bytes(child.0 as nat, 8));
    assert(b.subrange(10, b.len() as int) =~= separator);
}

/// The special area of a node starts with its magic number, version and kind, its level, the index, its
/// leftmost child and its right neighbour, and the length of its high key, which follows. Where there is no
/// page, all bits are set.
#[verifier::spinoff_prover]
#[verifier::rlimit(40)]
pub proof fn law_node_layout(h: HeaderView)
    requires
        h.encodable(),
    ensures
        ({
            let b = h.special();
            &&& b.len() == 256
            &&& number_at(b, 0, 4) == 0x5244_4958
            &&& number_at(b, 4, 2) == 2
            &&& b[6] == h.kind
            &&& number_at(b, 8, 2) == h.level
            &&& number_at(b, 10, 8) == h.index_id.0
            &&& number_at(b, 18, 8) == match h.left {
                Some(id) => id.0,
                None => u64::MAX,
            }
            &&& number_at(b, 26, 8) == match h.right {
                Some(id) => id.0,
                None => u64::MAX,
            }
            &&& number_at(b, 34, 2) == h.high_key.len()
            &&& b.subrange(36, 36 + h.high_key.len() as int) == h.high_key
        }),
{
    broadcast use bytes::lemma_le_bytes_len;
    broadcast use bytes::lemma_le_value_of_bytes;

    bytes::lemma_pow256();
    let b = h.special();
    assert(b.subrange(0, 4) =~= bytes::le_bytes(0x5244_4958, 4));
    assert(b.subrange(4, 6) =~= bytes::le_bytes(2, 2));
    assert(b[6] == h.kind);
    assert(b.subrange(8, 10) =~= bytes::le_bytes(h.level as nat, 2));
    assert(b.subrange(10, 18) =~= bytes::le_bytes(h.index_id.0 as nat, 8));
    assert(b.subrange(18, 26) =~= bytes::le_bytes(node::page_id_code(h.left) as nat, 8));
    assert(b.subrange(26, 34) =~= bytes::le_bytes(node::page_id_code(h.right) as nat, 8));
    assert(b.subrange(34, 36) =~= bytes::le_bytes(h.high_key.len(), 2));
    assert(b.subrange(36, 36 + h.high_key.len() as int) =~= h.high_key);
}

/// The special area of a meta page starts with its magic number, version and kind, the index, its root and
/// the level of the root, and whether keys are unique.
#[verifier::spinoff_prover]
pub proof fn law_meta_layout(m: MetaHeader, len: int)
    requires
        len >= 27,
    ensures
        ({
            let b = m.special(len);
            &&& number_at(b, 0, 4) == 0x5244_4958
            &&& number_at(b, 4, 2) == 2
            &&& b[6] == 1
            &&& number_at(b, 8, 8) == m.index_id.0
            &&& number_at(b, 16, 8) == m.root_page_id.0
            &&& number_at(b, 24, 2) == m.root_level
            &&& b[26] == if m.uniqueness == IndexUniqueness::Unique {
                1u8
            } else {
                0u8
            }
        }),
{
    broadcast use bytes::lemma_le_bytes_len;
    broadcast use bytes::lemma_le_value_of_bytes;

    bytes::lemma_pow256();
    let b = m.special(len);
    assert(b.subrange(0, 4) =~= bytes::le_bytes(0x5244_4958, 4));
    assert(b.subrange(4, 6) =~= bytes::le_bytes(2, 2));
    assert(b.subrange(8, 16) =~= bytes::le_bytes(m.index_id.0 as nat, 8));
    assert(b.subrange(16, 24) =~= bytes::le_bytes(m.root_page_id.0 as nat, 8));
    assert(b.subrange(24, 26) =~= bytes::le_bytes(m.root_level as nat, 2));
}

} // verus!
