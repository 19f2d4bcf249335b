//! What log records say.
use crate::error::{Error, Result};
use crate::format::bytes;
use crate::format::{Csn, Lsn, PageId, RelId, RowId, TxId};
use vstd::prelude::*;

verus! {

const TAG_HEAP_INSERT: u8 = 1;

const TAG_HEAP_UPDATE: u8 = 2;

const TAG_HEAP_DELETE: u8 = 3;

const TAG_COMMIT: u8 = 4;

const TAG_PAGE_IMAGE: u8 = 5;

/// A logged change.
#[derive(Clone, Debug, PartialEq, Eq)]
pub enum WalPayload {
    HeapInsert { tx_id: TxId, rel_id: RelId, row_id: RowId, payload: Vec<u8> },
    HeapUpdate { tx_id: TxId, rel_id: RelId, row_id: RowId, payload: Vec<u8> },
    HeapDelete { tx_id: TxId, rel_id: RelId, row_id: RowId },
    Commit { tx_id: TxId, csn: Csn },
    PageImage { page_id: PageId, page_lsn: Lsn, page_bytes: Vec<u8> },
}

/// The contents of a logged change.
#[verifier::ext_equal]
pub enum PayloadView {
    HeapInsert { tx_id: TxId, rel_id: RelId, row_id: RowId, payload: Seq<u8> },
    HeapUpdate { tx_id: TxId, rel_id: RelId, row_id: RowId, payload: Seq<u8> },
    HeapDelete { tx_id: TxId, rel_id: RelId, row_id: RowId },
    Commit { tx_id: TxId, csn: Csn },
    PageImage { page_id: PageId, page_lsn: Lsn, page_bytes: Seq<u8> },
}

impl View for WalPayload {
    type V = PayloadView;

    open spec fn view(&self) -> PayloadView {
        match self {
            WalPayload::HeapInsert { tx_id, rel_id, row_id, payload } => PayloadView::HeapInsert {
                tx_id: *tx_id,
                rel_id: *rel_id,
                row_id: *row_id,
                payload: payload@,
            },
            WalPayload::HeapUpdate { tx_id, rel_id, row_id, payload } => PayloadView::HeapUpdate {
                tx_id: *tx_id,
                rel_id: *rel_id,
                row_id: *row_id,
                payload: payload@,
            },
            WalPayload::HeapDelete { tx_id, rel_id, row_id } => PayloadView::HeapDelete {
                tx_id: *tx_id,
                rel_id: *rel_id,
                row_id: *row_id,
            },
            WalPayload::Commit { tx_id, csn } => PayloadView::Commit { tx_id: *tx_id, csn: *csn },
            WalPayload::PageImage { page_id, page_lsn, page_bytes } => PayloadView::PageImage {
                page_id: *page_id,
                page_lsn: *page_lsn,
                page_bytes: page_bytes@,
            },
        }
    }
}

/// The bytes of a change of a row.
pub open spec fn row_image(tag: u8, tx_id: TxId, rel_id: RelId, row_id: RowId, payload: Seq<u8>) -> Seq<u8> {
    seq![tag] + bytes::le_bytes(tx_id.0 as nat, 8) + bytes::le_bytes(rel_id.0 as nat, 8)
        + bytes::le_bytes(row_id.0 as nat, 8) + bytes::le_bytes(payload.len(), 4) + payload
}

impl PayloadView {
    /// The transaction that made the change; none for a page image.
    pub open spec fn tx(self) -> TxId {
        match self {
            PayloadView::HeapInsert { tx_id, .. } => tx_id,
            PayloadView::HeapUpdate { tx_id, .. } => tx_id,
            PayloadView::HeapDelete { tx_id, .. } => tx_id,
            PayloadView::Commit { tx_id, .. } => tx_id,
            PayloadView::PageImage { .. } => TxId(0),
        }
    }

    /// Whether the length of what it carries can be written down.
    pub open spec fn encodable(self) -> bool {
        match self {
            PayloadView::HeapInsert { payload, .. } => payload.len() <= u32::MAX,
            PayloadView::HeapUpdate { payload, .. } => payload.len() <= u32::MAX,
            PayloadView::PageImage { page_bytes, .. } => page_bytes.len() <= u32::MAX,
            _ => true,
        }
    }

    /// The error for what is too large.
    pub open spec fn size_error(self) -> Error {
        match self {
            PayloadView::PageImage { .. } => Error::CorruptWal("page image too large"),
            _ => Error::CorruptWal("heap payload too large"),
        }
    }

    /// The bytes of the change.
    pub open spec fn image(self) -> Seq<u8> {
        match self {
            PayloadView::HeapInsert { tx_id, rel_id, row_id, payload } => row_image(1, tx_id, rel_id, row_id, payload),
            PayloadView::HeapUpdate { tx_id, rel_id, row_id, payload } => row_image(2, tx_id, rel_id, row_id, payload),
            PayloadView::HeapDelete { tx_id, rel_id, row_id } => {
                seq![3u8] + bytes::le_bytes(tx_id.0 as nat, 8) + bytes::le_bytes(rel_id.0 as nat, 8)
                    + bytes::le_bytes(row_id.0 as nat, 8)
            },
            PayloadView::Commit { tx_id, csn } => {
                seq![4u8] + bytes::le_bytes(tx_id.0 as nat, 8) + bytes::le_bytes(csn.0 as nat, 8)
            },
            PayloadView::PageImage { page_id, page_lsn, page_bytes } => {
                seq![5u8] + bytes::le_bytes(page_id.0 as nat, 8) + bytes::le_bytes(page_lsn.0 as nat, 8)
                    + bytes::le_bytes(page_bytes.len(), 4) + page_bytes
            },
        }
    }
}

/// The integer of `n` bytes at `at`.
pub open spec fn field(b: Seq<u8>, at: int, n: int) -> nat {
    bytes::le_value(b.subrange(at, at + n))
}

/// The error for bytes of another length than expected.
pub open spec fn length_error(needed: nat, b: Seq<u8>) -> Error {
    Error::BufferTooSmall { needed: needed as usize, actual: b.len() as usize }
}

/// Where the payload of a row change starts and what its relation and row are. Records without a
/// relation are read too; they belong to relation zero.
pub open spec fn parse_row(b: Seq<u8>) -> Result<(TxId, RelId, RowId, Seq<u8>)> {
    let tx = TxId(field(b, 1, 8) as u64);
    if b.len() < 21 {
        Err(length_error(21, b))
    } else if b.len() >= 29 && 29 + field(b, 25, 4) > usize::MAX {
        Err(Error::CorruptWal("heap payload length overflow"))
    } else if b.len() >= 29 && b.len() < 29 + field(b, 25, 4) {
        Err(length_error(29 + field(b, 25, 4), b))
    } else if b.len() >= 29 && b.len() == 29 + field(b, 25, 4) {
        Ok((tx, RelId(field(b, 9, 8) as u64), RowId(field(b, 17, 8) as u64), b.subrange(29, b.len() as int)))
    } else if 21 + field(b, 17, 4) > usize::MAX {
        Err(Error::CorruptWal("heap payload length overflow"))
    } else if b.len() < 21 + field(b, 17, 4) {
        Err(length_error(21 + field(b, 17, 4), b))
    } else if b.len() == 21 + field(b, 17, 4) {
        Ok((tx, RelId(0), RowId(field(b, 9, 8) as u64), b.subrange(21, b.len() as int)))
    } else {
        Err(Error::CorruptWal("heap payload length mismatch"))
    }
}

/// The change that bytes stand for.
pub open spec fn parse_payload(b: Seq<u8>) -> Result<PayloadView> {
    if b.len() == 0 {
        Err(Error::CorruptWal("empty wal payload"))
    } else if b[0] == 1 || b[0] == 2 {
        match parse_row(b) {
            Err(e) => Err(e),
            Ok((tx_id, rel_id, row_id, payload)) => Ok(
                if b[0] == 1 {
                    PayloadView::HeapInsert { tx_id, rel_id, row_id, payload }
                } else {
                    PayloadView::HeapUpdate { tx_id, rel_id, row_id, payload }
                },
            ),
        }
    } else if b[0] == 3 {
        if b.len() > 25 {
            Err(length_error(25, b))
        } else if b.len() == 25 {
            Ok(
                PayloadView::HeapDelete {
                    tx_id: TxId(field(b, 1, 8) as u64),
                    rel_id: RelId(field(b, 9, 8) as u64),
                    row_id: RowId(field(b, 17, 8) as u64),
                },
            )
        } else if b.len() == 17 {
            Ok(
                PayloadView::HeapDelete {
                    tx_id: TxId(field(b, 1, 8) as u64),
                    rel_id: RelId(0),
                    row_id: RowId(field(b, 9, 8) as u64),
                },
            )
        } else {
            Err(length_error(17, b))
        }
    } else if b[0] == 4 {
        if b.len() != 17 {
            Err(length_error(17, b))
        } else {
            Ok(PayloadView::Commit { tx_id: TxId(field(b, 1, 8) as u64), csn: Csn(field(b, 9, 8) as u64) })
        }
    } else if b[0] == 5 {
        if b.len() < 21 {
            Err(length_error(21, b))
        } else if 21 + field(b, 17, 4) > usize::MAX {
            Err(Error::CorruptWal("page image length overflow"))
        } else if b.len() != 21 + field(b, 17, 4) {
            Err(length_error(21 + field(b, 17, 4), b))
        } else {
            Ok(
                PayloadView::PageImage {
                    page_id: PageId(field(b, 1, 8) as u64),
                    page_lsn: Lsn(field(b, 9, 8) as u64),
                    page_bytes: b.subrange(21, b.len() as int),
                },
            )
        }
    } else {
        Err(Error::CorruptWal("unknown wal payload tag"))
    }
}

proof fn lemma_row_round_trip(tag: u8, tx_id: TxId, rel_id: RelId, row_id: RowId, payload: Seq<u8>)
    requires
        payload.len() <= u32::MAX,
        29 + payload.len() <= usize::MAX,
    ensures
        row_image(tag, tx_id, rel_id, row_id, payload)[0] == tag,
        row_image(tag, tx_id, rel_id, row_id, payload).len() == 29 + payload.len(),
        parse_row(row_image(tag, tx_id, rel_id, row_id, payload)) == Ok::<(TxId, RelId, RowId, Seq<u8>), Error>(
            (tx_id, rel_id, row_id, payload),
        ),
{
    broadcast use bytes::lemma_le_bytes_len;
    broadcast use bytes::lemma_le_value_of_bytes;

    bytes::lemma_pow256();
    let b = row_image(tag, tx_id, rel_id, row_id, payload);
    assert(b.subrange(1, 9) =~= bytes::le_bytes(tx_id.0 as nat, 8));
    assert(b.subrange(9, 17) =~= bytes::le_bytes(rel_id.0 as nat, 8));
    assert(b.subrange(17, 25) =~= bytes::le_bytes(row_id.0 as nat, 8));
    assert(b.subrange(25, 29) =~= bytes::le_bytes(payload.len(), 4));
    assert(b.subrange(29, b.len() as int) =~= payload);
}

/// A change is read back from its bytes as it was written.
pub proof fn law_payload_round_trips(p: PayloadView)
    requires
        p.encodable(),
        p.image().len() <= usize::MAX,
    ensures
        parse_payload(p.image()) == Ok::<PayloadView, Error>(p),
{
    broadcast use bytes::lemma_le_bytes_len;
    broadcast use bytes::lemma_le_value_of_bytes;

    bytes::lemma_pow256();
    let b = p.image();
    match p {
        PayloadView::HeapInsert { tx_id, rel_id, row_id, payload } => {
            lemma_row_round_trip(1, tx_id, rel_id, row_id, payload);
        },
        PayloadView::HeapUpdate { tx_id, rel_id, row_id, payload } => {
            lemma_row_round_trip(2, tx_id, rel_id, row_id, payload);
        },
        PayloadView::HeapDelete { tx_id, rel_id, row_id } => {
            assert(b.subrange(1, 9) =~= bytes::le_bytes(tx_id.0 as nat, 8));
            assert(b.subrange(9, 17) =~= bytes::le_bytes(rel_id.0 as nat, 8));
            assert(b.subrange(17, 25) =~= bytes::le_bytes(row_id.0 as nat, 8));
        },
        PayloadView::Commit { tx_id, csn } => {
            assert(b.subrange(1, 9) =~= bytes::le_bytes(tx_id.0 as nat, 8));
            assert(b.subrange(9, 17) =~= bytes::le_bytes(csn.0 as nat, 8));
        },
        PayloadView::PageImage { page_id, page_lsn, page_bytes } => {
            assert(b.subrange(1, 9) =~= bytes::le_bytes(page_id.0 as nat, 8));
            assert(b.subrange(9, 17) =~= bytes::le_bytes(page_lsn.0 as nat, 8));
            assert(b.subrange(17, 21) =~= bytes::le_bytes(page_bytes.len(), 4));
            assert(b.subrange(21, b.len() as int) =~= page_bytes);
        },
    }
}

/// A row change that lost bytes at its end, but not the field that gives its length, is refused.
pub proof fn law_truncated_row_is_refused(tag: u8, tx_id: TxId, rel_id: RelId, row_id: RowId, payload: Seq<u8>, cut: int)
    requires
        tag == 1 || tag == 2,
        payload.len() <= u32::MAX,
        29 + payload.len() <= usize::MAX,
        29 <= cut < 29 + payload.len(),
    ensures
        parse_payload(row_image(tag, tx_id, rel_id, row_id, payload).subrange(0, cut)) == Err::<PayloadView, Error>(
            Error::BufferTooSmall { needed: (29 + payload.len()) as usize, actual: cut as usize },
        ),
{
    broadcast use bytes::lemma_le_bytes_len;
    broadcast use bytes::lemma_le_value_of_bytes;

    bytes::lemma_pow256();
    let b = row_image(tag, tx_id, rel_id, row_id, payload).subrange(0, cut);
    assert(b[0] == tag);
    assert(b.subrange(25, 29) =~= bytes::le_bytes(payload.len(), 4));
}

fn encode_row_payload(tag: u8, tx_id: TxId, rel_id: RelId, row_id: RowId, payload: &[u8]) -> (r: Result<Vec<u8>>)
    ensures
        match r {
            Ok(out) => payload@.len() <= u32::MAX && out@ == row_image(tag, tx_id, rel_id, row_id, payload@),
            Err(e) => payload@.len() > u32::MAX && e == Error::CorruptWal("heap payload too large"),
        },
{
    if payload.len() as u64 > u32::MAX as u64 {
        return Err(Error::CorruptWal("heap payload too large"));
    }
    let mut out: Vec<u8> = Vec::new();
    out.push(tag);
    bytes::push_le(&mut out, tx_id.0, 8);
    bytes::push_le(&mut out, rel_id.0, 8);
    bytes::push_le(&mut out, row_id.0, 8);
    bytes::push_le(&mut out, payload.len() as u64, 4);
    bytes::push_bytes(&mut out, payload);
    proof {
        assert(out@ =~= row_image(tag, tx_id, rel_id, row_id, payload@));
    }
    Ok(out)
}

fn decode_row_payload(data: &[u8]) -> (r: Result<(TxId, RelId, RowId, Vec<u8>)>)
    ensures
        match r {
            Ok((tx_id, rel_id, row_id, payload)) => parse_row(data@) == Ok::<(TxId, RelId, RowId, Seq<u8>), Error>(
                (tx_id, rel_id, row_id, payload@),
            ),
            Err(e) => parse_row(data@) == Err::<(TxId, RelId, RowId, Seq<u8>), Error>(e),
        },
{
    let len: usize = data.len();
    if len < 21 {
        return Err(Error::BufferTooSmall { needed: 21, actual: len });
    }
    if len >= 29 {
        let payload_len: usize = bytes::read_u32(data, 25)? as usize;
        let expected: usize = match 29usize.checked_add(payload_len) {
            Some(expected) => expected,
            None => return Err(Error::CorruptWal("heap payload length overflow")),
        };
        if len < expected {
            return Err(Error::BufferTooSmall { needed: expected, actual: len });
        }
        if expected == len {
            return Ok(
                (
                    TxId(bytes::read_u64(data, 1)?),
                    RelId(bytes::read_u64(data, 9)?),
                    RowId(bytes::read_u64(data, 17)?),
                    bytes::copy_range(data, 29, expected),
                ),
            );
        }
    }
    let payload_len: usize = bytes::read_u32(data, 17)? as usize;
    let expected: usize = match 21usize.checked_add(payload_len) {
        Some(expected) => expected,
        None => return Err(Error::CorruptWal("heap payload length overflow")),
    };
    if len < expected {
        return Err(Error::BufferTooSmall { needed: expected, actual: len });
    }
    if expected == len {
        return Ok(
            (
                TxId(bytes::read_u64(data, 1)?),
                RelId(0),
                RowId(bytes::read_u64(data, 9)?),
                bytes::copy_range(data, 21, expected),
            ),
        );
    }
    Err(Error::CorruptWal("heap payload length mismatch"))
}

impl WalPayload {
    /// The transaction that made the change; none for a page image.
    pub fn tx_id(&self) -> (tx_id: TxId)
        ensures
            tx_id == self@.tx(),
    {
        match self {
            WalPayload::HeapInsert { tx_id, .. } => *tx_id,
            WalPayload::HeapUpdate { tx_id, .. } => *tx_id,
            WalPayload::HeapDelete { tx_id, .. } => *tx_id,
            WalPayload::Commit { tx_id, .. } => *tx_id,
            WalPayload::PageImage { .. } => TxId(0),
        }
    }

    /// The bytes of the change.
    pub fn encode(&self) -> (r: Result<Vec<u8>>)
        ensures
            match r {
                Ok(out) => self@.encodable() && out@ == self@.image(),
                Err(e) => !self@.encodable() && e == self@.size_error(),
            },
    {
        let mut out: Vec<u8> = Vec::new();
        match self {
            WalPayload::HeapInsert { tx_id, rel_id, row_id, payload } => {
                return encode_row_payload(TAG_HEAP_INSERT, *tx_id, *rel_id, *row_id, payload.as_slice());
            },
            WalPayload::HeapUpdate { tx_id, rel_id, row_id, payload } => {
                return encode_row_payload(TAG_HEAP_UPDATE, *tx_id, *rel_id, *row_id, payload.as_slice());
            },
            WalPayload::HeapDelete { tx_id, rel_id, row_id } => {
                out.push(TAG_HEAP_DELETE);
                bytes::push_le(&mut out, tx_id.0, 8);
                bytes::push_le(&mut out, rel_id.0, 8);
                bytes::push_le(&mut out, row_id.0, 8);
            },
            WalPayload::Commit { tx_id, csn } => {
                out.push(TAG_COMMIT);
                bytes::push_le(&mut out, tx_id.0, 8);
                bytes::push_le(&mut out, csn.0, 8);
            },
            WalPayload::PageImage { page_id, page_lsn, page_bytes } => {
                if page_bytes.len() as u64 > u32::MAX as u64 {
                    return Err(Error::CorruptWal("page image too large"));
                }
                out.push(TAG_PAGE_IMAGE);
                bytes::push_le(&mut out, page_id.0, 8);
                bytes::push_le(&mut out, page_lsn.0, 8);
                bytes::push_le(&mut out, page_bytes.len() as u64, 4);
                bytes::push_bytes(&mut out, page_bytes.as_slice());
            },
        }
        proof {
            assert(out@ =~= self@.image());
        }
        Ok(out)
    }

    /// The change that bytes stand for.
    pub fn decode(data: &[u8]) -> (r: Result<WalPayload>)
        ensures
            match r {
                Ok(p) => parse_payload(data@) == Ok::<PayloadView, Error>(p@),
                Err(e) => parse_payload(data@) == Err::<PayloadView, Error>(e),
            },
    {
        let len: usize = data.len();
        if len == 0 {
            return Err(Error::CorruptWal("empty wal payload"));
        }
        let tag: u8 = data[0];
        if tag == TAG_HEAP_INSERT || tag == TAG_HEAP_UPDATE {
            let (tx_id, rel_id, row_id, payload) = decode_row_payload(data)?;
            return Ok(
                if tag == TAG_HEAP_INSERT {
                    WalPayload::HeapInsert { tx_id, rel_id, row_id, payload }
                } else {
                    WalPayload::HeapUpdate { tx_id, rel_id, row_id, payload }
                },
            );
        }
        if tag == TAG_HEAP_DELETE {
            if len >= 25 {
                let rel_id = RelId(bytes::read_u64(data, 9)?);
                let row_id = RowId(bytes::read_u64(data, 17)?);
                if len != 25 {
                    return Err(Error::BufferTooSmall { needed: 25, actual: len });
                }
                return Ok(WalPayload::HeapDelete { tx_id: TxId(bytes::read_u64(data, 1)?), rel_id, row_id });
            }
            if len != 17 {
                return Err(Error::BufferTooSmall { needed: 17, actual: len });
            }
            return Ok(
                WalPayload::HeapDelete {
                    tx_id: TxId(bytes::read_u64(data, 1)?),
                    rel_id: RelId(0),
                    row_id: RowId(bytes::read_u64(data, 9)?),
                },
            );
        }
        if tag == TAG_COMMIT {
            if len != 17 {
                return Err(Error::BufferTooSmall { needed: 17, actual: len });
            }
            return Ok(
                WalPayload::Commit { tx_id: TxId(bytes::read_u64(data, 1)?), csn: Csn(bytes::read_u64(data, 9)?) },
            );
        }
        if tag == TAG_PAGE_IMAGE {
            if len < 21 {
                return Err(Error::BufferTooSmall { needed: 21, actual: len });
            }
            let image_len: usize = bytes::read_u32(data, 17)? as usize;
            let expected: usize = match 21usize.checked_add(image_len) {
                Some(expected) => expected,
                None => return Err(Error::CorruptWal("page image length overflow")),
            };
            if len != expected {
                return Err(Error::BufferTooSmall { needed: expected, actual: len });
            }
            return Ok(
                WalPayload::PageImage {
                    page_id: PageId(bytes::read_u64(data, 1)?),
                    page_lsn: Lsn(bytes::read_u64(data, 9)?),
                    page_bytes: bytes::copy_range(data, 21, expected),
                },
            );
        }
        Err(Error::CorruptWal("unknown wal payload tag"))
    }
}

} // verus!
