//! Log records and the frames that hold them.
use crate::error::{Error, Result};
use crate::format::bytes;
use crate::format::{Lsn, TxId};
use vstd::prelude::*;

verus! {

/// Bytes of a record before its payload.
pub const WAL_HEADER_LEN: usize = 40;

/// Marks the start of a record.
pub const WAL_MAGIC: u32 = 0x5244_5741;

/// The version of the record format.
pub const WAL_VERSION: u16 = 1;

/// What a record is about.
#[derive(Clone, Copy, Debug, PartialEq, Eq, Structural)]
pub enum WalRecordKind {
    PageImage,
    PageDelta,
    Commit,
}

impl WalRecordKind {
    pub open spec fn code(self) -> u8 {
        match self {
            WalRecordKind::PageImage => 1,
            WalRecordKind::PageDelta => 2,
            WalRecordKind::Commit => 3,
        }
    }

    pub open spec fn of_code(code: u8) -> Option<WalRecordKind> {
        if code == 1 {
            Some(WalRecordKind::PageImage)
        } else if code == 2 {
            Some(WalRecordKind::PageDelta)
        } else if code == 3 {
            Some(WalRecordKind::Commit)
        } else {
            None
        }
    }
}

/// A log record.
#[derive(Clone, Debug, PartialEq, Eq)]
pub struct WalRecord {
    pub lsn: Lsn,
    pub prev_lsn: Lsn,
    pub tx_id: TxId,
    pub kind: WalRecordKind,
    pub payload: Vec<u8>,
}

/// The contents of a log record.
#[verifier::ext_equal]
pub struct RecordView {
    pub lsn: Lsn,
    pub prev_lsn: Lsn,
    pub tx_id: TxId,
    pub kind: WalRecordKind,
    pub payload: Seq<u8>,
}

impl View for WalRecord {
    type V = RecordView;

    open spec fn view(&self) -> RecordView {
        RecordView {
            lsn: self.lsn,
            prev_lsn: self.prev_lsn,
            tx_id: self.tx_id,
            kind: self.kind,
            payload: self.payload@,
        }
    }
}

/// The views of a list of records.
pub open spec fn record_views(records: Seq<WalRecord>) -> Seq<RecordView> {
    Seq::new(records.len(), |i: int| records[i]@)
}

/// The checksum of bytes, continued from `seed`.
pub open spec fn checksum(b: Seq<u8>, seed: nat) -> nat
    decreases b.len(),
{
    if b.len() == 0 {
        seed
    } else {
        (checksum(b.drop_last(), seed) * 16777619 + b.last() as nat + 1) % 0x1_0000_0000
    }
}

/// The checksum that bytes of a header start from.
pub const CHECKSUM_SEED: u32 = 0x811c_9dc5;

impl RecordView {
    /// The header in front of its checksum.
    pub open spec fn front(self) -> Seq<u8> {
        bytes::le_bytes(WAL_MAGIC as nat, 4) + bytes::le_bytes(WAL_VERSION as nat, 2) + seq![self.kind.code(), 0u8]
    }

    /// Everything behind the checksum.
    pub open spec fn back(self) -> Seq<u8> {
        bytes::le_bytes(self.payload.len(), 4) + bytes::le_bytes(self.lsn.0 as nat, 8) + bytes::le_bytes(
            self.prev_lsn.0 as nat,
            8,
        ) + bytes::le_bytes(self.tx_id.0 as nat, 8) + self.payload
    }

    pub open spec fn sum(self) -> nat {
        checksum(self.back(), checksum(self.front(), CHECKSUM_SEED as nat))
    }

    /// The bytes of the record.
    pub open spec fn frame(self) -> Seq<u8> {
        self.front() + bytes::le_bytes(self.sum(), 4) + self.back()
    }

    /// The length of the record in bytes.
    pub open spec fn frame_len(self) -> nat {
        WAL_HEADER_LEN as nat + self.payload.len()
    }
}

/// The record that bytes stand for.
pub open spec fn parse_record(b: Seq<u8>) -> Result<RecordView> {
    if b.len() < WAL_HEADER_LEN {
        Err(Error::BufferTooSmall { needed: WAL_HEADER_LEN, actual: b.len() as usize })
    } else if bytes::le_value(b.subrange(0, 4)) != WAL_MAGIC {
        Err(Error::CorruptWal("record magic mismatch"))
    } else if bytes::le_value(b.subrange(4, 6)) != WAL_VERSION {
        Err(Error::UnsupportedVersion(bytes::le_value(b.subrange(4, 6)) as u16))
    } else {
        match WalRecordKind::of_code(b[6]) {
            None => Err(Error::CorruptWal("unknown record kind")),
            Some(kind) => if bytes::le_value(b.subrange(12, 16)) != b.len() - WAL_HEADER_LEN {
                Err(Error::CorruptWal("record length mismatch"))
            } else if bytes::le_value(b.subrange(8, 12)) != checksum(
                b.subrange(12, b.len() as int),
                checksum(b.subrange(0, 8), CHECKSUM_SEED as nat),
            ) {
                Err(Error::CorruptWal("record checksum mismatch"))
            } else {
                Ok(
                    RecordView {
                        lsn: Lsn(bytes::le_value(b.subrange(16, 24)) as u64),
                        prev_lsn: Lsn(bytes::le_value(b.subrange(24, 32)) as u64),
                        tx_id: TxId(bytes::le_value(b.subrange(32, 40)) as u64),
                        kind,
                        payload: b.subrange(WAL_HEADER_LEN as int, b.len() as int),
                    },
                )
            },
        }
    }
}

proof fn lemma_checksum_bound(b: Seq<u8>, seed: nat)
    requires
        seed < 0x1_0000_0000,
    ensures
        checksum(b, seed) < 0x1_0000_0000,
    decreases b.len(),
{
}

pub proof fn lemma_frame_len(r: RecordView)
    ensures
        r.frame().len() == r.frame_len(),
{
    broadcast use bytes::lemma_le_bytes_len;

}

/// A record is read back from its bytes as it was written, and its length is where readers look
/// for it.
#[verifier::spinoff_prover]
#[verifier::rlimit(50)]
pub proof fn law_record_round_trips(r: RecordView)
    requires
        r.payload.len() <= u32::MAX,
    ensures
        r.frame().len() == r.frame_len(),
        parse_record(r.frame()) == Ok::<RecordView, Error>(r),
        bytes::le_value(r.frame().subrange(12, 16)) == r.payload.len(),
{
    broadcast use bytes::lemma_le_bytes_len;
    broadcast use bytes::lemma_le_value_of_bytes;

    bytes::lemma_pow256();
    let b = r.frame();
    lemma_checksum_bound(r.front(), CHECKSUM_SEED as nat);
    lemma_checksum_bound(r.back(), checksum(r.front(), CHECKSUM_SEED as nat));
    assert(b.subrange(0, 4) =~= bytes::le_bytes(WAL_MAGIC as nat, 4));
    assert(b.subrange(4, 6) =~= bytes::le_bytes(WAL_VERSION as nat, 2));
    assert(b[6] == r.kind.code());
    assert(b.subrange(0, 8) =~= r.front());
    assert(b.subrange(8, 12) =~= bytes::le_bytes(r.sum(), 4));
    assert(b.subrange(12, b.len() as int) =~= r.back());
    assert(b.subrange(12, 16) =~= bytes::le_bytes(r.payload.len(), 4));
    assert(b.subrange(16, 24) =~= bytes::le_bytes(r.lsn.0 as nat, 8));
    assert(b.subrange(24, 32) =~= bytes::le_bytes(r.prev_lsn.0 as nat, 8));
    assert(b.subrange(32, 40) =~= bytes::le_bytes(r.tx_id.0 as nat, 8));
    assert(b.subrange(WAL_HEADER_LEN as int, b.len() as int) =~= r.payload);
}

/// The checksum of part of a byte run, continued from `seed`.
fn checksum_range(b: &[u8], start: usize, end: usize, seed: u32) -> (sum: u32)
    requires
        start <= end <= b@.len(),
    ensures
        sum == checksum(b@.subrange(start as int, end as int), seed as nat),
{
    let mut sum: u32 = seed;
    let mut i: usize = start;
    while i < end
        invariant
            start <= i <= end <= b@.len(),
            sum == checksum(b@.subrange(start as int, i as int), seed as nat),
        decreases end - i,
    {
        proof {
            assert(b@.subrange(start as int, i + 1).drop_last() =~= b@.subrange(start as int, i as int));
        }
        sum = ((sum as u64 * 16777619 + b[i] as u64 + 1) % 0x1_0000_0000) as u32;
        i = i + 1;
    }
    sum
}

impl WalRecord {
    /// The length of the record in bytes, or the largest size where it is larger.
    pub fn encoded_len(&self) -> (len: usize)
        ensures
            self@.frame_len() <= usize::MAX ==> len == self@.frame_len(),
            self@.frame_len() > usize::MAX ==> len == usize::MAX,
    {
        self.payload.len().saturating_add(WAL_HEADER_LEN)
    }

    /// The bytes of the record.
    pub fn encode(&self) -> (r: Result<Vec<u8>>)
        ensures
            match r {
                Ok(out) => self@.payload.len() <= u32::MAX && out@ == self@.frame(),
                Err(e) => self@.payload.len() > u32::MAX && e == Error::CorruptWal("record payload too large"),
            },
    {
        broadcast use bytes::lemma_le_bytes_len;

        if self.payload.len() as u64 > u32::MAX as u64 {
            return Err(Error::CorruptWal("record payload too large"));
        }
        let mut front: Vec<u8> = Vec::new();
        bytes::push_le(&mut front, WAL_MAGIC as u64, 4);
        bytes::push_le(&mut front, WAL_VERSION as u64, 2);
        front.push(
            match self.kind {
                WalRecordKind::PageImage => 1,
                WalRecordKind::PageDelta => 2,
                WalRecordKind::Commit => 3,
            },
        );
        front.push(0);
        let mut back: Vec<u8> = Vec::new();
        bytes::push_le(&mut back, self.payload.len() as u64, 4);
        bytes::push_le(&mut back, self.lsn.0, 8);
        bytes::push_le(&mut back, self.prev_lsn.0, 8);
        bytes::push_le(&mut back, self.tx_id.0, 8);
        bytes::push_bytes(&mut back, self.payload.as_slice());
        proof {
            assert(front@ =~= self@.front());
            assert(back@ =~= self@.back());
            assert(front@.subrange(0, front@.len() as int) =~= front@);
            assert(back@.subrange(0, back@.len() as int) =~= back@);
        }
        let head: u32 = checksum_range(front.as_slice(), 0, front.len(), CHECKSUM_SEED);
        let sum: u32 = checksum_range(back.as_slice(), 0, back.len(), head);
        bytes::push_le(&mut front, sum as u64, 4);
        bytes::push_bytes(&mut front, back.as_slice());
        proof {
            assert(front@ =~= self@.frame());
        }
        Ok(front)
    }

    /// The record that bytes stand for.
    pub fn decode(data: &[u8]) -> (r: Result<WalRecord>)
        ensures
            match r {
                Ok(record) => parse_record(data@) == Ok::<RecordView, Error>(record@),
                Err(e) => parse_record(data@) == Err::<RecordView, Error>(e),
            },
    {
        let len: usize = data.len();
        if len < WAL_HEADER_LEN {
            return Err(Error::BufferTooSmall { needed: WAL_HEADER_LEN, actual: len });
        }
        if bytes::read_u32(data, 0)? != WAL_MAGIC {
            return Err(Error::CorruptWal("record magic mismatch"));
        }
        let version: u16 = bytes::read_u16(data, 4)?;
        if version != WAL_VERSION {
            return Err(Error::UnsupportedVersion(version));
        }
        let kind = match data[6] {
            1 => WalRecordKind::PageImage,
            2 => WalRecordKind::PageDelta,
            3 => WalRecordKind::Commit,
            _ => return Err(Error::CorruptWal("unknown record kind")),
        };
        if bytes::read_u32(data, 12)? as u64 != (len - WAL_HEADER_LEN) as u64 {
            return Err(Error::CorruptWal("record length mismatch"));
        }
        let head: u32 = checksum_range(data, 0, 8, CHECKSUM_SEED);
        let sum: u32 = checksum_range(data, 12, len, head);
        if bytes::read_u32(data, 8)? != sum {
            return Err(Error::CorruptWal("record checksum mismatch"));
        }
        Ok(
            WalRecord {
                lsn: Lsn(bytes::read_u64(data, 16)?),
                prev_lsn: Lsn(bytes::read_u64(data, 24)?),
                tx_id: TxId(bytes::read_u64(data, 32)?),
                kind,
                payload: bytes::copy_range(data, WAL_HEADER_LEN, len),
            },
        )
    }
}

} // verus!
