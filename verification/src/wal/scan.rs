//! Reading records back from segments.
use crate::error::{Error, Result};
use crate::format::bytes;
use crate::format::Lsn;
use crate::wal::payload;
use crate::wal::record;
use crate::wal::record::{RecordView, WalRecord, WAL_HEADER_LEN};
use crate::wal::segment;
use vstd::prelude::*;

verus! {

/// What a scan of the log found.
#[derive(Clone, Debug, PartialEq, Eq)]
pub struct WalScanReport {
    pub records: Vec<WalRecord>,
    pub valid_end_lsn: Lsn,
    pub torn_tail: bool,
}

/// A segment file: its number and its contents.
#[verifier::ext_equal]
pub struct SegmentView {
    pub number: u64,
    pub content: Seq<u8>,
}

/// Records, and whether the log ended in the middle of one.
#[verifier::ext_equal]
pub struct ScanView {
    pub records: Seq<RecordView>,
    pub torn: bool,
}

/// The error of a record that does not stand where its position says.
pub open spec fn position_error(lsn: Lsn, number: u64, offset: int, segment_bytes: u64) -> Option<Error> {
    if number == 0 || segment::position(number as int, offset, segment_bytes as int) > u64::MAX {
        Some(Error::CorruptWal("lsn overflow"))
    } else if lsn.0 != segment::position(number as int, offset, segment_bytes as int) {
        Some(Error::CorruptWal("record lsn does not match segment position"))
    } else {
        None
    }
}

/// The records of a segment from an offset on. Only the last segment may end in the middle of a
/// record.
#[verifier::opaque]
pub open spec fn scan_segment(content: Seq<u8>, number: u64, last: bool, segment_bytes: u64, offset: int) -> Result<
    ScanView,
>
    decreases content.len() - offset,
{
    let torn = Ok(ScanView { records: Seq::empty(), torn: true });
    if offset >= content.len() {
        Ok(ScanView { records: Seq::empty(), torn: false })
    } else if content.len() - offset < WAL_HEADER_LEN {
        if last {
            torn
        } else {
            Err(Error::CorruptWal("partial record header before final tail"))
        }
    } else {
        let len = WAL_HEADER_LEN + payload::field(content, offset + 12, 4);
        if len > segment_bytes {
            if last {
                torn
            } else {
                Err(Error::CorruptWal("record length exceeds segment size"))
            }
        } else if content.len() - offset < len {
            if last {
                torn
            } else {
                Err(Error::CorruptWal("partial record body before final tail"))
            }
        } else {
            match record::parse_record(content.subrange(offset, offset + len)) {
                Err(e) => if last && offset + len >= content.len() {
                    torn
                } else {
                    Err(e)
                },
                Ok(found) => match position_error(found.lsn, number, offset, segment_bytes) {
                    Some(e) => Err(e),
                    None => match scan_segment(content, number, last, segment_bytes, offset + len) {
                        Err(e) => Err(e),
                        Ok(rest) => Ok(ScanView { records: seq![found] + rest.records, torn: rest.torn }),
                    },
                },
            }
        }
    }
}

/// The records of segments, one after the other.
pub open spec fn scan_all(segments: Seq<SegmentView>, segment_bytes: u64) -> Result<ScanView>
    decreases segments.len(),
{
    if segments.len() == 0 {
        Ok(ScanView { records: Seq::empty(), torn: false })
    } else {
        let first = segments[0];
        match scan_segment(first.content, first.number, segments.len() == 1, segment_bytes, 0) {
            Err(e) => Err(e),
            Ok(here) => match scan_all(segments.drop_first(), segment_bytes) {
                Err(e) => Err(e),
                Ok(rest) => Ok(ScanView { records: here.records + rest.records, torn: here.torn || rest.torn }),
            },
        }
    }
}

/// Where the last record ends.
pub open spec fn end_lsn(records: Seq<RecordView>) -> nat {
    if records.len() == 0 {
        0
    } else {
        records.last().lsn.0 as nat + records.last().frame_len()
    }
}

/// What a scan that may fail adds to what was found before.
pub open spec fn scanned_on(so_far: Seq<RecordView>, rest: Result<ScanView>) -> Result<ScanView> {
    match rest {
        Err(e) => Err(e),
        Ok(rest) => Ok(ScanView { records: so_far + rest.records, torn: rest.torn }),
    }
}

/// Checks that a record stands where its position says.
pub fn validate_record_position(lsn: Lsn, number: u64, offset: u64, segment_bytes: u64) -> (r: Result<()>)
    ensures
        match r {
            Ok(_) => position_error(lsn, number, offset as int, segment_bytes) is None,
            Err(e) => position_error(lsn, number, offset as int, segment_bytes) == Some(e),
        },
{
    if number == 0 {
        return Err(Error::CorruptWal("lsn overflow"));
    }
    let base: u64 = match (number - 1).checked_mul(segment_bytes) {
        Some(base) => base,
        None => {
            proof {
                assert(segment::position(number as int, offset as int, segment_bytes as int) > u64::MAX);
            }
            return Err(Error::CorruptWal("lsn overflow"));
        },
    };
    let expected: u64 = match base.checked_add(offset) {
        Some(expected) => expected,
        None => return Err(Error::CorruptWal("lsn overflow")),
    };
    if lsn.0 != expected {
        return Err(Error::CorruptWal("record lsn does not match segment position"));
    }
    Ok(())
}

/// Appends the records of a segment and says whether the segment ended in the middle of one.
pub fn read_segment(content: &[u8], number: u64, last: bool, segment_bytes: u64, records: &mut Vec<WalRecord>) -> (r: Result<
    bool,
>)
    ensures
        match r {
            Ok(torn) => scan_segment(content@, number, last, segment_bytes, 0) matches Ok(found) && found.torn == torn
                && record::record_views(final(records)@) == record::record_views(old(records)@) + found.records,
            Err(e) => scan_segment(content@, number, last, segment_bytes, 0) == Err::<ScanView, Error>(e),
        },
{
    proof {
        reveal(scan_segment);
    }
    let len: usize = content.len();
    let mut offset: usize = 0;
    let ghost first = record::record_views(records@);
    let ghost so_far = Seq::<RecordView>::empty();
    proof {
        let whole = scan_segment(content@, number, last, segment_bytes, 0);
        assert(whole matches Ok(w) ==> so_far + w.records =~= w.records);
        assert(first + so_far =~= first);
    }
    while offset < len
        invariant
            offset <= len,
            len == content@.len(),
            first == record::record_views(old(records)@),
            record::record_views(records@) == first + so_far,
            scan_segment(content@, number, last, segment_bytes, 0) == scanned_on(
                so_far,
                scan_segment(content@, number, last, segment_bytes, offset as int),
            ),
        decreases len - offset,
    {
        proof {
            reveal(scan_segment);
        }
        let remaining: usize = len - offset;
        if remaining < WAL_HEADER_LEN {
            if last {
                proof {
                    assert(so_far + Seq::<RecordView>::empty() =~= so_far);
                }
                return Ok(true);
            }
            return Err(Error::CorruptWal("partial record header before final tail"));
        }
        let payload_len: u64 = bytes::read_u32(content, offset + 12)? as u64;
        let record_len: u64 = payload_len + WAL_HEADER_LEN as u64;
        if record_len > segment_bytes {
            if last {
                proof {
                    assert(so_far + Seq::<RecordView>::empty() =~= so_far);
                }
                return Ok(true);
            }
            return Err(Error::CorruptWal("record length exceeds segment size"));
        }
        if (remaining as u64) < record_len {
            if last {
                proof {
                    assert(so_far + Seq::<RecordView>::empty() =~= so_far);
                }
                return Ok(true);
            }
            return Err(Error::CorruptWal("partial record body before final tail"));
        }
        let end: usize = offset + record_len as usize;
        let frame: Vec<u8> = bytes::copy_range(content, offset, end);
        match WalRecord::decode(frame.as_slice()) {
            Ok(found) => {
                validate_record_position(found.lsn, number, offset as u64, segment_bytes)?;
                let ghost before = record::record_views(records@);
                let ghost old_so_far = so_far;
                records.push(found);
                proof {
                    so_far = so_far.push(found@);
                    assert(record::record_views(records@) =~= before.push(found@));
                    assert(first + so_far =~= (first + old_so_far).push(found@));
                    let rest = scan_segment(content@, number, last, segment_bytes, end as int);
                    assert(rest matches Ok(w) ==> old_so_far + (seq![found@] + w.records) =~= so_far + w.records);
                }
                offset = end;
            },
            Err(e) => {
                if last && end >= len {
                    proof {
                        assert(so_far + Seq::<RecordView>::empty() =~= so_far);
                    }
                    return Ok(true);
                }
                return Err(e);
            },
        }
    }
    proof {
        assert(so_far + Seq::<RecordView>::empty() =~= so_far);
    }
    Ok(false)
}

/// Scanning found records: where the last one ends.
pub fn end_of_records(records: &Vec<WalRecord>) -> (r: Result<Lsn>)
    ensures
        match r {
            Ok(lsn) => lsn.0 == end_lsn(record::record_views(records@)),
            Err(e) => end_lsn(record::record_views(records@)) > u64::MAX && e == Error::CorruptWal("lsn overflow"),
        },
{
    if records.len() == 0 {
        return Ok(Lsn(0));
    }
    let last = &records[records.len() - 1];
    proof {
        assert(record::record_views(records@).last() == last@);
    }
    let header: u64 = WAL_HEADER_LEN as u64;
    let payload: u64 = last.payload.len() as u64;
    if payload > u64::MAX - header || last.lsn.0 > u64::MAX - header - payload {
        return Err(Error::CorruptWal("lsn overflow"));
    }
    Ok(Lsn(last.lsn.0 + header + payload))
}

} // verus!
