//! What a scan of the log lets through.
use crate::error::Error;
use crate::wal::payload;
use crate::wal::record;
use crate::wal::record::{RecordView, WAL_HEADER_LEN};
use crate::wal::scan;
use crate::wal::scan::{ScanView, SegmentView};
use crate::wal::segment;
use vstd::prelude::*;

verus! {

/// Records that a scan of a segment finds stand where their positions say, one right behind the other, and
/// their bytes stand there.
pub proof fn law_scanned_records_stand_in_place(
    content: Seq<u8>,
    number: u64,
    last: bool,
    segment_bytes: u64,
    offset: int,
    i: int,
)
    requires
        0 <= offset <= content.len(),
        scan::scan_segment(content, number, last, segment_bytes, offset) is Ok,
        0 <= i < scan::scan_segment(content, number, last, segment_bytes, offset)->Ok_0.records.len(),
    ensures
        ({
            let records = scan::scan_segment(content, number, last, segment_bytes, offset)->Ok_0.records;
            let at = records[i].lsn.0 - segment::position(number as int, 0, segment_bytes as int);
            &&& at >= offset
            &&& at + records[i].frame_len() <= content.len()
            &&& record::parse_record(content.subrange(at, at + records[i].frame_len())) == Ok::<RecordView, Error>(
                records[i],
            )
            &&& i == 0 ==> at == offset
            &&& i + 1 < records.len() ==> records[i + 1].lsn.0 == records[i].lsn.0 + records[i].frame_len()
        }),
    decreases content.len() - offset,
{
    reveal(scan::scan_segment);
    let found = scan::scan_segment(content, number, last, segment_bytes, offset)->Ok_0;
    let len = WAL_HEADER_LEN + payload::field(content, offset + 12, 4);
    let frame = content.subrange(offset, offset + len);
    let first = record::parse_record(frame)->Ok_0;
    let rest = scan::scan_segment(content, number, last, segment_bytes, offset + len)->Ok_0;
    assert(found.records == seq![first] + rest.records);
    assert(first.frame_len() == len);
    if i == 0 {
        assert(found.records[0] == first);
        if found.records.len() > 1 {
            law_scanned_records_stand_in_place(content, number, last, segment_bytes, offset + len, 0);
            assert(found.records[1] == rest.records[0]);
        }
    } else {
        law_scanned_records_stand_in_place(content, number, last, segment_bytes, offset + len, i - 1);
        assert(found.records[i] == rest.records[i - 1]);
        if i + 1 < found.records.len() {
            assert(found.records[i + 1] == rest.records[i]);
        }
    }
}

/// A record that is damaged stops a scan: it is passed over in no segment, and only at the very end of the
/// log is it taken for one that was not written to its end.
pub proof fn law_damaged_record_is_not_passed_over(
    content: Seq<u8>,
    number: u64,
    last: bool,
    segment_bytes: u64,
    offset: int,
)
    requires
        0 <= offset,
        offset + WAL_HEADER_LEN <= content.len(),
        ({
            let len = WAL_HEADER_LEN + payload::field(content, offset + 12, 4);
            &&& len <= segment_bytes
            &&& offset + len <= content.len()
            &&& record::parse_record(content.subrange(offset, offset + len)) is Err
        }),
    ensures
        ({
            let len = WAL_HEADER_LEN + payload::field(content, offset + 12, 4);
            let r = scan::scan_segment(content, number, last, segment_bytes, offset);
            &&& !last || offset + len < content.len() ==> r is Err
            &&& last && offset + len == content.len() ==> r == Ok::<ScanView, Error>(
                ScanView { records: Seq::empty(), torn: true },
            )
        }),
{
    reveal(scan::scan_segment);
}

/// A record that does not stand where its position says stops a scan.
pub proof fn law_misplaced_record_is_refused(
    content: Seq<u8>,
    number: u64,
    last: bool,
    segment_bytes: u64,
    offset: int,
    r: RecordView,
)
    requires
        0 <= offset,
        r.payload.len() <= u32::MAX,
        r.frame_len() <= segment_bytes,
        offset + r.frame_len() <= content.len(),
        content.subrange(offset, offset + r.frame_len()) == r.frame(),
        r.lsn.0 != segment::position(number as int, offset, segment_bytes as int),
    ensures
        scan::scan_segment(content, number, last, segment_bytes, offset) is Err,
{
    reveal(scan::scan_segment);
    record::law_record_round_trips(r);
    let frame = r.frame();
    assert(content.subrange(offset + 12, offset + 16) =~= frame.subrange(12, 16));
}

/// What a scan of several segments finds comes segment by segment, and only the last one may be cut short.
pub proof fn law_segments_are_scanned_in_order(segments: Seq<SegmentView>, segment_bytes: u64)
    requires
        segments.len() > 0,
        scan::scan_all(segments, segment_bytes) is Ok,
    ensures
        ({
            let here = scan::scan_segment(
                segments[0].content,
                segments[0].number,
                segments.len() == 1,
                segment_bytes,
                0,
            );
            let rest = scan::scan_all(segments.drop_first(), segment_bytes);
            &&& here is Ok
            &&& rest is Ok
            &&& scan::scan_all(segments, segment_bytes)->Ok_0.records == here->Ok_0.records + rest->Ok_0.records
            &&& segments.len() > 1 ==> !here->Ok_0.torn
            &&& scan::scan_all(segments, segment_bytes)->Ok_0.torn == (if segments.len() == 1 {
                here->Ok_0.torn
            } else {
                rest->Ok_0.torn
            })
        }),
{
    lemma_whole_segment(segments[0].content, segments[0].number, segment_bytes, 0);
    if segments.len() == 1 {
        assert(segments.drop_first() =~= Seq::empty());
    }
}

proof fn lemma_whole_segment(content: Seq<u8>, number: u64, segment_bytes: u64, offset: int)
    ensures
        scan::scan_segment(content, number, false, segment_bytes, offset) matches Ok(found) ==> !found.torn,
    decreases content.len() - offset,
{
    reveal(scan::scan_segment);
    if offset < content.len() && content.len() - offset >= WAL_HEADER_LEN {
        let len = WAL_HEADER_LEN + payload::field(content, offset + 12, 4);
        if offset + len <= content.len() {
            lemma_whole_segment(content, number, segment_bytes, offset + len);
        }
    }
}

/// The end of a log is where the bytes of its last record end.
pub proof fn law_log_ends_behind_its_last_record(records: Seq<RecordView>, r: RecordView)
    ensures
        scan::end_lsn(records.push(r)) == r.lsn.0 + r.frame().len(),
        scan::end_lsn(Seq::empty()) == 0,
{
    record::lemma_frame_len(r);
}

} // verus!
