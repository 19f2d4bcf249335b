//! Where records go, and which ones are taken.
use crate::error::Error;
use crate::format::TxId;
use crate::wal::coordinator;
use crate::wal::coordinator::QueueView;
use crate::wal::manager;
use crate::wal::manager::LogView;
use crate::wal::record;
use crate::wal::record::{RecordView, WalRecordKind, WAL_HEADER_LEN};
use crate::wal::segment;
use crate::wal::WalConfig;
use vstd::prelude::*;

verus! {

/// A record starts right behind the one before it if it fits its segment, and at the start of the next
/// segment otherwise: no space is left out that could hold it.
pub proof fn law_no_space_is_wasted(reserved: int, segment_bytes: int, len: int)
    requires
        0 <= reserved,
        0 < len <= segment_bytes,
    ensures
        segment::offset_of(reserved, segment_bytes) + len <= segment_bytes ==> coordinator::reserve_start(
            reserved,
            segment_bytes,
            len,
        ) == reserved,
        segment::offset_of(reserved, segment_bytes) + len > segment_bytes ==> segment::offset_of(
            coordinator::reserve_start(reserved, segment_bytes, len),
            segment_bytes,
        ) == 0 && segment::segment_of(coordinator::reserve_start(reserved, segment_bytes, len), segment_bytes)
            == segment::segment_of(reserved, segment_bytes) + 1,
{
    segment::law_position_of_lsn(reserved, segment_bytes);
    let seg = segment::segment_of(reserved, segment_bytes);
    segment::law_lsn_of_position(seg + 1, 0, segment_bytes);
    assert(segment::position(seg + 1, 0, segment_bytes) == seg * segment_bytes);
}

/// A queued record takes the positions that were reserved for it, says where the one before it starts, and
/// comes behind all others; what was queued stays.
pub proof fn law_queued_record_says_what_it_was_given(
    q: QueueView,
    config: WalConfig,
    kind: WalRecordKind,
    tx_id: TxId,
    data: Seq<u8>,
)
    requires
        data.len() <= u32::MAX,
        0 < WAL_HEADER_LEN + data.len() <= config.segment_bytes,
        q.has_room(config),
    ensures
        ({
            let after = q.with_record(config, kind, tx_id, data);
            let queued = after.pending.last();
            &&& after.pending == q.pending.push(queued)
            &&& record::parse_record(queued.encoded) == Ok::<RecordView, Error>(
                RecordView { lsn: queued.append.start_lsn, prev_lsn: q.prev, tx_id, kind, payload: data },
            )
            &&& queued.append.end_lsn.0 == queued.append.start_lsn.0 + queued.encoded.len()
            &&& queued.append.start_lsn.0 >= q.reserved.0
            &&& after.reserved == queued.append.end_lsn
            &&& after.prev == queued.append.start_lsn
            &&& after.durable == q.durable
            &&& after.flush_requested == q.flush_requested
            &&& after.failure == q.failure
            &&& after.shutdown == q.shutdown
        }),
{
    let len = (WAL_HEADER_LEN + data.len()) as int;
    coordinator::law_reservations_ascend(q.reserved.0 as int, config.segment_bytes as int, len);
    let append = q.next_append(config, len);
    let made = RecordView { lsn: append.start_lsn, prev_lsn: q.prev, tx_id, kind, payload: data };
    record::law_record_round_trips(made);
}

/// A record is refused exactly if it fits no segment or not the queue, if the writer has failed, or if
/// positions cannot be counted any more.
pub proof fn law_records_are_refused_for_a_reason(q: QueueView, config: WalConfig, len: int)
    ensures
        q.refusal(config, len) is Some <==> len > config.segment_bytes || len > config.wal_buffer_bytes || q.failure is Some
            || q.reserved.0 + 2 * config.segment_bytes > u64::MAX || coordinator::queued_len(q.pending) + len > usize::MAX,
        len <= config.segment_bytes && len <= config.wal_buffer_bytes && q.failure is Some ==> q.refusal(config, len)
            == Some(Error::CorruptWal(q.failure->0)),
        QueueView::too_large(config, len) is Some <==> len > config.segment_bytes || len > config.wal_buffer_bytes,
{
}

/// The queue has room for a record exactly if what waits and the record together fit the buffer.
pub proof fn law_queue_holds_what_fits_its_buffer(q: QueueView, config: WalConfig, len: int)
    ensures
        q.admits(config, len) <==> coordinator::queued_len(q.pending) + len <= config.wal_buffer_bytes,
        q.pending.len() == 0 && len <= config.wal_buffer_bytes ==> q.admits(config, len),
{
}

/// The log goes on in its segment as long as records fit it: it moves to the next one only if a record
/// does not, and never leaves a segment empty.
pub proof fn law_segments_are_filled(v: LogView, len: int)
    requires
        0 < len,
        v.active_segment < u64::MAX,
    ensures
        v.active_offset == 0 || v.active_offset + len <= v.segment_bytes ==> v.placed(len) == v,
        v.active_offset > 0 && v.active_offset + len > v.segment_bytes ==> v.placed(len).active_segment
            == v.active_segment + 1 && v.placed(len).active_offset == 0,
        v.placed(len).dir == v.dir,
        v.placed(len).segment_bytes == v.segment_bytes,
        v.placed(len).durable == v.durable,
{
}

/// Records are chained: each says where the one before it starts.
pub proof fn law_records_are_chained(
    v: LogView,
    kind: WalRecordKind,
    tx_id: TxId,
    data: Seq<u8>,
    then: WalRecordKind,
    other: TxId,
    more: Seq<u8>,
)
    requires
        v.wf(),
        v.active_segment < u64::MAX,
        v.has_room((WAL_HEADER_LEN + data.len()) as int),
        WAL_HEADER_LEN + data.len() <= v.segment_bytes,
    ensures
        ({
            let len = (WAL_HEADER_LEN + data.len()) as int;
            let first = v.next_record(kind, tx_id, data);
            let after = v.placed(len).advanced(len);
            &&& after.next_record(then, other, more).prev_lsn == first.lsn
            &&& after.written.0 == first.lsn.0 + len
            &&& first.prev_lsn == v.prev
            &&& first.kind == kind
            &&& first.tx_id == tx_id
            &&& first.payload == data
        }),
{
    let len = (WAL_HEADER_LEN + data.len()) as int;
    let p = v.placed(len);
    let bytes = v.segment_bytes as int;
    let n = v.active_segment as int;
    assert((n - 1) * bytes >= 0) by (nonlinear_arith)
        requires
            n >= 1,
            bytes >= 0,
    ;
    assert(p.at() >= 0 && p.at() + len <= u64::MAX) by {
        if v.is_full(len) {
            assert((n + 1 - 1) * bytes == n * bytes) by (nonlinear_arith);
            assert(p.at() == n * bytes);
        }
    }
}

/// The segments that pruning removes are counted one by one.
pub proof fn law_removed_segments_are_counted(numbers: Seq<u64>, bound: int)
    ensures
        manager::count_below(numbers, bound) == numbers.filter(|n: u64| n < bound).len(),
    decreases numbers.len(),
{
    reveal(Seq::filter);
    if numbers.len() > 0 {
        law_removed_segments_are_counted(numbers.drop_last(), bound);
    }
}

} // verus!
