//! What is queued reaches the log: every record lands where its position says, in the order in
//! which it was queued.
use crate::format::{Lsn, TxId};
use crate::wal::coordinator;
use crate::wal::coordinator::{QueueView, QueuedView};
use crate::wal::laws;
use crate::wal::manager;
use crate::wal::manager::LogView;
use crate::wal::record;
use crate::wal::record::{RecordView, WalRecordKind, WAL_HEADER_LEN};
use crate::wal::segment;
use crate::wal::writer;
use crate::wal::writer::{Written, WriterPhase};
use crate::wal::{WalAppend, WalConfig};
use vstd::prelude::*;

verus! {

/// A record as it waits in the queue.
pub open spec fn queued(r: RecordView) -> QueuedView {
    QueuedView {
        append: WalAppend { start_lsn: r.lsn, end_lsn: Lsn((r.lsn.0 + r.frame_len()) as u64) },
        encoded: r.frame(),
    }
}

/// A record is the one that an append to the log would make where it stands.
pub open spec fn comes_next(log: LogView, r: RecordView) -> bool {
    &&& log.active_offset < log.segment_bytes
    &&& r.payload.len() <= u32::MAX
    &&& r.frame_len() <= log.segment_bytes
    &&& log.has_room(r.frame_len() as int)
    &&& r == log.next_record(r.kind, r.tx_id, r.payload)
}

/// Queued records are these records, each of which comes next when its turn comes.
pub open spec fn delivers(w: Written, pending: Seq<QueuedView>, made: Seq<RecordView>) -> bool
    decreases pending.len(),
{
    &&& pending.len() == made.len()
    &&& pending.len() > 0 ==> {
        &&& delivers(w, pending.drop_last(), made.drop_last())
        &&& comes_next(w.with_all(pending.drop_last()).log, made.last())
        &&& pending.last() == queued(made.last())
    }
}

/// The log stands at a position, inside its segment.
pub open spec fn stands(log: LogView, lsn: Lsn) -> bool {
    &&& log.active_segment == segment::segment_of(lsn.0 as int, log.segment_bytes as int)
    &&& log.active_offset == segment::offset_of(lsn.0 as int, log.segment_bytes as int)
    &&& log.written == lsn
}

/// The queue and the log are in step: once all that waits is written, the log stands where the
/// queue reserves next.
pub open spec fn in_step(w: Written, q: QueueView, made: Seq<RecordView>) -> bool {
    let end = w.with_all(q.pending).log;
    &&& w.log.wf()
    &&& delivers(w, q.pending, made)
    &&& stands(end, q.reserved)
    &&& end.prev == q.prev
}

proof fn lemma_with_all_keeps(w: Written, batch: Seq<QueuedView>)
    ensures
        w.with_all(batch).log.segment_bytes == w.log.segment_bytes,
        w.with_all(batch).log.dir == w.log.dir,
        w.with_all(batch).log.durable == w.log.durable,
    decreases batch.len(),
{
    if batch.len() > 0 {
        lemma_with_all_keeps(w, batch.drop_last());
    }
}

proof fn lemma_with_all_split(w: Written, a: Seq<QueuedView>, b: Seq<QueuedView>)
    ensures
        w.with_all(a + b) == w.with_all(a).with_all(b),
    decreases b.len(),
{
    if b.len() == 0 {
        assert(a + b =~= a);
    } else {
        assert((a + b).drop_last() =~= a + b.drop_last());
        lemma_with_all_split(w, a, b.drop_last());
    }
}

/// A record that comes next is accepted, and writing it is what an append does.
proof fn lemma_next_is_accepted(w: Written, r: RecordView)
    requires
        w.log.wf(),
        comes_next(w.log, r),
    ensures
        w.accepts(queued(r)),
        w.with(queued(r)).log == w.log.placed(r.frame_len() as int).advanced(r.frame_len() as int),
        w.with(queued(r)).files == w.log.files_after(w.files, r.frame()),
        w.with(queued(r)).log.wf(),
{
    record::lemma_frame_len(r);
    manager::lemma_room(w.log);
    let len = r.frame_len() as int;
    let s = w.log.active_segment as int;
    let b = w.log.segment_bytes as int;
    assert((s + 1 - 1) * b == (s - 1) * b + b) by (nonlinear_arith);
    assert(r.lsn.0 == w.log.placed(len).at());
    assert(w.moves(r.lsn, len) == w.log.is_full(len));
}

proof fn lemma_delivered_is_accepted(w: Written, pending: Seq<QueuedView>, made: Seq<RecordView>)
    requires
        w.log.wf(),
        delivers(w, pending, made),
    ensures
        w.accepts_all(pending),
        w.with_all(pending).log.wf(),
    decreases pending.len(),
{
    if pending.len() > 0 {
        lemma_delivered_is_accepted(w, pending.drop_last(), made.drop_last());
        lemma_next_is_accepted(w.with_all(pending.drop_last()), made.last());
    }
}

/// Queueing a record keeps the queue and the log in step, as long as the record does not end
/// exactly where a segment ends.
pub proof fn law_append_keeps_step(
    w: Written,
    q: QueueView,
    made: Seq<RecordView>,
    config: WalConfig,
    kind: WalRecordKind,
    tx_id: TxId,
    data: Seq<u8>,
)
    requires
        in_step(w, q, made),
        config.segment_bytes == w.log.segment_bytes,
        data.len() <= u32::MAX,
        WAL_HEADER_LEN + data.len() <= config.segment_bytes,
        q.has_room(config),
        segment::offset_of(
            q.next_append(config, (WAL_HEADER_LEN + data.len()) as int).end_lsn.0 as int,
            config.segment_bytes as int,
        ) != 0,
    ensures
        ({
            let r = RecordView {
                lsn: q.next_append(config, (WAL_HEADER_LEN + data.len()) as int).start_lsn,
                prev_lsn: q.prev,
                tx_id,
                kind,
                payload: data,
            };
            in_step(w, q.with_record(config, kind, tx_id, data), made.push(r))
        }),
{
    let len = (WAL_HEADER_LEN + data.len()) as int;
    let append = q.next_append(config, len);
    let r = RecordView { lsn: append.start_lsn, prev_lsn: q.prev, tx_id, kind, payload: data };
    let after = q.with_record(config, kind, tx_id, data);
    let end = w.with_all(q.pending);
    let b = config.segment_bytes as int;
    let s = end.log.active_segment as int;
    let o = end.log.active_offset as int;
    lemma_with_all_keeps(w, q.pending);
    lemma_delivered_is_accepted(w, q.pending, made);
    segment::law_position_of_lsn(q.reserved.0 as int, b);
    coordinator::law_reservations_ascend(q.reserved.0 as int, b, len);
    assert((s - 1) * b + b == s * b) by (nonlinear_arith);
    assert((s + 1 - 1) * b == s * b) by (nonlinear_arith);
    assert(end.log.at() == q.reserved.0);
    record::lemma_frame_len(r);
    assert(r.lsn.0 == end.log.placed(len).at());
    assert(comes_next(end.log, r));
    lemma_next_is_accepted(end, r);
    assert(after.pending.drop_last() =~= q.pending);
    assert(made.push(r).drop_last() =~= made);
    assert(after.pending.last() == queued(r));
    assert(delivers(w, after.pending, made.push(r)));
    assert(w.with_all(after.pending) == end.with(queued(r)));
    let place = end.log.placed(len);
    let ps = place.active_segment as int;
    let po = place.active_offset as int;
    assert(po + len <= b);
    assert((ps - 1) * b + po == append.start_lsn.0);
    if po + len == b {
        assert((ps - 1) * b + b == (ps + 1 - 1) * b + 0) by (nonlinear_arith);
        segment::law_lsn_of_position(ps + 1, 0, b);
    } else {
        segment::law_lsn_of_position(ps, po + len, b);
    }
}

/// Taking a batch off the queue and writing it keeps the queue and the log in step, and every
/// record of the batch is accepted.
pub proof fn law_batch_keeps_step(w: Written, q: QueueView, made: Seq<RecordView>, n: nat)
    requires
        in_step(w, q, made),
        n <= q.pending.len(),
    ensures
        w.accepts_all(q.pending.take(n as int)),
        in_step(w.with_all(q.pending.take(n as int)), q.without(n), made.skip(n as int)),
{
    let a = q.pending.take(n as int);
    let b = q.pending.skip(n as int);
    assert(a + b =~= q.pending);
    lemma_with_all_split(w, a, b);
    lemma_delivers_split(w, q.pending, made, n);
    lemma_delivered_is_accepted(w, a, made.take(n as int));
}

proof fn lemma_delivers_split(w: Written, pending: Seq<QueuedView>, made: Seq<RecordView>, n: nat)
    requires
        delivers(w, pending, made),
        n <= pending.len(),
    ensures
        delivers(w, pending.take(n as int), made.take(n as int)),
        delivers(w.with_all(pending.take(n as int)), pending.skip(n as int), made.skip(n as int)),
    decreases pending.len(),
{
    let a = pending.take(n as int);
    let b = pending.skip(n as int);
    if n == pending.len() {
        assert(a =~= pending);
        assert(made.take(n as int) =~= made);
    } else {
        let shorter = pending.drop_last();
        lemma_delivers_split(w, shorter, made.drop_last(), n);
        assert(shorter.take(n as int) =~= a);
        assert(made.drop_last().take(n as int) =~= made.take(n as int));
        assert(b.drop_last() =~= shorter.skip(n as int));
        assert(made.skip(n as int).drop_last() =~= made.drop_last().skip(n as int));
        assert(a + b.drop_last() =~= shorter);
        lemma_with_all_split(w, a, b.drop_last());
        assert(b.last() == pending.last());
        assert(made.skip(n as int).last() == made.last());
    }
}

/// Once everything that waits is written, the log holds it, in the order in which it was queued,
/// behind what it held before.
pub proof fn law_queue_is_logged(
    w: Written,
    pending: Seq<QueuedView>,
    made: Seq<RecordView>,
    first: int,
    parts: Seq<Seq<RecordView>>,
) -> (after: Seq<Seq<RecordView>>)
    requires
        laws::holds_log_from(w.files, w.log, first, parts),
        delivers(w, pending, made),
    ensures
        laws::holds_log_from(w.with_all(pending).files, w.with_all(pending).log, first, after),
        laws::flat(after) == laws::flat(parts) + made,
    decreases pending.len(),
{
    if pending.len() == 0 {
        assert(made =~= Seq::empty());
        assert(laws::flat(parts) + made =~= laws::flat(parts));
        parts
    } else {
        let r = made.last();
        let before = law_queue_is_logged(w, pending.drop_last(), made.drop_last(), first, parts);
        let mid = w.with_all(pending.drop_last());
        record::lemma_frame_len(r);
        lemma_next_is_accepted(mid, r);
        laws::law_append_adds_record(mid.files, mid.log, first, before, r.kind, r.tx_id, r.payload);
        assert(laws::flat(before).push(r) =~= laws::flat(parts) + made);
        laws::with_record(mid.log, before, r)
    }
}

/// No decision of the writer loses a record or changes their order: what it takes off the queue
/// and what stays there are, together, what was there.
pub proof fn law_decisions_keep_order(
    phase: WriterPhase,
    q: QueueView,
    config: WalConfig,
    written: Lsn,
    durable: Lsn,
)
    ensures
        ({
            let d = writer::decided(phase, Seq::empty(), q, config, written, durable);
            &&& d.batch + d.queue.pending == q.pending
            &&& d.queue.reserved == q.reserved
            &&& d.queue.prev == q.prev
        }),
{
    let d = writer::decided(phase, Seq::empty(), q, config, written, durable);
    coordinator::lemma_batch_count(q.pending, 0, config.wal_write_batch_bytes as int, None);
    if phase is Window || phase is Drain {
        let target = match phase {
            WriterPhase::Window(lsn) => lsn,
            WriterPhase::Drain(lsn) => lsn,
            _ => Lsn(0),
        };
        coordinator::lemma_batch_count(q.pending, 0, config.wal_write_batch_bytes as int, Some(target));
    }
    assert(d.batch + d.queue.pending =~= q.pending);
}

/// A flush that was asked for happens only once everything up to the position is written: the
/// log is then durable up to there.
pub proof fn law_flush_covers_request(q: QueueView, config: WalConfig, written: Lsn, target: Lsn)
    ensures
        ({
            let d = writer::drained(q, config, written, target);
            d.phase is Flush ==> {
                &&& written.0 >= target.0
                &&& q.durable_at(written, true).durable.0 >= target.0
            }
        }),
{
}

/// A file is there and would survive a crash as it is.
pub open spec fn safe(w: Written, path: Seq<char>) -> bool {
    w.synced.dom().contains(path) && w.synced[path] == w.files[path]
}

/// Nothing would survive a crash that is not part of the log.
pub open spec fn nothing_else_survives(w: Written) -> bool {
    forall|n: u64| #[trigger]
        manager::has_segment(w.synced, w.log.dir, n) ==> manager::has_segment(w.files, w.log.dir, n) && (n
            > w.log.active_segment ==> w.synced[manager::segment_path_spec(w.log.dir, n as nat)] == Seq::<u8>::empty())
}

/// All of the log from segment `first` on but the segment that is being written would survive a
/// crash.
pub open spec fn older_are_safe(w: Written, first: int) -> bool {
    &&& forall|n: u64|
        first <= n < w.log.active_segment ==> safe(w, #[trigger] manager::segment_path_spec(w.log.dir, n as nat))
    &&& w.files.dom().contains(w.log.path())
    &&& nothing_else_survives(w)
}

/// All of the log from segment `first` on would survive a crash.
pub open spec fn all_safe(w: Written, first: int) -> bool {
    &&& forall|n: u64|
        first <= n <= w.log.active_segment ==> safe(w, #[trigger] manager::segment_path_spec(w.log.dir, n as nat))
    &&& nothing_else_survives(w)
}

/// Of the segment that is being written the first `k` records would survive a crash, and all of the
/// segments before it.
pub open spec fn saved(w: Written, first: int, parts: Seq<Seq<RecordView>>, k: int) -> bool {
    &&& older_are_safe(w, first)
    &&& 0 <= k <= parts.last().len()
    &&& k > 0 ==> w.synced.dom().contains(w.log.path())
    &&& w.synced.dom().contains(w.log.path()) ==> w.synced[w.log.path()] == laws::framed(parts.last().take(k))
}

/// How many records those are.
pub open spec fn saved_count(parts: Seq<Seq<RecordView>>, k: int) -> int {
    laws::flat(parts.drop_last()).len() + k
}

pub proof fn lemma_other_path(dir: Seq<char>, a: u64, b: u64)
    requires
        a != b,
    ensures
        manager::segment_path_spec(dir, a as nat) != manager::segment_path_spec(dir, b as nat),
{
    if manager::segment_path_spec(dir, a as nat) == manager::segment_path_spec(dir, b as nat) {
        manager::lemma_paths_differ(dir, a, b);
    }
}

/// Writing keeps the older segments safe.
pub proof fn law_older_segments_stay_safe(w: Written, first: int, r: QueuedView)
    requires
        w.log.wf(),
        w.accepts(r),
        older_are_safe(w, first),
    ensures
        older_are_safe(w.with(r), first),
{
    let after = w.with(r);
    manager::lemma_room(w.log);
    assert forall|n: u64| first <= n < after.log.active_segment implies safe(
        after,
        #[trigger] manager::segment_path_spec(after.log.dir, n as nat),
    ) by {
        lemma_other_path(w.log.dir, n, after.log.active_segment);
        if n != w.log.active_segment {
            lemma_other_path(w.log.dir, n, w.log.active_segment);
        }
    }
    assert forall|n: u64| #[trigger] manager::has_segment(after.synced, after.log.dir, n) implies manager::has_segment(
        after.files,
        after.log.dir,
        n,
    ) && (n > after.log.active_segment ==> after.synced[manager::segment_path_spec(after.log.dir, n as nat)] == Seq::<
        u8,
    >::empty()) by {
        if n != w.log.active_segment {
            lemma_other_path(w.log.dir, n, w.log.active_segment);
            assert(manager::has_segment(w.synced, w.log.dir, n));
        }
    }
}

/// After a flush the whole log is safe.
pub proof fn law_flush_makes_safe(w: Written, first: int)
    requires
        older_are_safe(w, first),
    ensures
        all_safe(Written { synced: w.synced.insert(w.log.path(), w.files[w.log.path()]), ..w }, first),
        older_are_safe(Written { synced: w.synced.insert(w.log.path(), w.files[w.log.path()]), ..w }, first),
{
    let after = Written { synced: w.synced.insert(w.log.path(), w.files[w.log.path()]), ..w };
    assert forall|n: u64| first <= n <= after.log.active_segment implies safe(
        after,
        #[trigger] manager::segment_path_spec(after.log.dir, n as nat),
    ) by {
        if n != w.log.active_segment {
            lemma_other_path(w.log.dir, n, w.log.active_segment);
            assert(safe(w, manager::segment_path_spec(w.log.dir, n as nat)));
        }
    }
    assert forall|n: u64| #[trigger] manager::has_segment(after.synced, after.log.dir, n) implies manager::has_segment(
        after.files,
        after.log.dir,
        n,
    ) && (n > after.log.active_segment ==> after.synced[manager::segment_path_spec(after.log.dir, n as nat)] == Seq::<
        u8,
    >::empty()) by {
        if n != w.log.active_segment {
            lemma_other_path(w.log.dir, n, w.log.active_segment);
            assert(manager::has_segment(w.synced, w.log.dir, n));
        }
    }
}

/// Of a log that is safe, all records are saved.
pub proof fn law_safe_log_is_saved(w: Written, first: int, parts: Seq<Seq<RecordView>>)
    requires
        laws::holds_log_from(w.files, w.log, first, parts),
        all_safe(w, first),
    ensures
        saved(w, first, parts, parts.last().len() as int),
        saved_count(parts, parts.last().len() as int) == laws::flat(parts).len(),
{
    let m = parts.len() - 1;
    assert(laws::holds_part(w.files, w.log, first + m, parts[m]));
    assert(safe(w, manager::segment_path_spec(w.log.dir, w.log.active_segment as nat)));
    assert(parts.last().take(parts.last().len() as int) =~= parts.last());
}

/// What is saved stays saved: writing a record takes away nothing that would survive a crash.
pub proof fn law_saved_records_stay(w: Written, first: int, parts: Seq<Seq<RecordView>>, k: int, r: RecordView) -> (k2: int)
    requires
        laws::holds_log_from(w.files, w.log, first, parts),
        saved(w, first, parts, k),
        comes_next(w.log, r),
    ensures
        saved(w.with(queued(r)), first, laws::with_record(w.log, parts, r), k2),
        saved_count(laws::with_record(w.log, parts, r), k2) >= saved_count(parts, k),
        laws::flat(laws::with_record(w.log, parts, r)) == laws::flat(parts).push(r),
{
    let after = w.with(queued(r));
    let parts2 = laws::with_record(w.log, parts, r);
    let at = w.log.active_segment;
    record::lemma_frame_len(r);
    manager::lemma_room(w.log);
    lemma_next_is_accepted(w, r);
    law_older_segments_stay_safe(w, first, queued(r));
    laws::law_append_adds_record(w.files, w.log, first, parts, r.kind, r.tx_id, r.payload);
    if w.log.is_full(r.frame_len() as int) {
        assert(parts2.drop_last() =~= parts);
        assert(parts2.last() == seq![r]);
        assert(parts2.last().take(0) =~= Seq::empty());
        let next = (at + 1) as u64;
        lemma_other_path(w.log.dir, at, next);
        if after.synced.dom().contains(after.log.path()) {
            assert(manager::has_segment(w.synced, w.log.dir, next));
            assert(laws::framed(parts2.last().take(0)) =~= Seq::<u8>::empty());
        }
        0
    } else {
        assert(parts2.drop_last() =~= parts.drop_last());
        assert(parts2.last() == parts.last().push(r));
        assert(parts2.last().take(k) =~= parts.last().take(k));
        k
    }
}

/// The records that are saved are what a crash leaves of the log, in their order.
pub proof fn law_saved_records_are_left(w: Written, first: int, parts: Seq<Seq<RecordView>>, k: int) -> (r: (
    LogView,
    Seq<Seq<RecordView>>,
))
    requires
        laws::holds_log_from(w.files, w.log, first, parts),
        saved(w, first, parts, k),
        saved_count(parts, k) > 0,
    ensures
        r.0.dir == w.log.dir,
        r.0.segment_bytes == w.log.segment_bytes,
        laws::holds_log_from(w.synced, r.0, first, r.1),
        laws::flat(r.1) == laws::flat(parts).take(saved_count(parts, k)),
{
    let log = w.log;
    let m = parts.len() - 1;
    let older = parts.drop_last();
    let part = parts[m].take(k);
    assert(parts.last() == parts[m]);
    assert(laws::holds_part(w.files, log, first + m, parts[m]));
    assert forall|i: int, v: LogView| 0 <= i < m && v.dir == log.dir && v.segment_bytes == log.segment_bytes implies
        #[trigger] laws::holds_part(w.synced, v, first + i, parts[i]) by {
        assert(laws::holds_part(w.files, log, first + i, parts[i]));
        let n = (first + i) as u64;
        assert(safe(w, manager::segment_path_spec(log.dir, n as nat)));
    }
    assert(laws::flat(parts) == laws::flat(older) + parts[m]);
    if w.synced.dom().contains(log.path()) {
        laws::lemma_part_taken(parts[m], log.active_segment as int, log.segment_bytes, k);
        let v = LogView { active_offset: laws::framed(part).len() as u64, ..log };
        let left = older.push(part);
        assert(laws::nothing_else(w.synced, v, first)) by {
            assert forall|n: u64| #[trigger] manager::has_segment(w.synced, v.dir, n) implies first <= n && (n
                > v.active_segment ==> w.synced[manager::segment_path_spec(v.dir, n as nat)] == Seq::<u8>::empty()) by {
                assert(manager::has_segment(w.files, log.dir, n));
            }
        }
        assert forall|i: int| 0 <= i < left.len() implies laws::holds_part(w.synced, v, first + i, #[trigger] left[i]) by {
            if i < m {
                assert(left[i] == parts[i]);
                assert(laws::holds_part(w.synced, v, first + i, parts[i]));
            }
        }
        assert(left.last() == part);
        assert(left.drop_last() =~= older);
        assert(laws::flat(left) =~= laws::flat(parts).take(saved_count(parts, k)));
        (v, left)
    } else {
        assert(laws::flat(older).len() > 0);
        assert(older.len() > 0);
        let v = LogView {
            active_segment: (log.active_segment - 1) as u64,
            active_offset: laws::framed(parts[m - 1]).len() as u64,
            ..log
        };
        assert(laws::holds_part(w.synced, v, first + (m - 1), parts[m - 1]));
        assert(laws::nothing_else(w.synced, v, first)) by {
            assert forall|n: u64| #[trigger] manager::has_segment(w.synced, v.dir, n) implies first <= n && (n
                > v.active_segment ==> w.synced[manager::segment_path_spec(v.dir, n as nat)] == Seq::<u8>::empty()) by {
                assert(manager::has_segment(w.files, log.dir, n));
            }
        }
        assert forall|i: int| 0 <= i < older.len() implies laws::holds_part(w.synced, v, first + i, #[trigger] older[i]) by {
            assert(older[i] == parts[i]);
            assert(laws::holds_part(w.synced, v, first + i, parts[i]));
        }
        assert(older.last() == parts[m - 1]);
        assert(laws::flat(older) =~= laws::flat(parts).take(saved_count(parts, k)));
        (v, older)
    }
}

} // verus!
