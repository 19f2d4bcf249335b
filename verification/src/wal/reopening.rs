//! What is left of a log after it was cut off, pruned or opened again.
use crate::error::Error;
use crate::format::Lsn;
use crate::io;
use crate::wal::coordinator::QueueView;
use crate::wal::delivery;
use crate::wal::laws;
use crate::wal::manager;
use crate::wal::manager::LogView;
use crate::wal::payload;
use crate::wal::record;
use crate::wal::record::{RecordView, WAL_HEADER_LEN};
use crate::wal::scan;
use crate::wal::scan::{ScanView, SegmentView};
use crate::wal::segment;
use crate::wal::writer::Written;
use vstd::prelude::*;

verus! {

/// The files hold the records of a log, and behind them, at the end of the last segment, a tail that
/// may be torn.
pub open spec fn holds_torn(
    files: Map<Seq<char>, Seq<u8>>,
    v: LogView,
    first: int,
    parts: Seq<Seq<RecordView>>,
    tail: Seq<u8>,
) -> bool {
    &&& files.dom().contains(v.path())
    &&& files[v.path()] == laws::framed(parts.last()) + tail
    &&& laws::holds_log_from(files.insert(v.path(), laws::framed(parts.last())), v, first, parts)
    &&& tail.len() > 0 ==> {
        &&& laws::torn_end(parts.last(), tail, v.active_segment, v.segment_bytes)
        &&& forall|n: u64| #[trigger] manager::has_segment(files, v.dir, n) ==> n <= v.active_segment
    }
}

/// Without a tail, the files hold the log.
proof fn lemma_whole(files: Map<Seq<char>, Seq<u8>>, v: LogView, first: int, parts: Seq<Seq<RecordView>>)
    requires
        holds_torn(files, v, first, parts, Seq::empty()),
    ensures
        laws::holds_log_from(files, v, first, parts),
{
    assert(laws::framed(parts.last()) + Seq::<u8>::empty() =~= laws::framed(parts.last()));
    assert(files.insert(v.path(), laws::framed(parts.last())) =~= files);
}

/// Scanning a log with a torn tail finds all of its records and leaves the tail out.
pub proof fn law_torn_log_is_read_back(
    files: Map<Seq<char>, Seq<u8>>,
    v: LogView,
    first: int,
    parts: Seq<Seq<RecordView>>,
    tail: Seq<u8>,
    numbers: Seq<u64>,
)
    requires
        holds_torn(files, v, first, parts, tail),
        manager::lists_segments(files, v.dir, numbers),
    ensures
        scan::scan_all(manager::segment_views(files, v.dir, numbers), v.segment_bytes) == Ok::<ScanView, Error>(
            ScanView { records: laws::flat(parts), torn: tail.len() > 0 },
        ),
{
    if tail.len() == 0 {
        assert(tail =~= Seq::empty());
        lemma_whole(files, v, first, parts);
        laws::law_scan_reads_back(files, v, first, parts, numbers);
    } else {
        let whole = files.insert(v.path(), laws::framed(parts.last()));
        let m = parts.len() - 1;
        assert forall|n: u64| #[trigger] numbers.contains(n) <==> manager::has_segment(whole, v.dir, n) by {
            assert(numbers.contains(n) <==> manager::has_segment(files, v.dir, n));
        }
        laws::lemma_listed(whole, v, first, parts, numbers);
        let all = laws::listed_parts(parts, numbers.len());
        if numbers.len() > parts.len() {
            assert(numbers.contains(numbers[m + 1]));
            assert(manager::has_segment(files, v.dir, numbers[m + 1]));
        }
        assert(all =~= parts);
        let views = manager::segment_views(files, v.dir, numbers);
        let whole_views = manager::segment_views(whole, v.dir, numbers);
        assert forall|i: int| 0 <= i < numbers.len() implies views[i] == laws::numbered(numbers, all, tail)[i] by {
            assert(whole_views[i] == laws::numbered(numbers, all, Seq::empty())[i]);
            if i < m {
                delivery::lemma_other_path(v.dir, numbers[i], v.active_segment);
            } else {
                assert(numbers[i] == v.active_segment);
            }
        }
        assert(views =~= laws::numbered(numbers, all, tail));
        laws::lemma_scan_numbered(numbers, all, tail, v.segment_bytes);
        assert(laws::flat(parts) + Seq::<RecordView>::empty() =~= laws::flat(parts));
    }
}

/// A log of which the last record was cut off is read back without that record.
pub proof fn law_cut_tail_is_left_out(
    files: Map<Seq<char>, Seq<u8>>,
    v: LogView,
    first: int,
    parts: Seq<Seq<RecordView>>,
    cut: int,
    numbers: Seq<u64>,
)
    requires
        laws::holds_log_from(files, v, first, parts),
        parts.last().len() > 0,
        0 < cut < parts.last().last().frame_len(),
        forall|n: u64| #[trigger] manager::has_segment(files, v.dir, n) ==> n <= v.active_segment,
        manager::lists_segments(
            files.insert(v.path(), cut_off(parts.last(), cut)),
            v.dir,
            numbers,
        ),
    ensures
        scan::scan_all(
            manager::segment_views(files.insert(v.path(), cut_off(parts.last(), cut)), v.dir, numbers),
            v.segment_bytes,
        ) == Ok::<ScanView, Error>(ScanView { records: laws::flat(parts).drop_last(), torn: true }),
{
    let m = parts.len() - 1;
    let part = parts[m];
    let shorter = part.drop_last();
    let r = part.last();
    let tail = r.frame().subrange(0, cut);
    let after = files.insert(v.path(), cut_off(part, cut));
    let parts2 = parts.update(m, shorter);
    let v2 = LogView { active_offset: laws::framed(shorter).len() as u64, ..v };
    assert(laws::holds_part(files, v, first + m, part));
    laws::lemma_part_taken(part, first + m, v.segment_bytes, part.len() - 1);
    assert(part.take(part.len() - 1) =~= shorter);
    assert(laws::stands_at(
        part[part.len() - 1],
        first + m,
        laws::framed(part.subrange(0, part.len() - 1)).len() as int,
        v.segment_bytes,
    ));
    record::lemma_frame_len(r);
    laws::law_cut_record_is_torn(shorter, v.active_segment, v.segment_bytes, r, cut);
    assert(parts2.last() == shorter);
    let whole = after.insert(v2.path(), laws::framed(shorter));
    assert(whole =~= files.insert(v.path(), laws::framed(shorter)));
    assert(laws::nothing_else(whole, v2, first)) by {
        assert forall|n: u64| #[trigger] manager::has_segment(whole, v2.dir, n) implies first <= n && n
            <= v2.active_segment by {
            if manager::segment_path_spec(v.dir, n as nat) == v.path() {
                manager::lemma_paths_differ(v.dir, n, v.active_segment);
            } else {
                assert(manager::has_segment(files, v.dir, n));
            }
        }
    }
    assert forall|i: int| 0 <= i < parts2.len() implies laws::holds_part(whole, v2, first + i, #[trigger] parts2[i]) by {
        if i < m {
            assert(parts2[i] == parts[i]);
            assert(laws::holds_part(files, v, first + i, parts[i]));
            delivery::lemma_other_path(v.dir, (first + i) as u64, v.active_segment);
        }
    }
    assert forall|n: u64| #[trigger] manager::has_segment(after, v2.dir, n) implies n <= v2.active_segment by {
        if manager::segment_path_spec(v.dir, n as nat) == v.path() {
            manager::lemma_paths_differ(v.dir, n, v.active_segment);
        } else {
            assert(manager::has_segment(files, v.dir, n));
        }
    }
    assert(tail.len() == cut);
    law_torn_log_is_read_back(after, v2, first, parts2, tail, numbers);
    assert(parts2.drop_last() =~= parts.drop_last());
    assert(laws::flat(parts2) =~= laws::flat(parts).drop_last());
}

/// The bytes of records of which the last one was cut off.
pub open spec fn cut_off(part: Seq<RecordView>, cut: int) -> Seq<u8> {
    laws::framed(part.drop_last()) + part.last().frame().subrange(0, cut)
}

/// Scanning stops at the first segment that is refused.
proof fn lemma_scan_refused(segments: Seq<SegmentView>, segment_bytes: u64, i: int)
    requires
        0 <= i < segments.len() - 1,
        forall|j: int|
            0 <= j < i ==> scan::scan_segment(
                (#[trigger] segments[j]).content,
                segments[j].number,
                false,
                segment_bytes,
                0,
            ) is Ok,
        scan::scan_segment(segments[i].content, segments[i].number, false, segment_bytes, 0) is Err,
    ensures
        scan::scan_all(segments, segment_bytes) == Err::<ScanView, Error>(
            scan::scan_segment(segments[i].content, segments[i].number, false, segment_bytes, 0)->Err_0,
        ),
    decreases i,
{
    if i > 0 {
        let rest = segments.drop_first();
        assert forall|j: int| 0 <= j < i - 1 implies scan::scan_segment(
            (#[trigger] rest[j]).content,
            rest[j].number,
            false,
            segment_bytes,
            0,
        ) is Ok by {
            assert(rest[j] == segments[j + 1]);
        }
        assert(rest[i - 1] == segments[i]);
        lemma_scan_refused(rest, segment_bytes, i - 1);
        assert(scan::scan_segment(segments[0].content, segments[0].number, false, segment_bytes, 0) is Ok);
    }
}

/// A record that was cut off in a segment before the last one makes the scan fail: the records before
/// it are never taken for the whole log.
pub proof fn law_cut_segment_is_refused(
    files: Map<Seq<char>, Seq<u8>>,
    v: LogView,
    first: int,
    parts: Seq<Seq<RecordView>>,
    i: int,
    cut: int,
    numbers: Seq<u64>,
)
    requires
        laws::holds_log_from(files, v, first, parts),
        0 <= i < parts.len(),
        parts[i].len() > 0,
        0 < cut < parts[i].last().frame_len(),
        manager::lists_segments(
            files.insert(manager::segment_path_spec(v.dir, (first + i) as nat), cut_off(parts[i], cut)),
            v.dir,
            numbers,
        ),
        numbers.len() > 0,
        numbers.last() > first + i,
    ensures
        ({
            let after = files.insert(
                manager::segment_path_spec(v.dir, (first + i) as nat),
                cut_off(parts[i], cut),
            );
            let scanned = scan::scan_all(manager::segment_views(after, v.dir, numbers), v.segment_bytes);
            scanned is Err && scanned->Err_0 is CorruptWal
        }),
{
    let at = (first + i) as u64;
    let path = manager::segment_path_spec(v.dir, at as nat);
    let after = files.insert(path, cut_off(parts[i], cut));
    let part = parts[i].drop_last();
    let r = parts[i].last();
    let tail = r.frame().subrange(0, cut);
    let size = v.segment_bytes;
    assert(laws::holds_part(files, v, first + i, parts[i]));
    assert forall|n: u64| #[trigger] numbers.contains(n) <==> manager::has_segment(files, v.dir, n) by {
        assert(numbers.contains(n) <==> manager::has_segment(after, v.dir, n));
        if manager::segment_path_spec(v.dir, n as nat) == path {
            manager::lemma_paths_differ(v.dir, n, at);
        }
    }
    laws::lemma_listed(files, v, first, parts, numbers);
    assert(numbers[i] == first + i);
    let views = manager::segment_views(after, v.dir, numbers);
    let old_views = manager::segment_views(files, v.dir, numbers);
    let all = laws::listed_parts(parts, numbers.len());
    assert(i < numbers.len() - 1);
    assert forall|j: int| 0 <= j < i implies scan::scan_segment(
        (#[trigger] views[j]).content,
        views[j].number,
        false,
        size,
        0,
    ) is Ok by {
        assert(numbers[j] == first + j);
        delivery::lemma_other_path(v.dir, numbers[j], at);
        assert(old_views[j] == laws::numbered(numbers, all, Seq::empty())[j]);
        assert(laws::in_place(all[j], numbers[j] as int, size));
        laws::lemma_scan_segment(all[j], numbers[j], false, size);
    }
    laws::lemma_part_taken(parts[i], first + i, size, parts[i].len() - 1);
    assert(parts[i].take(parts[i].len() - 1) =~= part);
    assert(laws::stands_at(
        parts[i][parts[i].len() - 1],
        first + i,
        laws::framed(parts[i].subrange(0, parts[i].len() - 1)).len() as int,
        size,
    ));
    record::law_record_round_trips(r);
    laws::lemma_scan_part(part, tail, at, false, size, 0);
    assert(part.subrange(0, 0) =~= Seq::empty());
    let content = laws::framed(part) + tail;
    let end = laws::framed(part).len() as int;
    assert(scan::scan_segment(content, at, false, size, end) is Err && scan::scan_segment(
        content,
        at,
        false,
        size,
        end,
    )->Err_0 is CorruptWal) by {
        reveal(scan::scan_segment);
        if cut >= WAL_HEADER_LEN {
            assert(content.subrange(end + 12, end + 16) =~= r.frame().subrange(12, 16));
            assert(payload::field(content, end + 12, 4) == r.payload.len());
        }
    }
    assert(views[i].content == content);
    lemma_scan_refused(views, size, i);
}

/// The first segment that pruning leaves.
pub open spec fn first_kept(v: LogView, first: int, segment: int) -> int {
    let bound = if segment < v.active_segment {
        segment
    } else {
        v.active_segment as int
    };
    if first < bound {
        bound
    } else {
        first
    }
}

proof fn lemma_count_below(numbers: Seq<u64>, first: int, n: int, bound: int, j: int)
    requires
        0 <= j <= numbers.len(),
        0 <= n <= numbers.len(),
        forall|i: int| 0 <= i < n ==> #[trigger] numbers[i] == first + i,
        forall|i: int| n <= i < numbers.len() ==> #[trigger] numbers[i] >= bound,
        bound <= first + n,
    ensures
        manager::count_below(numbers.take(j), bound) == if bound <= first {
            0
        } else if j < bound - first {
            j
        } else {
            bound - first
        },
    decreases j,
{
    if j > 0 {
        lemma_count_below(numbers, first, n, bound, j - 1);
        assert(numbers.take(j).drop_last() =~= numbers.take(j - 1));
        assert(numbers.take(j).last() == numbers[j - 1]);
    }
}

/// All records of segments before `keep` lie before every position of that segment.
proof fn lemma_records_before(
    files: Map<Seq<char>, Seq<u8>>,
    v: LogView,
    first: int,
    parts: Seq<Seq<RecordView>>,
    checkpoint: Lsn,
    j: int,
)
    requires
        v.wf(),
        1 <= first,
        forall|i: int| 0 <= i < parts.len() ==> laws::holds_part(files, v, first + i, #[trigger] parts[i]),
        first + parts.len() <= segment::segment_of(checkpoint.0 as int, v.segment_bytes as int),
        0 <= j < laws::flat(parts).len(),
    ensures
        laws::flat(parts)[j].lsn.0 < checkpoint.0,
    decreases parts.len(),
{
    let older = parts.drop_last();
    let m = parts.len() - 1;
    if j < laws::flat(older).len() {
        assert forall|i: int| 0 <= i < older.len() implies laws::holds_part(files, v, first + i, #[trigger] older[i]) by {
            assert(older[i] == parts[i]);
        }
        lemma_records_before(files, v, first, older, checkpoint, j);
    } else {
        let part = parts[m];
        let at = j - laws::flat(older).len();
        let size = v.segment_bytes as int;
        assert(laws::holds_part(files, v, first + m, part));
        let offset = laws::framed(part.subrange(0, at)).len() as int;
        assert(laws::stands_at(part[at], first + m, offset, v.segment_bytes));
        laws::lemma_framed_prefix(part, at);
        record::lemma_frame_len(part[at]);
        let n = first + m;
        let keep = segment::segment_of(checkpoint.0 as int, size);
        segment::law_position_of_lsn(checkpoint.0 as int, size);
        assert((n - 1) * size + size <= (keep - 1) * size) by (nonlinear_arith)
            requires
                n + 1 <= keep,
                size > 0,
        ;
    }
}

/// After pruning below a checkpoint a scan finds, in their order, all records from the first kept
/// segment on, and every record from the checkpoint on is among them. The segments that go are those
/// below the checkpoint's and below the active one.
pub proof fn law_pruned_log_is_read_back(
    before: Map<Seq<char>, Seq<u8>>,
    after: Map<Seq<char>, Seq<u8>>,
    v: LogView,
    first: int,
    parts: Seq<Seq<RecordView>>,
    numbers: Seq<u64>,
    checkpoint: Lsn,
    removed: int,
    left: Seq<u64>,
)
    requires
        laws::holds_log_from(before, v, first, parts),
        manager::lists_segments(before, v.dir, numbers),
        manager::pruned_result(
            before,
            after,
            v,
            numbers,
            segment::segment_of(checkpoint.0 as int, v.segment_bytes as int),
            removed,
        ),
        manager::lists_segments(after, v.dir, left),
    ensures
        ({
            let keep = first_kept(v, first, segment::segment_of(checkpoint.0 as int, v.segment_bytes as int));
            let gone = parts.take(keep - first);
            let kept = parts.skip(keep - first);
            &&& first <= keep <= v.active_segment
            &&& removed == keep - first
            &&& checkpoint.0 < v.segment_bytes ==> removed == 0
            &&& laws::holds_log_from(after, v, keep, kept)
            &&& scan::scan_all(manager::segment_views(after, v.dir, left), v.segment_bytes) == Ok::<ScanView, Error>(
                ScanView { records: laws::flat(kept), torn: false },
            )
            &&& laws::flat(parts) == laws::flat(gone) + laws::flat(kept)
            &&& forall|j: int| 0 <= j < laws::flat(gone).len() ==> (#[trigger] laws::flat(gone)[j]).lsn.0 < checkpoint.0
            &&& forall|j: int|
                0 <= j < laws::flat(parts).len() && (#[trigger] laws::flat(parts)[j]).lsn.0 >= checkpoint.0
                    ==> laws::flat(kept).contains(laws::flat(parts)[j])
        }),
{
    let size = v.segment_bytes as int;
    let segment = segment::segment_of(checkpoint.0 as int, size);
    let keep = first_kept(v, first, segment);
    let d = keep - first;
    let gone = parts.take(d);
    let kept = parts.skip(d);
    let bound = if segment < v.active_segment {
        segment
    } else {
        v.active_segment as int
    };
    segment::law_position_of_lsn(checkpoint.0 as int, size);
    laws::lemma_listed(before, v, first, parts, numbers);
    lemma_count_below(numbers, first, parts.len() as int, bound, numbers.len() as int);
    assert(numbers.take(numbers.len() as int) =~= numbers);
    if checkpoint.0 < v.segment_bytes {
        assert(checkpoint.0 as int / size == 0) by (nonlinear_arith)
            requires
                0 <= checkpoint.0 < size,
        ;
    }
    assert(laws::nothing_else(after, v, keep)) by {
        assert forall|n: u64| #[trigger] manager::has_segment(after, v.dir, n) implies keep <= n && (n > v.active_segment
            ==> after[manager::segment_path_spec(v.dir, n as nat)] == Seq::<u8>::empty()) by {
            manager::law_prune_keeps_what_is_needed(before, after, v, numbers, checkpoint, removed, n);
            assert(manager::has_segment(before, v.dir, n));
        }
    }
    assert forall|i: int| 0 <= i < kept.len() implies laws::holds_part(after, v, keep + i, #[trigger] kept[i]) by {
        assert(kept[i] == parts[d + i]);
        assert(laws::holds_part(before, v, first + (d + i), parts[d + i]));
        let n = (keep + i) as u64;
        assert(manager::has_segment(before, v.dir, n));
        manager::law_prune_keeps_what_is_needed(before, after, v, numbers, checkpoint, removed, n);
    }
    assert(kept.last() == parts.last());
    laws::law_scan_reads_back(after, v, keep, kept, left);
    assert(gone + kept =~= parts);
    laws::lemma_flat_add(gone, kept);
    assert forall|j: int| 0 <= j < laws::flat(gone).len() implies (#[trigger] laws::flat(gone)[j]).lsn.0 < checkpoint.0 by {
        assert forall|i: int| 0 <= i < gone.len() implies laws::holds_part(before, v, first + i, #[trigger] gone[i]) by {
            assert(gone[i] == parts[i]);
        }
        if d > 0 {
            lemma_records_before(before, v, first, gone, checkpoint, j);
        } else {
            assert(gone =~= Seq::empty());
        }
    }
    assert forall|j: int| 0 <= j < laws::flat(parts).len() && (#[trigger] laws::flat(parts)[j]).lsn.0
        >= checkpoint.0 implies laws::flat(kept).contains(laws::flat(parts)[j]) by {
        let m = laws::flat(gone).len() as int;
        if j < m {
            assert(laws::flat(gone)[j] == laws::flat(parts)[j]);
        } else {
            assert(laws::flat(kept)[j - m] == laws::flat(parts)[j]);
        }
    }
}

/// Pruning takes away nothing of what is kept that would survive a crash.
pub proof fn law_pruned_log_stays_saved(
    w: Written,
    after: Written,
    first: int,
    parts: Seq<Seq<RecordView>>,
    k: int,
    numbers: Seq<u64>,
    segment: int,
    removed: int,
)
    requires
        laws::holds_log_from(w.files, w.log, first, parts),
        delivery::saved(w, first, parts, k),
        manager::lists_segments(w.files, w.log.dir, numbers),
        after.log == w.log,
        manager::pruned_result(w.files, after.files, w.log, numbers, segment, removed),
        manager::pruned_result(w.synced, after.synced, w.log, numbers, segment, removed),
    ensures
        delivery::saved(
            after,
            first_kept(w.log, first, segment),
            parts.skip(first_kept(w.log, first, segment) - first),
            k,
        ),
{
    let v = w.log;
    let keep = first_kept(v, first, segment);
    let bound = if segment < v.active_segment {
        segment
    } else {
        v.active_segment as int
    };
    let kept = parts.skip(keep - first);
    assert(kept.last() == parts.last());
    assert forall|n: u64| n >= bound implies {
        let path = #[trigger] manager::segment_path_spec(v.dir, n as nat);
        &&& after.files.dom().contains(path) == w.files.dom().contains(path)
        &&& after.files[path] == w.files[path]
        &&& after.synced.dom().contains(path) == w.synced.dom().contains(path)
        &&& after.synced[path] == w.synced[path]
    } by {
        let path = manager::segment_path_spec(v.dir, n as nat);
        manager::lemma_pruned(w.files, v.dir, numbers, bound, path);
        manager::lemma_pruned(w.synced, v.dir, numbers, bound, path);
        if exists|i: int|
            0 <= i < numbers.len() && #[trigger] numbers[i] < bound && manager::segment_path_spec(v.dir, numbers[i] as nat)
                == path {
            let i = choose|i: int|
                0 <= i < numbers.len() && #[trigger] numbers[i] < bound && manager::segment_path_spec(
                    v.dir,
                    numbers[i] as nat,
                ) == path;
            manager::lemma_paths_differ(v.dir, numbers[i], n);
        }
    }
    assert(delivery::nothing_else_survives(after)) by {
        assert forall|n: u64| #[trigger] manager::has_segment(after.synced, v.dir, n) implies manager::has_segment(
            after.files,
            v.dir,
            n,
        ) && (n > v.active_segment ==> after.synced[manager::segment_path_spec(v.dir, n as nat)] == Seq::<u8>::empty()) by {
            let path = manager::segment_path_spec(v.dir, n as nat);
            if n < bound {
                manager::lemma_pruned(w.synced, v.dir, numbers, bound, path);
                if !(exists|i: int|
                    0 <= i < numbers.len() && #[trigger] numbers[i] < bound && manager::segment_path_spec(
                        v.dir,
                        numbers[i] as nat,
                    ) == path) {
                    assert(manager::has_segment(w.synced, v.dir, n));
                    assert(manager::has_segment(w.files, v.dir, n));
                    assert(numbers.contains(n));
                    let i = choose|i: int| 0 <= i < numbers.len() && numbers[i] == n;
                    assert(numbers[i] < bound);
                }
            } else {
                assert(manager::has_segment(w.synced, v.dir, n));
            }
        }
    }
    assert forall|n: u64| keep <= n < v.active_segment implies delivery::safe(
        after,
        #[trigger] manager::segment_path_spec(v.dir, n as nat),
    ) by {
        assert(delivery::safe(w, manager::segment_path_spec(v.dir, n as nat)));
    }
    assert(v.path() == manager::segment_path_spec(v.dir, v.active_segment as nat));
}

/// The segments of a log without empty ones at the end.
pub open spec fn filled(parts: Seq<Seq<RecordView>>) -> Seq<Seq<RecordView>>
    decreases parts.len(),
{
    if parts.len() > 1 && parts.last().len() == 0 {
        filled(parts.drop_last())
    } else {
        parts
    }
}

proof fn lemma_filled(parts: Seq<Seq<RecordView>>)
    requires
        parts.len() > 0,
    ensures
        0 < filled(parts).len() <= parts.len(),
        filled(parts) == parts.take(filled(parts).len() as int),
        filled(parts).len() == 1 || filled(parts).last().len() > 0,
        laws::flat(filled(parts)) == laws::flat(parts),
        forall|i: int| filled(parts).len() <= i < parts.len() ==> (#[trigger] parts[i]).len() == 0,
    decreases parts.len(),
{
    let t = filled(parts);
    if parts.len() > 1 && parts.last().len() == 0 {
        let older = parts.drop_last();
        lemma_filled(older);
        assert(older.take(t.len() as int) =~= parts.take(t.len() as int));
        assert(laws::flat(older) + parts.last() =~= laws::flat(older));
        assert forall|i: int| t.len() <= i < parts.len() implies (#[trigger] parts[i]).len() == 0 by {
            if i < older.len() {
                assert(older[i] == parts[i]);
            }
        }
    } else {
        assert(parts.take(parts.len() as int) =~= parts);
    }
}

/// Where the records of a log end.
proof fn lemma_end(part: Seq<RecordView>, number: int, segment_bytes: u64)
    requires
        laws::in_place(part, number, segment_bytes),
        part.len() > 0,
    ensures
        part.last().lsn.0 + part.last().frame_len() == segment::position(
            number,
            laws::framed(part).len() as int,
            segment_bytes as int,
        ),
        laws::framed(part).len() > 0,
{
    let j = part.len() - 1;
    assert(laws::stands_at(part[j], number, laws::framed(part.subrange(0, j)).len() as int, segment_bytes));
    laws::lemma_framed_prefix(part, j);
    assert(part.subrange(0, j + 1) =~= part);
    record::lemma_frame_len(part[j]);
}

/// Where a log is opened again: behind the last record, or at the start of the next segment if that
/// record fills its segment.
proof fn lemma_opened_at(
    files: Map<Seq<char>, Seq<u8>>,
    v: LogView,
    first: int,
    parts: Seq<Seq<RecordView>>,
    opened: LogView,
)
    requires
        laws::holds_log_from(files, v, first, parts),
        laws::flat(parts).len() > 0 || first == 1,
        manager::opened(v.dir, v.segment_bytes, laws::flat(parts), opened),
    ensures
        ({
            let q = filled(parts).len() - 1;
            let end = laws::framed(parts[q]).len();
            &&& opened.at() == opened.written.0
            &&& end <= v.segment_bytes
            &&& if end < v.segment_bytes {
                opened.active_segment == first + q && opened.active_offset == end
            } else {
                opened.active_segment == first + q + 1 && opened.active_offset == 0
            }
        }),
{
    let size = v.segment_bytes as int;
    let t = filled(parts);
    lemma_filled(parts);
    let q = t.len() - 1;
    let part = t[q];
    let records = laws::flat(parts);
    assert(part == parts[q]);
    assert(laws::holds_part(files, v, first + q, parts[q]));
    assert(laws::flat(t) == laws::flat(t.drop_last()) + part);
    let end = laws::framed(part).len() as int;
    segment::law_position_of_lsn(opened.written.0 as int, size);
    if records.len() > 0 {
        if part.len() == 0 {
            assert(t.drop_last() =~= Seq::empty());
            assert(records =~= Seq::empty());
        }
        assert(records.last() == part.last());
        lemma_end(part, first + q, v.segment_bytes);
    } else {
        assert(part.len() == 0);
        assert(t.len() == 1);
        assert(laws::framed(part) =~= Seq::<u8>::empty());
        assert(size * 0 == 0);
    }
    assert(opened.written.0 == segment::position(first + q, end, size));
    if end < size {
        segment::law_lsn_of_position(first + q, end, size);
    } else {
        assert((first + q - 1) * size + size == (first + q + 1 - 1) * size) by (nonlinear_arith);
        segment::law_lsn_of_position(first + q + 1, 0, size);
    }
}

/// Whether a log can be opened again and go on behind its records: it holds a record or starts with
/// the first segment, and a torn tail follows a record in the same segment or is all that there is.
pub open spec fn can_go_on(v: LogView, first: int, parts: Seq<Seq<RecordView>>, tail: Seq<u8>) -> bool {
    &&& laws::flat(parts).len() > 0 || first == 1
    &&& tail.len() > 0 ==> v.active_offset < v.segment_bytes && (parts.last().len() > 0 || parts.len() == 1)
}

/// A log that is opened holds the records that its files held, and a torn tail is cut off. It goes on
/// behind the last record, and a scan finds the same records again. Left out are logs without a
/// record whose first segment is gone, and a torn tail in a segment of which no record is left.
pub proof fn law_opened_log_holds(
    files: Map<Seq<char>, Seq<u8>>,
    v: LogView,
    first: int,
    parts: Seq<Seq<RecordView>>,
    tail: Seq<u8>,
    numbers: Seq<u64>,
    opened: LogView,
) -> (after: Seq<Seq<RecordView>>)
    requires
        holds_torn(files, v, first, parts, tail),
        can_go_on(v, first, parts, tail),
        manager::lists_segments(files, v.dir, numbers),
        manager::opened_from(files, numbers, v.dir, v.segment_bytes, opened),
    ensures
        laws::holds_log_from(manager::files_opened(files, opened), opened, first, after),
        laws::flat(after) == laws::flat(parts),
        opened.written.0 == scan::end_lsn(laws::flat(parts)),
        opened.at() == opened.written.0,
        opened.durable == Lsn(0),
        opened.prev == (if laws::flat(parts).len() == 0 {
            Lsn(0)
        } else {
            laws::flat(parts).last().lsn
        }),
        delivery::stands(opened, opened.written),
        forall|again: Seq<u64>| #[trigger]
            manager::lists_segments(manager::files_opened(files, opened), v.dir, again) ==> scan::scan_all(
                manager::segment_views(manager::files_opened(files, opened), v.dir, again),
                v.segment_bytes,
            ) == Ok::<ScanView, Error>(ScanView { records: laws::flat(parts), torn: false }),
{
    let size = v.segment_bytes as int;
    let t = filled(parts);
    let m = parts.len() - 1;
    let whole = files.insert(v.path(), laws::framed(parts.last()));
    let records = laws::flat(parts);
    law_torn_log_is_read_back(files, v, first, parts, tail, numbers);
    assert(manager::opened(v.dir, v.segment_bytes, records, opened));
    lemma_filled(parts);
    lemma_opened_at(whole, v, first, parts, opened);
    let q = t.len() - 1;
    let part = t[q];
    assert(part == parts[q]);
    assert(laws::holds_part(whole, v, first + q, parts[q]));
    let end = laws::framed(part).len() as int;
    let after = if end < size {
        t
    } else {
        t.push(Seq::empty())
    };
    let next = manager::files_opened(files, opened);
    let at = opened.active_segment;
    if end == size {
        assert(tail.len() == 0);
    }
    assert forall|n: u64| #[trigger] manager::has_segment(files, v.dir, n) implies first <= n && (n > first + q && !(
    tail.len() > 0 && n == v.active_segment) ==> files[manager::segment_path_spec(v.dir, n as nat)] == Seq::<u8>::empty()) by {
        assert(manager::has_segment(whole, v.dir, n));
        if n != v.active_segment {
            delivery::lemma_other_path(v.dir, n, v.active_segment);
        }
        if first + q < n <= v.active_segment {
            let j = n - first;
            assert(laws::holds_part(whole, v, first + j, parts[j]));
            assert(laws::framed(parts[j]) =~= Seq::<u8>::empty());
            if n == v.active_segment {
                assert(laws::framed(parts.last()) + tail =~= tail);
                assert(tail.len() == 0 ==> tail =~= Seq::empty());
            }
        }
    }
    assert(tail.len() > 0 ==> q == m);
    let there = manager::with_file(files, opened.path());
    assert(io::resized(there[opened.path()], opened.active_offset as int) =~= laws::framed(after.last())) by {
        if end < size {
            assert(manager::has_segment(whole, v.dir, at));
            if q == m {
                assert(files[opened.path()] == laws::framed(part) + tail);
            } else {
                delivery::lemma_other_path(v.dir, at, v.active_segment);
                assert(files[opened.path()] == laws::framed(part));
            }
        } else {
            assert(laws::framed(after.last()) =~= Seq::<u8>::empty());
        }
    }
    assert(laws::nothing_else(next, opened, first)) by {
        assert forall|n: u64| #[trigger] manager::has_segment(next, opened.dir, n) implies first <= n && (n
            > opened.active_segment ==> next[manager::segment_path_spec(opened.dir, n as nat)] == Seq::<u8>::empty()) by {
            if n != at {
                delivery::lemma_other_path(v.dir, n, at);
                assert(manager::has_segment(files, v.dir, n));
            }
        }
    }
    assert forall|i: int| 0 <= i < after.len() implies laws::holds_part(next, opened, first + i, #[trigger] after[i]) by {
        if first + i != at {
            assert(after[i] == parts[i]);
            assert(laws::holds_part(whole, v, first + i, parts[i]));
            delivery::lemma_other_path(v.dir, (first + i) as u64, at);
            if i != m {
                delivery::lemma_other_path(v.dir, (first + i) as u64, v.active_segment);
            } else {
                assert(tail =~= Seq::empty());
                assert(laws::framed(parts.last()) + tail =~= laws::framed(parts.last()));
            }
        } else {
            assert(after[i] == after.last());
            assert(laws::in_place(after.last(), at as int, v.segment_bytes));
        }
    }
    if end >= size {
        assert(after.drop_last() =~= t);
        assert(laws::flat(after) =~= records);
    }
    assert forall|again: Seq<u64>| #[trigger] manager::lists_segments(next, v.dir, again) implies scan::scan_all(
        manager::segment_views(next, v.dir, again),
        v.segment_bytes,
    ) == Ok::<ScanView, Error>(ScanView { records, torn: false }) by {
        laws::law_scan_reads_back(next, opened, first, after, again);
    }
    after
}

/// A log that is opened after a crash is as safe as it was found: all segments but the active one would
/// survive the next crash, and without a torn tail all records would. A queue that starts where the log
/// stands is in step with it.
pub proof fn law_opened_log_is_safe(
    files: Map<Seq<char>, Seq<u8>>,
    v: LogView,
    first: int,
    parts: Seq<Seq<RecordView>>,
    tail: Seq<u8>,
    numbers: Seq<u64>,
    opened: LogView,
    q: QueueView,
) -> (after: Seq<Seq<RecordView>>)
    requires
        holds_torn(files, v, first, parts, tail),
        can_go_on(v, first, parts, tail),
        manager::lists_segments(files, v.dir, numbers),
        manager::opened_from(files, numbers, v.dir, v.segment_bytes, opened),
        q.reserved == opened.written,
        q.prev == opened.prev,
        q.pending.len() == 0,
    ensures
        ({
            let w = Written { log: opened, files: manager::files_opened(files, opened), synced: files };
            &&& laws::holds_log_from(w.files, w.log, first, after)
            &&& laws::flat(after) == laws::flat(parts)
            &&& delivery::older_are_safe(w, first)
            &&& tail.len() == 0 ==> delivery::saved(w, first, after, after.last().len() as int)
            &&& delivery::in_step(w, q, Seq::empty())
        }),
{
    let next = manager::files_opened(files, opened);
    let w = Written { log: opened, files: next, synced: files };
    let after = law_opened_log_holds(files, v, first, parts, tail, numbers, opened);
    let at = opened.active_segment;
    assert forall|n: u64| first <= n < at implies delivery::safe(
        w,
        #[trigger] manager::segment_path_spec(opened.dir, n as nat),
    ) by {
        delivery::lemma_other_path(v.dir, n, at);
        assert(laws::holds_part(next, opened, first + (n - first), after[n - first]));
    }
    assert(delivery::nothing_else_survives(w)) by {
        assert forall|n: u64| #[trigger] manager::has_segment(w.synced, opened.dir, n) implies manager::has_segment(
            w.files,
            opened.dir,
            n,
        ) && (n > at ==> w.synced[manager::segment_path_spec(opened.dir, n as nat)] == Seq::<u8>::empty()) by {
            if n != at {
                delivery::lemma_other_path(v.dir, n, at);
                assert(manager::has_segment(next, opened.dir, n));
            }
        }
    }
    let last = after.last();
    assert(laws::holds_part(next, opened, at as int, after[after.len() - 1]));
    if tail.len() == 0 {
        assert(tail =~= Seq::empty());
        lemma_whole(files, v, first, parts);
        assert(last.take(last.len() as int) =~= last);
        lemma_opened_as_found(files, v, first, parts, opened);
        if last.len() > 0 {
            lemma_end(last, at as int, opened.segment_bytes);
        }
    }
    assert(q.pending =~= Seq::empty());
    after
}

/// Opening a log without a torn tail cuts nothing off.
proof fn lemma_opened_as_found(
    files: Map<Seq<char>, Seq<u8>>,
    v: LogView,
    first: int,
    parts: Seq<Seq<RecordView>>,
    opened: LogView,
)
    requires
        laws::holds_log_from(files, v, first, parts),
        laws::flat(parts).len() > 0 || first == 1,
        manager::opened(v.dir, v.segment_bytes, laws::flat(parts), opened),
    ensures
        files.dom().contains(opened.path()) ==> manager::files_opened(files, opened)[opened.path()]
            == files[opened.path()],
        !files.dom().contains(opened.path()) ==> opened.active_offset == 0,
{
    let q = filled(parts).len() - 1;
    let at = opened.active_segment;
    lemma_filled(parts);
    lemma_opened_at(files, v, first, parts, opened);
    assert(laws::holds_part(files, v, first + q, parts[q]));
    if opened.active_offset > 0 || at == first + q {
        assert(io::resized(files[opened.path()], opened.active_offset as int) =~= files[opened.path()]);
    } else if manager::has_segment(files, v.dir, at) {
        if at <= v.active_segment {
            let j = at - first;
            assert(laws::holds_part(files, v, first + j, parts[j]));
            assert(laws::framed(parts[j]) =~= Seq::<u8>::empty());
        }
        assert(io::resized(files[opened.path()], 0) =~= files[opened.path()]);
    }
}

} // verus!
