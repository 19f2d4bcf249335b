//! What is appended to the log is read back.
use crate::error::Error;
use crate::format::TxId;
use crate::io;
use crate::wal::manager;
use crate::wal::manager::LogView;
use crate::wal::payload;
use crate::wal::record;
use crate::wal::record::{RecordView, WalRecordKind, WAL_HEADER_LEN};
use crate::wal::scan;
use crate::wal::scan::{ScanView, SegmentView};
use crate::wal::segment;
use vstd::prelude::*;

verus! {

/// The bytes of records, one after the other.
pub open spec fn framed(part: Seq<RecordView>) -> Seq<u8>
    decreases part.len(),
{
    if part.len() == 0 {
        Seq::empty()
    } else {
        framed(part.drop_last()) + part.last().frame()
    }
}

/// A record that fits a segment and stands at `offset` of segment `number`.
pub open spec fn stands_at(r: RecordView, number: int, offset: int, segment_bytes: u64) -> bool {
    &&& r.payload.len() <= u32::MAX
    &&& r.frame_len() <= segment_bytes
    &&& segment::position(number, offset, segment_bytes as int) <= u64::MAX
    &&& r.lsn.0 == segment::position(number, offset, segment_bytes as int)
}

/// Every record of a segment stands where its position says.
pub open spec fn in_place(part: Seq<RecordView>, number: int, segment_bytes: u64) -> bool {
    forall|j: int|
        0 <= j < part.len() ==> #[trigger] stands_at(
            part[j],
            number,
            framed(part.subrange(0, j)).len() as int,
            segment_bytes,
        )
}

/// The records of all segments.
pub open spec fn flat(parts: Seq<Seq<RecordView>>) -> Seq<RecordView>
    decreases parts.len(),
{
    if parts.len() == 0 {
        Seq::empty()
    } else {
        flat(parts.drop_last()) + parts.last()
    }
}

/// A segment is there and holds exactly these records.
pub open spec fn holds_part(files: Map<Seq<char>, Seq<u8>>, v: LogView, number: int, part: Seq<RecordView>) -> bool {
    let path = manager::segment_path_spec(v.dir, number as nat);
    &&& files.dom().contains(path)
    &&& files[path] == framed(part)
    &&& framed(part).len() <= v.segment_bytes
    &&& in_place(part, number, v.segment_bytes)
}

/// No segment lies before the first one of a log, and what lies behind the active one is empty.
pub open spec fn nothing_else(files: Map<Seq<char>, Seq<u8>>, v: LogView, first: int) -> bool {
    forall|n: u64| #[trigger]
        manager::has_segment(files, v.dir, n) ==> first <= n && (n > v.active_segment
            ==> files[manager::segment_path_spec(v.dir, n as nat)] == Seq::<u8>::empty())
}

/// The files of a log hold these records, segment by segment from segment `first` up to the active
/// one, and the log stands behind them. The segments before `first` are gone; segments behind the
/// active one may be there, but are empty.
pub open spec fn holds_log_from(
    files: Map<Seq<char>, Seq<u8>>,
    v: LogView,
    first: int,
    parts: Seq<Seq<RecordView>>,
) -> bool {
    &&& v.wf()
    &&& 1 <= first
    &&& parts.len() > 0
    &&& first + parts.len() - 1 == v.active_segment
    &&& framed(parts.last()).len() == v.active_offset
    &&& nothing_else(files, v, first)
    &&& forall|i: int| 0 <= i < parts.len() ==> holds_part(files, v, first + i, #[trigger] parts[i])
}

proof fn lemma_framed_push(part: Seq<RecordView>, r: RecordView)
    ensures
        framed(part.push(r)) == framed(part) + r.frame(),
{
    assert(part.push(r).drop_last() =~= part);
}

pub proof fn lemma_framed_prefix(part: Seq<RecordView>, k: int)
    requires
        0 <= k < part.len(),
    ensures
        framed(part.subrange(0, k)).len() + part[k].frame().len() <= framed(part).len(),
        framed(part.subrange(0, k + 1)) == framed(part.subrange(0, k)) + part[k].frame(),
        framed(part).subrange(0, framed(part.subrange(0, k + 1)).len() as int) == framed(part.subrange(0, k + 1)),
    decreases part.len() - k,
{
    assert(part.subrange(0, k + 1).drop_last() =~= part.subrange(0, k));
    if k + 1 == part.len() {
        assert(part.subrange(0, k + 1) =~= part);
        assert(framed(part).subrange(0, framed(part).len() as int) =~= framed(part));
    } else {
        lemma_framed_prefix(part, k + 1);
        let a = framed(part.subrange(0, k + 1));
        let b = framed(part.subrange(0, k + 2));
        assert(framed(part).subrange(0, a.len() as int) =~= b.subrange(0, a.len() as int));
        assert(b.subrange(0, a.len() as int) =~= a);
    }
}

/// The first records of a segment stand where they stood.
pub proof fn lemma_part_taken(part: Seq<RecordView>, number: int, segment_bytes: u64, k: int)
    requires
        in_place(part, number, segment_bytes),
        0 <= k <= part.len(),
    ensures
        in_place(part.take(k), number, segment_bytes),
        framed(part.take(k)).len() <= framed(part).len(),
{
    let taken = part.take(k);
    assert forall|j: int| 0 <= j < taken.len() implies #[trigger] stands_at(
        taken[j],
        number,
        framed(taken.subrange(0, j)).len() as int,
        segment_bytes,
    ) by {
        assert(taken.subrange(0, j) =~= part.subrange(0, j));
        assert(stands_at(part[j], number, framed(part.subrange(0, j)).len() as int, segment_bytes));
    }
    if k < part.len() {
        lemma_framed_prefix(part, k);
        assert(part.subrange(0, k) =~= taken);
    } else {
        assert(taken =~= part);
    }
}

/// A record that stands where its position says is found, and the scan goes on behind it.
#[verifier::spinoff_prover]
proof fn lemma_scan_step(content: Seq<u8>, offset: int, r: RecordView, number: u64, last: bool, segment_bytes: u64)
    requires
        0 <= offset,
        offset + r.frame_len() <= content.len(),
        content.subrange(offset, offset + r.frame_len()) == r.frame(),
        stands_at(r, number as int, offset, segment_bytes),
        number >= 1,
    ensures
        scan::scan_segment(content, number, last, segment_bytes, offset) == scan::scanned_on(
            seq![r],
            scan::scan_segment(content, number, last, segment_bytes, offset + r.frame_len()),
        ),
{
    reveal(scan::scan_segment);
    record::law_record_round_trips(r);
    assert(content.subrange(offset + 12, offset + 16) =~= r.frame().subrange(12, 16));
    assert(payload::field(content, offset + 12, 4) == r.payload.len());
}

/// Scanning from the `k`th record of a segment on finds the records from there on, and then what
/// follows them.
pub proof fn lemma_scan_part(part: Seq<RecordView>, tail: Seq<u8>, number: u64, last: bool, segment_bytes: u64, k: int)
    requires
        in_place(part, number as int, segment_bytes),
        number >= 1,
        0 <= k <= part.len(),
    ensures
        scan::scan_segment(
            framed(part) + tail,
            number,
            last,
            segment_bytes,
            framed(part.subrange(0, k)).len() as int,
        ) == scan::scanned_on(
            part.subrange(k, part.len() as int),
            scan::scan_segment(framed(part) + tail, number, last, segment_bytes, framed(part).len() as int),
        ),
    decreases part.len() - k,
{
    let content = framed(part) + tail;
    let end = scan::scan_segment(content, number, last, segment_bytes, framed(part).len() as int);
    if k == part.len() {
        assert(part.subrange(0, k) =~= part);
        assert(part.subrange(k, k) =~= Seq::empty());
        assert(end matches Ok(w) ==> Seq::<RecordView>::empty() + w.records =~= w.records);
    } else {
        let r = part[k];
        let offset = framed(part.subrange(0, k)).len() as int;
        let len = r.frame_len() as int;
        assert(stands_at(r, number as int, offset, segment_bytes));
        lemma_framed_prefix(part, k);
        let upto = framed(part.subrange(0, k + 1));
        record::lemma_frame_len(r);
        assert(content.subrange(offset, offset + len) =~= r.frame()) by {
            assert(content.subrange(0, upto.len() as int) =~= upto);
            assert(content.subrange(offset, offset + len) =~= upto.subrange(offset, offset + len));
            assert(upto.subrange(offset, offset + len) =~= r.frame());
        }
        lemma_scan_step(content, offset, r, number, last, segment_bytes);
        lemma_scan_part(part, tail, number, last, segment_bytes, k + 1);
        assert(part.subrange(k, part.len() as int) =~= seq![r] + part.subrange(k + 1, part.len() as int));
        if end is Ok {
            let w = end->Ok_0;
            assert(seq![r] + (part.subrange(k + 1, part.len() as int) + w.records) =~= (seq![r] + part.subrange(
                k + 1,
                part.len() as int,
            )) + w.records);
        }
    }
}

/// Scanning a segment finds its records.
pub proof fn lemma_scan_segment(part: Seq<RecordView>, number: u64, last: bool, segment_bytes: u64)
    requires
        in_place(part, number as int, segment_bytes),
        number >= 1,
    ensures
        scan::scan_segment(framed(part), number, last, segment_bytes, 0) == Ok::<ScanView, Error>(
            ScanView { records: part, torn: false },
        ),
{
    reveal(scan::scan_segment);
    lemma_scan_part(part, Seq::empty(), number, last, segment_bytes, 0);
    assert(framed(part) + Seq::<u8>::empty() =~= framed(part));
    assert(part.subrange(0, 0) =~= Seq::empty());
    assert(part.subrange(0, part.len() as int) =~= part);
    assert(part + Seq::<RecordView>::empty() =~= part);
}

pub proof fn lemma_flat_add(a: Seq<Seq<RecordView>>, b: Seq<Seq<RecordView>>)
    ensures
        flat(a + b) == flat(a) + flat(b),
    decreases b.len(),
{
    if b.len() == 0 {
        assert(a + b =~= a);
        assert(flat(a) + Seq::<RecordView>::empty() =~= flat(a));
    } else {
        assert((a + b).drop_last() =~= a + b.drop_last());
        lemma_flat_add(a, b.drop_last());
        assert(flat(a + b) =~= flat(a) + flat(b));
    }
}

/// Segments with these numbers that hold these records; the last one goes on with `tail`.
pub open spec fn numbered(numbers: Seq<u64>, parts: Seq<Seq<RecordView>>, tail: Seq<u8>) -> Seq<SegmentView> {
    Seq::new(
        numbers.len(),
        |i: int|
            SegmentView {
                number: numbers[i],
                content: if i == numbers.len() - 1 {
                    framed(parts[i]) + tail
                } else {
                    framed(parts[i])
                },
            },
    )
}

/// Scanning segments finds their records, and then what the tail of the last one holds.
pub proof fn lemma_scan_numbered(numbers: Seq<u64>, parts: Seq<Seq<RecordView>>, tail: Seq<u8>, segment_bytes: u64)
    requires
        0 < numbers.len() == parts.len(),
        forall|i: int| 0 <= i < numbers.len() ==> #[trigger] numbers[i] >= 1,
        forall|i: int| 0 <= i < parts.len() ==> in_place(#[trigger] parts[i], numbers[i] as int, segment_bytes),
    ensures
        scan::scan_all(numbered(numbers, parts, tail), segment_bytes) == scan::scanned_on(
            flat(parts),
            scan::scan_segment(
                framed(parts.last()) + tail,
                numbers.last(),
                true,
                segment_bytes,
                framed(parts.last()).len() as int,
            ),
        ),
    decreases parts.len(),
{
    let all = numbered(numbers, parts, tail);
    let n = parts.len();
    let part = parts[0];
    let end = scan::scan_segment(
        framed(parts.last()) + tail,
        numbers.last(),
        true,
        segment_bytes,
        framed(parts.last()).len() as int,
    );
    assert(in_place(part, numbers[0] as int, segment_bytes));
    if n == 1 {
        lemma_scan_part(part, tail, numbers[0], true, segment_bytes, 0);
        assert(part.subrange(0, 0) =~= Seq::empty());
        assert(part.subrange(0, part.len() as int) =~= part);
        assert(all.drop_first() =~= Seq::empty());
        reveal_with_fuel(scan::scan_all, 2);
        reveal_with_fuel(flat, 2);
        assert(parts.drop_last() =~= Seq::empty());
        assert(flat(parts) =~= part);
        if end is Ok {
            assert(part + end->Ok_0.records + Seq::<RecordView>::empty() =~= part + end->Ok_0.records);
        }
    } else {
        let rest = parts.drop_first();
        let numbers2 = numbers.drop_first();
        assert(all.drop_first() =~= numbered(numbers2, rest, tail));
        assert forall|i: int| 0 <= i < rest.len() implies in_place(
            #[trigger] rest[i],
            numbers2[i] as int,
            segment_bytes,
        ) by {
            assert(rest[i] == parts[i + 1]);
        }
        lemma_scan_numbered(numbers2, rest, tail, segment_bytes);
        lemma_scan_segment(part, numbers[0], false, segment_bytes);
        let one = seq![part];
        assert(parts =~= one + rest);
        lemma_flat_add(one, rest);
        reveal_with_fuel(flat, 2);
        assert(one.drop_last() =~= Seq::empty());
        assert(flat(one) =~= part);
        if end is Ok {
            let w = end->Ok_0;
            assert(part + (flat(rest) + w.records) =~= (part + flat(rest)) + w.records);
        }
    }
}

/// An ascending list of numbers from `first` on that holds the first `n` of them starts with those.
pub proof fn lemma_counting(numbers: Seq<u64>, first: int, n: int)
    requires
        0 <= n,
        0 <= first,
        first + n <= u64::MAX + 1,
        forall|i: int, j: int| 0 <= i < j < numbers.len() ==> #[trigger] numbers[i] < #[trigger] numbers[j],
        forall|m: u64| #[trigger] numbers.contains(m) ==> first <= m,
        forall|m: u64| first <= m < first + n ==> #[trigger] numbers.contains(m),
    ensures
        numbers.len() >= n,
        forall|i: int| 0 <= i < n ==> #[trigger] numbers[i] == first + i,
        forall|i: int| n <= i < numbers.len() ==> #[trigger] numbers[i] >= first + n,
    decreases n,
{
    if n == 0 {
        assert forall|i: int| n <= i < numbers.len() implies #[trigger] numbers[i] >= first + n by {
            assert(numbers.contains(numbers[i]));
        }
    } else {
        lemma_counting(numbers, first, n - 1);
        let m = (first + n - 1) as u64;
        assert(numbers.contains(m));
        let k = choose|k: int| 0 <= k < numbers.len() && numbers[k] == m;
        if k > n - 1 {
            assert(numbers[n - 1] < numbers[k]);
        }
        assert(numbers[n - 1] == m);
        assert forall|i: int| n <= i < numbers.len() implies #[trigger] numbers[i] >= first + n by {
            assert(numbers[n - 1] < numbers[i]);
        }
    }
}

/// Empty parts hold no records.
pub proof fn lemma_flat_empty(parts: Seq<Seq<RecordView>>)
    requires
        forall|i: int| 0 <= i < parts.len() ==> (#[trigger] parts[i]).len() == 0,
    ensures
        flat(parts) == Seq::<RecordView>::empty(),
    decreases parts.len(),
{
    if parts.len() > 0 {
        lemma_flat_empty(parts.drop_last());
        assert(parts.last() == parts[parts.len() - 1]);
        assert(flat(parts) =~= Seq::empty());
    } else {
        assert(flat(parts) =~= Seq::empty());
    }
}

/// The parts of all listed segments: those of the log and, behind them, empty ones.
pub open spec fn listed_parts(parts: Seq<Seq<RecordView>>, count: nat) -> Seq<Seq<RecordView>> {
    Seq::new(
        count,
        |i: int|
            if i < parts.len() {
                parts[i]
            } else {
                Seq::empty()
            },
    )
}

/// The list of the segments of a log: those that hold its parts, and then empty ones.
pub proof fn lemma_listed(
    files: Map<Seq<char>, Seq<u8>>,
    v: LogView,
    first: int,
    parts: Seq<Seq<RecordView>>,
    numbers: Seq<u64>,
)
    requires
        holds_log_from(files, v, first, parts),
        manager::lists_segments(files, v.dir, numbers),
    ensures
        numbers.len() >= parts.len(),
        forall|i: int| 0 <= i < parts.len() ==> #[trigger] numbers[i] == first + i,
        forall|i: int| parts.len() <= i < numbers.len() ==> #[trigger] numbers[i] > v.active_segment,
        forall|i: int| 0 <= i < numbers.len() ==> #[trigger] numbers[i] >= 1,
        manager::segment_views(files, v.dir, numbers) == numbered(
            numbers,
            listed_parts(parts, numbers.len()),
            Seq::empty(),
        ),
        forall|i: int|
            0 <= i < numbers.len() ==> in_place(
                #[trigger] listed_parts(parts, numbers.len())[i],
                numbers[i] as int,
                v.segment_bytes,
            ),
        flat(listed_parts(parts, numbers.len())) == flat(parts),
{
    let n = parts.len() as int;
    let all = listed_parts(parts, numbers.len());
    assert forall|m: u64| #[trigger] numbers.contains(m) implies first <= m by {
        assert(manager::has_segment(files, v.dir, m));
    }
    assert forall|m: u64| first <= m < first + n implies #[trigger] numbers.contains(m) by {
        assert(holds_part(files, v, first + (m - first), parts[m - first]));
        assert(manager::has_segment(files, v.dir, m));
    }
    lemma_counting(numbers, first, n);
    assert forall|i: int| 0 <= i < numbers.len() implies in_place(#[trigger] all[i], numbers[i] as int, v.segment_bytes)
        && files[manager::segment_path_spec(v.dir, numbers[i] as nat)] == framed(all[i]) && numbers[i] >= 1 by {
        assert(numbers.contains(numbers[i]));
        assert(manager::has_segment(files, v.dir, numbers[i]));
        if i < n {
            assert(numbers[i] == first + i);
            assert(holds_part(files, v, first + i, parts[i]));
        } else {
            assert(framed(all[i]) =~= Seq::<u8>::empty());
        }
    }
    let views = manager::segment_views(files, v.dir, numbers);
    assert forall|i: int| 0 <= i < numbers.len() implies views[i] == numbered(numbers, all, Seq::empty())[i] by {
        assert(in_place(all[i], numbers[i] as int, v.segment_bytes));
        assert(framed(all[i]) + Seq::<u8>::empty() =~= framed(all[i]));
    }
    assert(views =~= numbered(numbers, all, Seq::empty()));
    let spare = all.skip(n);
    assert(all =~= parts + spare);
    lemma_flat_add(parts, spare);
    assert forall|i: int| 0 <= i < spare.len() implies (#[trigger] spare[i]).len() == 0 by {
        assert(spare[i] == all[n + i]);
    }
    lemma_flat_empty(spare);
    assert(flat(parts) + Seq::<RecordView>::empty() =~= flat(parts));
}

/// A log with nothing in its directory but an empty first segment holds no records.
pub proof fn law_new_log_is_empty(files: Map<Seq<char>, Seq<u8>>, v: LogView)
    requires
        v.wf(),
        v.active_segment == 1,
        v.active_offset == 0,
        forall|n: u64| !#[trigger] manager::has_segment(files, v.dir, n),
    ensures
        holds_log_from(manager::with_file(files, v.path()), v, 1, seq![Seq::empty()]),
        flat(seq![Seq::<RecordView>::empty()]) == Seq::<RecordView>::empty(),
{
    let after = manager::with_file(files, v.path());
    assert(!manager::has_segment(files, v.dir, 1));
    assert(nothing_else(after, v, 1)) by {
        assert forall|n: u64| #[trigger] manager::has_segment(after, v.dir, n) implies n == 1 by {
            assert(!manager::has_segment(files, v.dir, n));
            if n != 1 {
                manager::lemma_paths_differ(v.dir, n, 1);
            }
        }
    }
    reveal_with_fuel(flat, 2);
    let parts = seq![Seq::<RecordView>::empty()];
    assert(parts.drop_last() =~= Seq::empty());
    assert(flat(parts) =~= Seq::<RecordView>::empty());
    assert(parts[0].len() == 0);
    assert(framed(parts[0]) =~= Seq::<u8>::empty());
    assert(holds_part(after, v, 1, parts[0]));
}

/// The records of a log after one more, segment by segment.
pub open spec fn with_record(v: LogView, parts: Seq<Seq<RecordView>>, r: RecordView) -> Seq<Seq<RecordView>> {
    if v.is_full(r.frame_len() as int) {
        parts.push(seq![r])
    } else {
        parts.update(parts.len() - 1, parts.last().push(r))
    }
}

/// Appending a record adds it behind all others and keeps those.
pub proof fn law_append_adds_record(
    files: Map<Seq<char>, Seq<u8>>,
    v: LogView,
    first: int,
    parts: Seq<Seq<RecordView>>,
    kind: WalRecordKind,
    tx_id: TxId,
    data: Seq<u8>,
)
    requires
        holds_log_from(files, v, first, parts),
        data.len() <= u32::MAX,
        WAL_HEADER_LEN + data.len() <= v.segment_bytes,
        v.has_room((WAL_HEADER_LEN + data.len()) as int),
    ensures
        ({
            let r = v.next_record(kind, tx_id, data);
            let len = (WAL_HEADER_LEN + data.len()) as int;
            &&& holds_log_from(
                v.files_after(files, r.frame()),
                v.placed(len).advanced(len),
                first,
                with_record(v, parts, r),
            )
            &&& flat(with_record(v, parts, r)) == flat(parts).push(r)
        }),
{
    let len = (WAL_HEADER_LEN + data.len()) as int;
    let r = v.next_record(kind, tx_id, data);
    let place = v.placed(len);
    let next = with_record(v, parts, r);
    let after = v.files_after(files, r.frame());
    let v2 = place.advanced(len);
    let path = place.path();
    let at = place.active_segment;
    record::lemma_frame_len(r);
    manager::lemma_room(v);
    let m = parts.len() as int;
    assert(holds_part(files, v, first + m - 1, parts[m - 1]));
    assert(v.path() == manager::segment_path_spec(v.dir, (first + m - 1) as nat));
    assert(nothing_else(after, v2, first)) by {
        assert forall|n: u64| #[trigger] manager::has_segment(after, v2.dir, n) implies first <= n && (n
            > v2.active_segment ==> after[manager::segment_path_spec(v2.dir, n as nat)] == Seq::<u8>::empty()) by {
            if n != at {
                if manager::segment_path_spec(v.dir, n as nat) == path {
                    manager::lemma_paths_differ(v.dir, n, at);
                }
                assert(manager::has_segment(files, v.dir, n));
            }
        }
    }
    assert forall|i: int| 0 <= i < m && first + i != at implies holds_part(after, v2, first + i, #[trigger] parts[i]) by {
        assert(holds_part(files, v, first + i, parts[i]));
        if manager::segment_path_spec(v.dir, (first + i) as nat) == path {
            manager::lemma_paths_differ(v.dir, (first + i) as u64, at);
        }
    }
    if v.is_full(len) {
        let one = seq![r];
        let opened = manager::with_file(files, path);
        assert(opened[path] =~= Seq::<u8>::empty()) by {
            if files.dom().contains(path) {
                assert(manager::has_segment(files, v.dir, at));
            }
        }
        reveal_with_fuel(framed, 2);
        assert(one.drop_last() =~= Seq::empty());
        assert(framed(one) =~= r.frame());
        assert(io::overwritten(Seq::empty(), 0, r.frame()) =~= r.frame());
        assert(one.subrange(0, 0) =~= Seq::empty());
        assert(in_place(one, at as int, v.segment_bytes)) by {
            assert(stands_at(one[0], at as int, 0, v.segment_bytes));
        }
        assert(next.last() == one);
        assert(holds_part(after, v2, at as int, one));
        assert forall|i: int| 0 <= i < next.len() implies holds_part(after, v2, first + i, #[trigger] next[i]) by {
            if i < m {
                assert(next[i] == parts[i]);
                assert(holds_part(after, v2, first + i, parts[i]));
            }
        }
        assert(next.drop_last() =~= parts);
        assert(flat(next) =~= flat(parts).push(r));
    } else {
        let old_part = parts[m - 1];
        let part = old_part.push(r);
        lemma_framed_push(old_part, r);
        assert(parts.last() == old_part);
        assert(io::overwritten(framed(old_part), v.active_offset as int, r.frame()) =~= framed(part));
        assert(in_place(part, at as int, v.segment_bytes)) by {
            assert forall|j: int| 0 <= j < part.len() implies #[trigger] stands_at(
                part[j],
                at as int,
                framed(part.subrange(0, j)).len() as int,
                v.segment_bytes,
            ) by {
                if j < old_part.len() {
                    assert(part.subrange(0, j) =~= old_part.subrange(0, j));
                    assert(part[j] == old_part[j]);
                    assert(stands_at(
                        old_part[j],
                        at as int,
                        framed(old_part.subrange(0, j)).len() as int,
                        v.segment_bytes,
                    ));
                } else {
                    assert(part.subrange(0, j) =~= old_part);
                }
            }
        }
        assert(holds_part(after, v2, at as int, part));
        assert forall|i: int| 0 <= i < next.len() implies holds_part(after, v2, first + i, #[trigger] next[i]) by {
            if i < m - 1 {
                assert(next[i] == parts[i]);
                assert(holds_part(after, v2, first + i, parts[i]));
            } else {
                assert(next[i] == part);
            }
        }
        assert(next.last() == part);
        assert(next.drop_last() =~= parts.drop_last());
        assert(flat(next) =~= flat(parts).push(r));
    }
}

/// Scanning the files of a log finds exactly its records, in the order they were appended, and no
/// torn tail.
pub proof fn law_scan_reads_back(
    files: Map<Seq<char>, Seq<u8>>,
    v: LogView,
    first: int,
    parts: Seq<Seq<RecordView>>,
    numbers: Seq<u64>,
)
    requires
        holds_log_from(files, v, first, parts),
        manager::lists_segments(files, v.dir, numbers),
    ensures
        scan::scan_all(manager::segment_views(files, v.dir, numbers), v.segment_bytes) == Ok::<ScanView, Error>(
            ScanView { records: flat(parts), torn: false },
        ),
{
    lemma_listed(files, v, first, parts, numbers);
    let all = listed_parts(parts, numbers.len());
    lemma_scan_numbered(numbers, all, Seq::empty(), v.segment_bytes);
    reveal(scan::scan_segment);
    assert(flat(parts) + Seq::<RecordView>::empty() =~= flat(parts));
}

/// A record that was cut off at the end of the last segment is left out; everything before it is
/// found.
pub proof fn law_torn_tail_is_left_out(part: Seq<RecordView>, number: u64, segment_bytes: u64, r: RecordView, cut: int)
    requires
        in_place(part, number as int, segment_bytes),
        number >= 1,
        r.payload.len() <= u32::MAX,
        r.frame_len() <= segment_bytes,
        0 < cut < r.frame_len(),
    ensures
        scan::scan_segment(
            framed(part) + r.frame().subrange(0, cut),
            number,
            true,
            segment_bytes,
            0,
        ) == Ok::<ScanView, Error>(ScanView { records: part, torn: true }),
{
    reveal(scan::scan_segment);
    record::law_record_round_trips(r);
    let tail = r.frame().subrange(0, cut);
    let content = framed(part) + tail;
    let end = framed(part).len() as int;
    lemma_scan_part(part, tail, number, true, segment_bytes, 0);
    assert(part.subrange(0, 0) =~= Seq::empty());
    assert(part.subrange(0, part.len() as int) =~= part);
    assert(part + Seq::<RecordView>::empty() =~= part);
    if cut >= WAL_HEADER_LEN {
        assert(content.subrange(end + 12, end + 16) =~= r.frame().subrange(12, 16));
        assert(payload::field(content, end + 12, 4) == r.payload.len());
    }
}

/// What follows the records of the last segment is left out as torn.
pub open spec fn torn_end(part: Seq<RecordView>, tail: Seq<u8>, number: u64, segment_bytes: u64) -> bool {
    scan::scan_segment(framed(part) + tail, number, true, segment_bytes, framed(part).len() as int) == Ok::<
        ScanView,
        Error,
    >(ScanView { records: Seq::empty(), torn: true })
}

/// The start of a record that was cut off is left out.
pub proof fn law_cut_record_is_torn(part: Seq<RecordView>, number: u64, segment_bytes: u64, r: RecordView, cut: int)
    requires
        r.payload.len() <= u32::MAX,
        r.frame_len() <= segment_bytes,
        0 < cut < r.frame_len(),
    ensures
        torn_end(part, r.frame().subrange(0, cut), number, segment_bytes),
{
    reveal(scan::scan_segment);
    record::law_record_round_trips(r);
    let tail = r.frame().subrange(0, cut);
    let content = framed(part) + tail;
    let end = framed(part).len() as int;
    if cut >= WAL_HEADER_LEN {
        assert(content.subrange(end + 12, end + 16) =~= r.frame().subrange(12, 16));
        assert(payload::field(content, end + 12, 4) == r.payload.len());
    }
}

/// Bytes that are too few for a record are left out, whatever they are.
pub proof fn law_stray_bytes_are_torn(part: Seq<RecordView>, number: u64, segment_bytes: u64, tail: Seq<u8>)
    requires
        0 < tail.len() < WAL_HEADER_LEN,
    ensures
        torn_end(part, tail, number, segment_bytes),
{
    reveal(scan::scan_segment);
}

/// Two appends in a row: the second record starts where the first one ends if it fits behind it, and
/// else at the start of the next segment. It lies within one segment.
pub proof fn law_appends_follow_each_other(v: LogView, first_len: int, len: int)
    requires
        v.wf(),
        v.active_offset <= v.segment_bytes,
        0 < first_len <= v.segment_bytes,
        0 < len <= v.segment_bytes,
        v.has_room(first_len),
        v.placed(first_len).advanced(first_len).has_room(len),
    ensures
        ({
            let mid = v.placed(first_len).advanced(first_len);
            let place = mid.placed(len);
            let size = v.segment_bytes as int;
            let end = mid.written.0 as int;
            &&& end == v.placed(first_len).at() + first_len
            &&& place.at() == if segment::offset_of(end, size) + len <= size {
                end
            } else {
                segment::position(segment::segment_of(end, size) + 1, 0, size)
            }
            &&& segment::offset_of(place.at(), size) + len <= size
            &&& place.advanced(len).written.0 == place.at() + len
            &&& place.advanced(len).durable == mid.durable
            &&& place.advanced(len).prev.0 == place.at()
        }),
{
    let mid = v.placed(first_len).advanced(first_len);
    let place = mid.placed(len);
    let size = v.segment_bytes as int;
    let s = mid.active_segment as int;
    let o = mid.active_offset as int;
    manager::lemma_room(v);
    manager::lemma_room(mid);
    assert(v.placed(first_len).at() + first_len <= u64::MAX);
    assert(0 < o <= size);
    assert(mid.at() == v.placed(first_len).at() + first_len);
    assert(mid.written.0 == segment::position(s, o, size));
    assert((s + 1 - 1) * size == (s - 1) * size + size) by (nonlinear_arith);
    if o == size {
        segment::law_lsn_of_position(s + 1, 0, size);
    } else {
        segment::law_lsn_of_position(s, o, size);
        segment::law_lsn_of_position(s + 1, 0, size);
    }
    assert(place.at() + len <= u64::MAX);
}

/// What is handed to an append.
pub struct Appended {
    pub kind: WalRecordKind,
    pub tx_id: TxId,
    pub data: Seq<u8>,
}

/// The length of the record that an append makes.
pub open spec fn appended_len(item: Appended) -> int {
    WAL_HEADER_LEN + item.data.len()
}

/// The log after some appends.
pub open spec fn log_after(v: LogView, items: Seq<Appended>) -> LogView
    decreases items.len(),
{
    if items.len() == 0 {
        v
    } else {
        let len = appended_len(items.last());
        log_after(v, items.drop_last()).placed(len).advanced(len)
    }
}

/// The records that some appends make.
pub open spec fn records_after(v: LogView, items: Seq<Appended>) -> Seq<RecordView>
    decreases items.len(),
{
    if items.len() == 0 {
        Seq::empty()
    } else {
        let item = items.last();
        let before = log_after(v, items.drop_last());
        records_after(v, items.drop_last()).push(before.next_record(item.kind, item.tx_id, item.data))
    }
}

/// The files after some appends.
pub open spec fn files_after_all(files: Map<Seq<char>, Seq<u8>>, v: LogView, items: Seq<Appended>) -> Map<
    Seq<char>,
    Seq<u8>,
>
    decreases items.len(),
{
    if items.len() == 0 {
        files
    } else {
        let item = items.last();
        let before = log_after(v, items.drop_last());
        before.files_after(
            files_after_all(files, v, items.drop_last()),
            before.next_record(item.kind, item.tx_id, item.data).frame(),
        )
    }
}

/// Whether each of some appends makes a record that fits a segment and a position that can be counted.
pub open spec fn all_fit(v: LogView, items: Seq<Appended>) -> bool
    decreases items.len(),
{
    items.len() == 0 || {
        let item = items.last();
        &&& all_fit(v, items.drop_last())
        &&& item.data.len() <= u32::MAX
        &&& appended_len(item) <= v.segment_bytes
        &&& log_after(v, items.drop_last()).has_room(appended_len(item))
    }
}

/// Whether a record says what was handed to its append, and where the record before it stands.
pub open spec fn made_of(v: LogView, made: Seq<RecordView>, items: Seq<Appended>, i: int) -> bool {
    &&& made[i].kind == items[i].kind
    &&& made[i].tx_id == items[i].tx_id
    &&& made[i].payload == items[i].data
    &&& made[i].prev_lsn == if i == 0 {
        v.prev
    } else {
        made[i - 1].lsn
    }
}

/// After any number of appends to a log, a scan gives back what the log held and then one record for each
/// append, in order, with what was handed in and the position of the record before it; the log ends where
/// the last record does.
pub proof fn law_appends_are_read_back(
    files: Map<Seq<char>, Seq<u8>>,
    v: LogView,
    first: int,
    parts: Seq<Seq<RecordView>>,
    items: Seq<Appended>,
    numbers: Seq<u64>,
) -> (after: Seq<Seq<RecordView>>)
    requires
        holds_log_from(files, v, first, parts),
        all_fit(v, items),
        manager::lists_segments(files_after_all(files, v, items), v.dir, numbers),
    ensures
        ({
            let made = records_after(v, items);
            &&& holds_log_from(files_after_all(files, v, items), log_after(v, items), first, after)
            &&& flat(after) == flat(parts) + made
            &&& scan::scan_all(
                manager::segment_views(files_after_all(files, v, items), v.dir, numbers),
                v.segment_bytes,
            ) == Ok::<ScanView, Error>(ScanView { records: flat(parts) + made, torn: false })
            &&& made.len() == items.len()
            &&& forall|i: int| 0 <= i < made.len() ==> #[trigger] made_of(v, made, items, i)
            &&& items.len() > 0 ==> log_after(v, items).written.0 == scan::end_lsn(made)
        }),
{
    let after = lemma_appended(files, v, first, parts, items);
    lemma_records_made(v, items);
    law_scan_reads_back(files_after_all(files, v, items), log_after(v, items), first, after, numbers);
    after
}

/// The files and the log after some appends.
proof fn lemma_appended(
    files: Map<Seq<char>, Seq<u8>>,
    v: LogView,
    first: int,
    parts: Seq<Seq<RecordView>>,
    items: Seq<Appended>,
) -> (after: Seq<Seq<RecordView>>)
    requires
        holds_log_from(files, v, first, parts),
        all_fit(v, items),
    ensures
        holds_log_from(files_after_all(files, v, items), log_after(v, items), first, after),
        flat(after) == flat(parts) + records_after(v, items),
        log_after(v, items).dir == v.dir,
        log_after(v, items).segment_bytes == v.segment_bytes,
    decreases items.len(),
{
    if items.len() == 0 {
        assert(flat(parts) + records_after(v, items) =~= flat(parts));
        parts
    } else {
        let older = items.drop_last();
        let item = items.last();
        let mid = lemma_appended(files, v, first, parts, older);
        let before = log_after(v, older);
        let r = before.next_record(item.kind, item.tx_id, item.data);
        law_append_adds_record(files_after_all(files, v, older), before, first, mid, item.kind, item.tx_id, item.data);
        assert(flat(mid).push(r) =~= flat(parts) + records_after(v, items));
        with_record(before, mid, r)
    }
}

/// The records that some appends make.
proof fn lemma_records_made(v: LogView, items: Seq<Appended>)
    requires
        v.wf(),
        all_fit(v, items),
    ensures
        ({
            let made = records_after(v, items);
            &&& log_after(v, items).wf()
            &&& log_after(v, items).segment_bytes == v.segment_bytes
            &&& made.len() == items.len()
            &&& forall|i: int| 0 <= i < made.len() ==> #[trigger] made_of(v, made, items, i)
            &&& items.len() > 0 ==> log_after(v, items).written.0 == scan::end_lsn(made)
            &&& log_after(v, items).prev == if items.len() == 0 {
                v.prev
            } else {
                made.last().lsn
            }
        }),
    decreases items.len(),
{
    let made = records_after(v, items);
    if items.len() > 0 {
        let older = items.drop_last();
        let was = records_after(v, older);
        let before = log_after(v, older);
        lemma_records_made(v, older);
        manager::lemma_room(before);
        record::lemma_frame_len(made.last());
        assert forall|i: int| 0 <= i < made.len() implies #[trigger] made_of(v, made, items, i) by {
            if i < older.len() {
                assert(made_of(v, was, older, i));
            }
        }
    }
}

} // verus!
