//! Writing and reading the segment files of the log.
use crate::error::{Error, Result};
use crate::format::{Lsn, TxId};
use crate::io;
use crate::io::{FileSystem, Refused};
use crate::text;
use crate::wal::record;
use crate::wal::record::{RecordView, WalRecord, WalRecordKind, WAL_HEADER_LEN};
use crate::wal::scan;
use crate::wal::scan::{ScanView, SegmentView, WalScanReport};
use crate::wal::segment;
use crate::wal::{WalAppend, WalConfig};
use vstd::prelude::*;
use vstd::string::*;

verus! {

/// The path of a segment file.
pub open spec fn segment_path_spec(dir: Seq<char>, number: nat) -> Seq<char> {
    io::join_spec(dir, segment::segment_name_spec(number))
}

/// Whether a directory holds a segment.
pub open spec fn has_segment(files: Map<Seq<char>, Seq<u8>>, dir: Seq<char>, number: u64) -> bool {
    files.dom().contains(segment_path_spec(dir, number as nat))
}

/// The numbers of the segments of a directory, in ascending order.
pub open spec fn lists_segments(files: Map<Seq<char>, Seq<u8>>, dir: Seq<char>, numbers: Seq<u64>) -> bool {
    &&& forall|i: int, j: int| 0 <= i < j < numbers.len() ==> #[trigger] numbers[i] < #[trigger] numbers[j]
    &&& forall|n: u64| #[trigger] numbers.contains(n) <==> has_segment(files, dir, n)
}

/// The segments of a directory.
pub open spec fn segment_views(files: Map<Seq<char>, Seq<u8>>, dir: Seq<char>, numbers: Seq<u64>) -> Seq<SegmentView> {
    Seq::new(
        numbers.len(),
        |i: int| SegmentView { number: numbers[i], content: files[segment_path_spec(dir, numbers[i] as nat)] },
    )
}

/// Whether some segments are there and fit in memory.
pub open spec fn segments_fit(files: Map<Seq<char>, Seq<u8>>, dir: Seq<char>, numbers: Seq<u64>) -> bool {
    forall|i: int|
        0 <= i < numbers.len() ==> has_segment(files, dir, #[trigger] numbers[i]) && files[segment_path_spec(
            dir,
            numbers[i] as nat,
        )].len() <= usize::MAX
}

/// Whether each segment of a directory fits in memory.
pub open spec fn directory_fits(files: Map<Seq<char>, Seq<u8>>, dir: Seq<char>) -> bool {
    forall|n: u64| #[trigger] has_segment(files, dir, n) ==> files[segment_path_spec(dir, n as nat)].len() <= usize::MAX
}

/// What a scan of some segments gives. The last record has to end at a position that can be counted.
pub open spec fn scan_result(files: Map<Seq<char>, Seq<u8>>, dir: Seq<char>, numbers: Seq<u64>, segment_bytes: u64) -> Result<
    ScanView,
> {
    match scan::scan_all(segment_views(files, dir, numbers), segment_bytes) {
        Err(e) => Err(e),
        Ok(found) => if scan::end_lsn(found.records) > u64::MAX {
            Err(Error::CorruptWal("lsn overflow"))
        } else {
            Ok(found)
        },
    }
}

/// Whether the segments of a directory make a scan fail with this error.
pub open spec fn scan_fails(files: Map<Seq<char>, Seq<u8>>, dir: Seq<char>, segment_bytes: u64, e: Error) -> bool {
    exists|numbers: Seq<u64>| #[trigger]
        lists_segments(files, dir, numbers) && scan_result(files, dir, numbers, segment_bytes) == Err::<ScanView, Error>(e)
}

/// A directory has one list of segments.
pub proof fn law_segment_list_is_unique(files: Map<Seq<char>, Seq<u8>>, dir: Seq<char>, a: Seq<u64>, b: Seq<u64>)
    requires
        lists_segments(files, dir, a),
        lists_segments(files, dir, b),
    ensures
        a == b,
{
    assert forall|n: u64| #[trigger] a.contains(n) <==> b.contains(n) by {
        assert(a.contains(n) <==> has_segment(files, dir, n));
        assert(b.contains(n) <==> has_segment(files, dir, n));
    }
    lemma_ascending_unique(a, b);
}

proof fn lemma_ascending_unique(a: Seq<u64>, b: Seq<u64>)
    requires
        forall|i: int, j: int| 0 <= i < j < a.len() ==> #[trigger] a[i] < #[trigger] a[j],
        forall|i: int, j: int| 0 <= i < j < b.len() ==> #[trigger] b[i] < #[trigger] b[j],
        forall|n: u64| #[trigger] a.contains(n) <==> b.contains(n),
    ensures
        a == b,
    decreases a.len(),
{
    if a.len() == 0 {
        if b.len() > 0 {
            assert(b.contains(b[0]));
            assert(a.contains(b[0]));
        }
        assert(a =~= b);
    } else {
        let m = a.len() - 1;
        assert(a.contains(a[m]));
        assert(b.contains(a[m]));
        let n = b.len() - 1;
        assert(b.contains(b[n]));
        assert(a.contains(b[n]));
        let i = choose|i: int| 0 <= i < a.len() && a[i] == b[n];
        let j = choose|j: int| 0 <= j < b.len() && b[j] == a[m];
        assert(a[m] == b[n]) by {
            if i < m && j < n {
                assert(a[i] < a[m] && b[j] < b[n]);
            }
        }
        let x = a.drop_last();
        let y = b.drop_last();
        assert forall|k: u64| #[trigger] x.contains(k) <==> y.contains(k) by {
            if x.contains(k) {
                let p = choose|p: int| 0 <= p < x.len() && x[p] == k;
                assert(a[p] == k && a[p] < a[m]);
                assert(a.contains(k));
                let q = choose|q: int| 0 <= q < b.len() && b[q] == k;
                assert(y[q] == k);
            }
            if y.contains(k) {
                let p = choose|p: int| 0 <= p < y.len() && y[p] == k;
                assert(b[p] == k && b[p] < b[n]);
                assert(b.contains(k));
                assert(a.contains(k));
                let q = choose|q: int| 0 <= q < a.len() && a[q] == k;
                assert(x[q] == k);
            }
        }
        lemma_ascending_unique(x, y);
        assert(a =~= x.push(a[m]));
        assert(b =~= y.push(b[n]));
    }
}

fn segment_path(dir: &str, number: u64) -> (path: String)
    ensures
        path@ == segment_path_spec(dir@, number as nat),
{
    let name = segment::segment_name(number);
    io::join(dir, name.as_str())
}

/// Segment names have no directory part.
proof fn lemma_name_is_plain(number: u64)
    ensures
        !segment::segment_name_spec(number as nat).contains('/'),
{
    reveal_strlit(".wal");
    assert(text::pow10(20) == 100_000_000_000_000_000_000) by {
        reveal_with_fuel(text::pow10, 21);
    }
    text::lemma_padded(number as nat, 20);
    let name = segment::segment_name_spec(number as nat);
    let digits = text::padded(number as nat, 20);
    assert forall|i: int| 0 <= i < name.len() implies name[i] != '/' by {
        if i < 20 {
            assert(name[i] == digits[i]);
            assert(text::is_digit(digits[i]));
        }
    }
}

/// Different segments have different paths.
pub proof fn lemma_paths_differ(dir: Seq<char>, a: u64, b: u64)
    requires
        segment_path_spec(dir, a as nat) == segment_path_spec(dir, b as nat),
    ensures
        a == b,
{
    io::lemma_join_injective(dir, segment::segment_name_spec(a as nat), segment::segment_name_spec(b as nat));
    segment::law_segment_names_round_trip(a);
    segment::law_segment_names_round_trip(b);
}

/// Puts a number in its place in an ascending list.
fn insert_ascending(numbers: &mut Vec<u64>, n: u64)
    requires
        forall|i: int, j: int| 0 <= i < j < old(numbers)@.len() ==> #[trigger] old(numbers)@[i] < #[trigger] old(numbers)@[j],
        !old(numbers)@.contains(n),
    ensures
        forall|i: int, j: int|
            0 <= i < j < final(numbers)@.len() ==> #[trigger] final(numbers)@[i] < #[trigger] final(numbers)@[j],
        forall|m: u64| #[trigger] final(numbers)@.contains(m) <==> m == n || old(numbers)@.contains(m),
{
    let ghost before = numbers@;
    let mut pos: usize = numbers.len();
    while pos > 0 && numbers[pos - 1] > n
        invariant
            pos <= numbers@.len(),
            numbers@ == before,
            forall|j: int| pos <= j < numbers@.len() ==> numbers@[j] > n,
        decreases pos,
    {
        pos = pos - 1;
    }
    proof {
        if pos > 0 {
            assert(before.contains(before[pos - 1]));
        }
        assert forall|j: int| 0 <= j < pos implies before[j] < n by {
            if j < pos - 1 {
                assert(before[j] < before[pos - 1]);
            }
        }
    }
    numbers.insert(pos, n);
    proof {
        let after = numbers@;
        assert(after =~= before.insert(pos as int, n));
        assert forall|m: u64| #[trigger] after.contains(m) <==> m == n || before.contains(m) by {
            if before.contains(m) {
                let j = choose|j: int| 0 <= j < before.len() && before[j] == m;
                if j < pos {
                    assert(after[j] == m);
                } else {
                    assert(after[j + 1] == m);
                }
            }
            if m == n {
                assert(after[pos as int] == m);
            }
            if after.contains(m) && m != n {
                let j = choose|j: int| 0 <= j < after.len() && after[j] == m;
                if j < pos {
                    assert(before[j] == m);
                } else {
                    assert(before[j - 1] == m);
                }
            }
        }
        assert forall|i: int, j: int| 0 <= i < j < after.len() implies #[trigger] after[i] < #[trigger] after[j] by {
            let a = if i < pos {
                i
            } else {
                i - 1
            };
            let b = if j < pos {
                j
            } else {
                j - 1
            };
            if i != pos && j != pos {
                assert(before[a] < before[b]);
            }
        }
    }
}

/// The numbers of the segments of a directory, in ascending order. It fails only if the directory is not
/// there or the file system fails.
fn segment_numbers<Fs: FileSystem>(fs: &Fs, dir: &str) -> (r: Result<Vec<u64>>)
    ensures
        r matches Ok(numbers) ==> fs.dirs().contains(dir@) && lists_segments(fs.files(), dir@, numbers@),
        fs.reliable() && fs.dirs().contains(dir@) ==> r is Ok,
{
    let names = fs.read_dir_names(dir)?;
    let mut numbers: Vec<u64> = Vec::new();
    let mut i: usize = 0;
    while i < names.len()
        invariant
            i <= names@.len(),
            forall|k: int|
                0 <= k < names@.len() ==> fs.files().dom().contains(io::join_spec(dir@, (#[trigger] names@[k])@)),
            forall|a: int, b: int| 0 <= a < b < names@.len() ==> (#[trigger] names@[a])@ != (#[trigger] names@[b])@,
            forall|a: int, b: int| 0 <= a < b < numbers@.len() ==> #[trigger] numbers@[a] < #[trigger] numbers@[b],
            forall|n: u64| #[trigger]
                numbers@.contains(n) <==> exists|k: int|
                    0 <= k < i && segment::parse_name((#[trigger] names@[k])@) == Some(n),
        decreases names@.len() - i,
    {
        let ghost before = numbers@;
        match segment::parse_segment_name(names[i].as_str()) {
            Some(n) => {
                proof {
                    if before.contains(n) {
                        let k = choose|k: int| 0 <= k < i && segment::parse_name((#[trigger] names@[k])@) == Some(n);
                        segment::law_segment_names_are_unique(names@[k]@);
                        segment::law_segment_names_are_unique(names@[i as int]@);
                        assert(names@[k]@ != names@[i as int]@);
                    }
                }
                insert_ascending(&mut numbers, n);
                proof {
                    assert forall|m: u64| #[trigger] numbers@.contains(m) <==> exists|k: int|
                        0 <= k < i + 1 && segment::parse_name((#[trigger] names@[k])@) == Some(m) by {
                        if m == n {
                            assert(segment::parse_name(names@[i as int]@) == Some(m));
                        } else if before.contains(m) {
                            let k = choose|k: int|
                                0 <= k < i && segment::parse_name((#[trigger] names@[k])@) == Some(m);
                            assert(0 <= k < i + 1 && segment::parse_name(names@[k]@) == Some(m));
                        }
                    }
                }
            },
            None => {
                proof {
                    assert forall|m: u64| #[trigger] numbers@.contains(m) <==> exists|k: int|
                        0 <= k < i + 1 && segment::parse_name((#[trigger] names@[k])@) == Some(m) by {
                        if before.contains(m) {
                            let k = choose|k: int|
                                0 <= k < i && segment::parse_name((#[trigger] names@[k])@) == Some(m);
                            assert(0 <= k < i + 1 && segment::parse_name(names@[k]@) == Some(m));
                        }
                    }
                }
            },
        }
        i = i + 1;
    }
    proof {
        assert forall|n: u64| #[trigger] numbers@.contains(n) <==> has_segment(fs.files(), dir@, n) by {
            if numbers@.contains(n) {
                let k = choose|k: int| 0 <= k < i && segment::parse_name((#[trigger] names@[k])@) == Some(n);
                segment::law_segment_names_are_unique(names@[k]@);
            }
            if has_segment(fs.files(), dir@, n) {
                let name = segment::segment_name_spec(n as nat);
                lemma_name_is_plain(n);
                assert(fs.files().dom().contains(io::join_spec(dir@, name)));
                let k = choose|k: int| 0 <= k < names@.len() && (#[trigger] names@[k])@ == name;
                segment::law_segment_names_round_trip(n);
                assert(segment::parse_name(names@[k]@) == Some(n));
            }
        }
    }
    Ok(numbers)
}

/// Reads the log back.
#[derive(Debug)]
pub struct WalReader<Fs: FileSystem> {
    dir: String,
    fs: Fs,
    config: WalConfig,
}

/// What a report says.
pub open spec fn scan_view(report: WalScanReport) -> ScanView {
    ScanView { records: record::record_views(report.records@), torn: report.torn_tail }
}

impl<Fs: FileSystem> WalReader<Fs> {
    pub closed spec fn spec_dir(self) -> Seq<char> {
        self.dir@
    }

    pub closed spec fn spec_fs(self) -> Fs {
        self.fs
    }

    pub closed spec fn spec_config(self) -> WalConfig {
        self.config
    }

    pub fn new_with_fs(dir: &str, config: WalConfig, fs: Fs) -> (reader: WalReader<Fs>)
        ensures
            reader.spec_dir() == dir@,
            reader.spec_config() == config,
            reader.spec_fs() == fs,
    {
        WalReader { dir: String::from_str(dir), fs, config }
    }

    /// The records of the log.
    pub fn scan(&self) -> (r: Result<Vec<WalRecord>>)
        ensures
            r matches Ok(records) ==> exists|numbers: Seq<u64>| #[trigger]
                lists_segments(self.spec_fs().files(), self.spec_dir(), numbers) && (scan::scan_all(
                    segment_views(self.spec_fs().files(), self.spec_dir(), numbers),
                    self.spec_config().segment_bytes,
                ) matches Ok(found) && found.records == record::record_views(records@)),
            self.spec_config().problem() matches Some(e) ==> r == Err::<Vec<WalRecord>, Error>(e),
            r is Ok ==> self.spec_fs().dirs().contains(self.spec_dir()),
            self.spec_fs().reliable() && self.spec_fs().dirs().contains(self.spec_dir()) && directory_fits(
                self.spec_fs().files(),
                self.spec_dir(),
            ) && self.spec_config().problem() is None ==> (r matches Err(e) ==> scan_fails(
                self.spec_fs().files(),
                self.spec_dir(),
                self.spec_config().segment_bytes,
                e,
            )),
    {
        let report = self.scan_report()?;
        Ok(report.records)
    }

    /// The records of the log, where they end, and whether the log ends in the middle of one.
    pub fn scan_report(&self) -> (r: Result<WalScanReport>)
        ensures
            r matches Ok(report) ==> {
                &&& exists|numbers: Seq<u64>| #[trigger]
                    lists_segments(self.spec_fs().files(), self.spec_dir(), numbers) && scan::scan_all(
                        segment_views(self.spec_fs().files(), self.spec_dir(), numbers),
                        self.spec_config().segment_bytes,
                    ) == Ok::<ScanView, Error>(scan_view(report))
                &&& report.valid_end_lsn.0 == scan::end_lsn(record::record_views(report.records@))
            },
            self.spec_config().problem() matches Some(e) ==> r == Err::<WalScanReport, Error>(e),
            r is Ok ==> self.spec_fs().dirs().contains(self.spec_dir()),
            self.spec_fs().reliable() && self.spec_fs().dirs().contains(self.spec_dir()) && directory_fits(
                self.spec_fs().files(),
                self.spec_dir(),
            ) && self.spec_config().problem() is None ==> (r matches Err(e) ==> scan_fails(
                self.spec_fs().files(),
                self.spec_dir(),
                self.spec_config().segment_bytes,
                e,
            )),
    {
        self.config.validate()?;
        let numbers = segment_numbers(&self.fs, self.dir.as_str())?;
        proof {
            if directory_fits(self.fs.files(), self.dir@) {
                assert forall|i: int| 0 <= i < numbers@.len() implies has_segment(
                    self.fs.files(),
                    self.dir@,
                    #[trigger] numbers@[i],
                ) && self.fs.files()[segment_path_spec(self.dir@, numbers@[i] as nat)].len() <= usize::MAX by {
                    assert(numbers@.contains(numbers@[i]));
                }
            }
        }
        let (records, torn_tail) = self.read_segments(&numbers)?;
        let valid_end_lsn = scan::end_of_records(&records)?;
        Ok(WalScanReport { records, valid_end_lsn, torn_tail })
    }

    /// The records of some segments, and whether the last one ends in the middle of one. On a
    /// reliable file system it fails if a segment is missing or too large, and else as the scan of
    /// what the segments hold does.
    fn read_segments(&self, numbers: &Vec<u64>) -> (r: Result<(Vec<WalRecord>, bool)>)
        ensures
            r matches Ok((records, torn)) ==> {
                &&& segments_fit(self.spec_fs().files(), self.spec_dir(), numbers@)
                &&& scan::scan_all(
                    segment_views(self.spec_fs().files(), self.spec_dir(), numbers@),
                    self.spec_config().segment_bytes,
                ) == Ok::<ScanView, Error>(ScanView { records: record::record_views(records@), torn })
            },
            self.spec_fs().reliable() && segments_fit(self.spec_fs().files(), self.spec_dir(), numbers@) ==> (
            r matches Err(e) ==> scan::scan_all(
                segment_views(self.spec_fs().files(), self.spec_dir(), numbers@),
                self.spec_config().segment_bytes,
            ) == Err::<ScanView, Error>(e)),
    {
        let ghost files = self.fs.files();
        let ghost views = segment_views(files, self.dir@, numbers@);
        let segment_bytes: u64 = self.config.segment_bytes;
        let mut records: Vec<WalRecord> = Vec::new();
        let mut torn = false;
        let mut i: usize = 0;
        proof {
            assert(record::record_views(records@) =~= Seq::empty());
            assert(views.subrange(0, views.len() as int) =~= views);
            let whole = scan::scan_all(views, segment_bytes);
            assert(whole matches Ok(w) ==> Seq::<RecordView>::empty() + w.records =~= w.records);
        }
        while i < numbers.len()
            invariant
                i <= numbers@.len(),
                files == self.fs.files(),
                segment_bytes == self.config.segment_bytes,
                views == segment_views(files, self.dir@, numbers@),
                torn ==> i == numbers@.len(),
                segments_fit(files, self.dir@, numbers@.subrange(0, i as int)),
                scan::scan_all(views, segment_bytes) == (match scan::scan_all(
                    views.subrange(i as int, views.len() as int),
                    segment_bytes,
                ) {
                    Err(e) => Err(e),
                    Ok(rest) => Ok(
                        ScanView {
                            records: record::record_views(records@) + rest.records,
                            torn: torn || rest.torn,
                        },
                    ),
                }),
            decreases numbers@.len() - i,
        {
            let last = i + 1 == numbers.len();
            let path = segment_path(self.dir.as_str(), numbers[i]);
            let len: u64 = self.fs.file_len(path.as_str())?;
            if len > usize::MAX as u64 {
                return Err(Error::CorruptWal("segment too large"));
            }
            proof {
                assert forall|j: int| 0 <= j < i + 1 implies has_segment(
                    files,
                    self.dir@,
                    #[trigger] numbers@.subrange(0, i + 1)[j],
                ) && files[segment_path_spec(self.dir@, numbers@.subrange(0, i + 1)[j] as nat)].len() <= usize::MAX by {
                    if j < i {
                        assert(numbers@.subrange(0, i as int)[j] == numbers@.subrange(0, i + 1)[j]);
                    }
                }
            }
            let content: Vec<u8> = self.fs.read_exact_at(path.as_str(), 0, len as usize)?;
            let ghost before = record::record_views(records@);
            let ghost here = views.subrange(i as int, views.len() as int);
            let ghost after = views.subrange(i + 1, views.len() as int);
            proof {
                assert(here.drop_first() =~= after);
                assert(here[0] == views[i as int]);
                assert(content@ =~= files[path@]);
            }
            let ended_torn = scan::read_segment(content.as_slice(), numbers[i], last, segment_bytes, &mut records)?;
            proof {
                let found = scan::scan_segment(content@, numbers@[i as int], last, segment_bytes, 0)->Ok_0;
                let rest = scan::scan_all(after, segment_bytes);
                assert(rest matches Ok(w) ==> before + (found.records + w.records) =~= record::record_views(records@)
                    + w.records);
                if !last {
                    lemma_only_last_is_torn(content@, numbers@[i as int], segment_bytes, 0);
                }
            }
            torn = ended_torn;
            i = i + 1;
        }
        proof {
            assert(numbers@.subrange(0, i as int) =~= numbers@);
            assert(views.subrange(i as int, views.len() as int) =~= Seq::empty());
            assert(record::record_views(records@) + Seq::<RecordView>::empty() =~= record::record_views(records@));
        }
        Ok((records, torn))
    }

    pub fn into_fs(self) -> (fs: Fs)
        ensures
            fs == self.spec_fs(),
    {
        self.fs
    }
}

/// Only the last segment may end in the middle of a record.
pub proof fn lemma_only_last_is_torn(content: Seq<u8>, number: u64, segment_bytes: u64, offset: int)
    ensures
        scan::scan_segment(content, number, false, segment_bytes, offset) matches Ok(found) ==> !found.torn,
    decreases content.len() - offset,
{
    reveal(scan::scan_segment);
    if offset < content.len() && content.len() - offset >= WAL_HEADER_LEN {
        let len = WAL_HEADER_LEN + crate::wal::payload::field(content, offset + 12, 4);
        if content.len() - offset >= len {
            lemma_only_last_is_torn(content, number, segment_bytes, offset + len);
        }
    }
}

/// Where a log stands.
#[verifier::ext_equal]
pub struct LogView {
    pub dir: Seq<char>,
    pub segment_bytes: u64,
    pub active_segment: u64,
    pub active_offset: u64,
    pub written: Lsn,
    pub durable: Lsn,
    pub prev: Lsn,
}

/// The files after a file is opened that may not be there yet.
pub open spec fn with_file(files: Map<Seq<char>, Seq<u8>>, path: Seq<char>) -> Map<Seq<char>, Seq<u8>> {
    if files.dom().contains(path) {
        files
    } else {
        files.insert(path, Seq::empty())
    }
}

/// Whether all files but two stayed as they were.
pub open spec fn kept_but(
    before: Map<Seq<char>, Seq<u8>>,
    after: Map<Seq<char>, Seq<u8>>,
    a: Seq<char>,
    b: Seq<char>,
) -> bool {
    forall|path: Seq<char>|
        path != a && path != b ==> {
            &&& #[trigger] after.dom().contains(path) <==> before.dom().contains(path)
            &&& after[path] == before[path]
        }
}

/// Touching one of the two files keeps the others.
proof fn lemma_kept_touched(
    before: Map<Seq<char>, Seq<u8>>,
    files: Map<Seq<char>, Seq<u8>>,
    after: Map<Seq<char>, Seq<u8>>,
    a: Seq<char>,
    b: Seq<char>,
    at: Seq<char>,
)
    requires
        kept_but(before, files, a, b),
        at == a || at == b,
        after.remove(at) == files.remove(at),
    ensures
        kept_but(before, after, a, b),
{
    assert forall|path: Seq<char>| path != a && path != b implies {
        &&& #[trigger] after.dom().contains(path) <==> before.dom().contains(path)
        &&& after[path] == before[path]
    } by {
        assert(files.dom().contains(path) <==> before.dom().contains(path));
        assert(files.remove(at).dom().contains(path) <==> files.dom().contains(path));
        assert(after.remove(at).dom().contains(path) <==> after.dom().contains(path));
        assert(files.remove(at)[path] == files[path]);
        assert(after.remove(at)[path] == after[path]);
    }
}

impl LogView {
    /// The position of the next byte.
    pub open spec fn at(self) -> int {
        segment::position(self.active_segment as int, self.active_offset as int, self.segment_bytes as int)
    }

    /// The path of the segment that is written.
    pub open spec fn path(self) -> Seq<char> {
        segment_path_spec(self.dir, self.active_segment as nat)
    }

    /// The start of the next segment.
    pub open spec fn rotated(self) -> LogView {
        LogView { active_segment: (self.active_segment + 1) as u64, active_offset: 0, ..self }
    }

    /// Whether a record of this length has to go to the next segment.
    pub open spec fn is_full(self, len: int) -> bool {
        self.active_offset > 0 && self.active_offset + len > self.segment_bytes
    }

    /// Where a record of this length goes.
    pub open spec fn placed(self, len: int) -> LogView {
        if self.is_full(len) {
            self.rotated()
        } else {
            self
        }
    }

    /// Where the log stands after a record of this length.
    pub open spec fn advanced(self, len: int) -> LogView {
        LogView {
            active_offset: (self.active_offset + len) as u64,
            written: Lsn((self.at() + len) as u64),
            prev: Lsn(self.at() as u64),
            ..self
        }
    }

    pub open spec fn wf(self) -> bool {
        self.segment_bytes >= WAL_HEADER_LEN && self.active_segment >= 1
    }

    /// Whether positions for one more record can be counted.
    pub open spec fn has_room(self, len: int) -> bool {
        &&& self.active_segment * self.segment_bytes + self.segment_bytes <= u64::MAX
        &&& self.at() + len <= u64::MAX
        &&& self.active_offset + len <= u64::MAX
    }

    /// The record that an append makes.
    pub open spec fn next_record(self, kind: WalRecordKind, tx_id: TxId, payload: Seq<u8>) -> RecordView {
        RecordView {
            lsn: Lsn(self.placed((WAL_HEADER_LEN + payload.len()) as int).at() as u64),
            prev_lsn: self.prev,
            tx_id,
            kind,
            payload,
        }
    }

    /// The files after bytes are written at the end of the log.
    pub open spec fn files_after(self, files: Map<Seq<char>, Seq<u8>>, frame: Seq<u8>) -> Map<Seq<char>, Seq<u8>> {
        let place = self.placed(frame.len() as int);
        let opened = if self.is_full(frame.len() as int) {
            with_file(files, place.path())
        } else {
            files
        };
        opened.insert(place.path(), io::overwritten(opened[place.path()], place.active_offset as int, frame))
    }
}

/// Writes the log.
#[derive(Debug)]
pub struct WalManager<Fs: FileSystem> {
    dir: String,
    fs: Fs,
    config: WalConfig,
    active_segment: u64,
    active_offset: u64,
    written_lsn: Lsn,
    durable_lsn: Lsn,
    prev_lsn: Lsn,
}

impl<Fs: FileSystem> View for WalManager<Fs> {
    type V = LogView;

    closed spec fn view(&self) -> LogView {
        LogView {
            dir: self.dir@,
            segment_bytes: self.config.segment_bytes,
            active_segment: self.active_segment,
            active_offset: self.active_offset,
            written: self.written_lsn,
            durable: self.durable_lsn,
            prev: self.prev_lsn,
        }
    }
}

/// Positions in the active segment and the next can be counted.
pub proof fn lemma_room(v: LogView)
    requires
        v.wf(),
        v.active_segment * v.segment_bytes + v.segment_bytes <= u64::MAX,
    ensures
        0 <= (v.active_segment - 1) * v.segment_bytes <= u64::MAX,
        (v.active_segment - 1) * v.segment_bytes + v.segment_bytes == v.active_segment * v.segment_bytes,
        v.active_segment < u64::MAX,
        v.rotated().at() == v.active_segment * v.segment_bytes,
{
    let a = v.active_segment as int;
    let b = v.segment_bytes as int;
    assert((a - 1) * b + b == a * b) by (nonlinear_arith);
    assert(0 <= (a - 1) * b) by (nonlinear_arith)
        requires
            a >= 1,
            b >= 0,
    ;
    assert(a * b >= a) by (nonlinear_arith)
        requires
            b >= 1,
            a >= 1,
    ;
    assert((a + 1 - 1) * b == a * b);
}

impl<Fs: FileSystem> WalManager<Fs> {
    pub closed spec fn spec_fs(self) -> Fs {
        self.fs
    }

    pub closed spec fn spec_config(self) -> WalConfig {
        self.config
    }

    pub closed spec fn wf(self) -> bool {
        self@.wf() && self.config.problem() is None
    }

    /// What well-formedness says.
    pub proof fn lemma_wf(self)
        requires
            self.wf(),
        ensures
            self@.wf(),
            self@.segment_bytes == self.spec_config().segment_bytes,
            self.spec_config().problem() is None,
    {
    }

    /// An empty log in a directory, which is made if it is not there. Settings that are refused leave the
    /// file system alone.
    pub fn create_with_fs(dir: &str, config: WalConfig, fs: Fs) -> (r: std::result::Result<WalManager<Fs>, Refused<Fs>>)
        ensures
            match r {
                Ok(wal) => {
                    &&& config.problem() is None
                    &&& wal.wf()
                    &&& wal@ == (LogView {
                        dir: dir@,
                        segment_bytes: config.segment_bytes,
                        active_segment: 1,
                        active_offset: 0,
                        written: Lsn(0),
                        durable: Lsn(0),
                        prev: Lsn(0),
                    })
                    &&& wal.spec_config() == config
                    &&& wal.spec_fs().dirs().contains(dir@)
                    &&& fs.dirs().subset_of(wal.spec_fs().dirs())
                    &&& wal.spec_fs().files() == with_file(fs.files(), segment_path_spec(dir@, 1))
                    &&& wal.spec_fs().synced() == fs.synced()
                    &&& fs.reliable() ==> wal.spec_fs().reliable()
                },
                Err(refused) => match config.problem() {
                    Some(problem) => refused.error == problem && refused.fs == fs,
                    None => {
                        let path = segment_path_spec(dir@, 1);
                        &&& !fs.reliable()
                        &&& refused.fs.files().remove(path) == fs.files().remove(path)
                        &&& refused.fs.synced() == fs.synced()
                    },
                },
            },
    {
        if let Err(error) = config.validate() {
            return Err(Refused { error, fs });
        }
        let mut fs = fs;
        if let Err(error) = fs.create_dir_all(dir) {
            return Err(Refused { error, fs });
        }
        let path = segment_path(dir, 1);
        if let Err(error) = fs.open_rw_create(path.as_str()) {
            return Err(Refused { error, fs });
        }
        Ok(
            WalManager {
                dir: String::from_str(dir),
                fs,
                config,
                active_segment: 1,
                active_offset: 0,
                written_lsn: Lsn(0),
                durable_lsn: Lsn(0),
                prev_lsn: Lsn(0),
            },
        )
    }

    /// The log of a directory, which is made if it is not there, ready to be continued behind its last
    /// record. What follows that record in its segment is cut off. Settings that are refused leave the
    /// file system alone, and a log that cannot be read leaves all files as they are.
    pub fn open_with_fs(dir: &str, config: WalConfig, fs: Fs) -> (r: std::result::Result<WalManager<Fs>, Refused<Fs>>)
        ensures
            match r {
                Ok(wal) => {
                    &&& config.problem() is None
                    &&& wal.wf()
                    &&& wal.spec_config() == config
                    &&& wal.spec_fs().dirs().contains(dir@)
                    &&& fs.dirs().subset_of(wal.spec_fs().dirs())
                    &&& wal.spec_fs().synced() == fs.synced()
                    &&& exists|numbers: Seq<u64>| #[trigger]
                        lists_segments(fs.files(), dir@, numbers) && opened_from(
                            fs.files(),
                            numbers,
                            dir@,
                            config.segment_bytes,
                            wal@,
                        )
                    &&& wal.spec_fs().files() == files_opened(fs.files(), wal@)
                    &&& fs.reliable() ==> wal.spec_fs().reliable()
                },
                Err(refused) => match config.problem() {
                    Some(problem) => refused.error == problem && refused.fs == fs,
                    None => {
                        &&& refused.fs.synced() == fs.synced()
                        &&& fs.reliable() && directory_fits(fs.files(), dir@) && config.segment_bytes <= usize::MAX ==> {
                            &&& scan_fails(fs.files(), dir@, config.segment_bytes, refused.error)
                            &&& refused.fs.files() == fs.files()
                        }
                    },
                },
            },
    {
        if let Err(error) = config.validate() {
            return Err(Refused { error, fs });
        }
        let mut fs = fs;
        let ghost before = fs.files();
        if let Err(error) = fs.create_dir_all(dir) {
            return Err(Refused { error, fs });
        }
        let reader = WalReader::new_with_fs(dir, config, fs);
        let report = match reader.scan_report() {
            Ok(report) => report,
            Err(error) => {
                return Err(Refused { error, fs: reader.into_fs() });
            },
        };
        let mut fs = reader.into_fs();
        let count: usize = report.records.len();
        let prev_lsn = if count == 0 {
            Lsn(0)
        } else {
            report.records[count - 1].lsn
        };
        let written_lsn = report.valid_end_lsn;
        let active_segment: u64 = segment::segment_for_lsn(written_lsn, config.segment_bytes);
        let active_offset: u64 = segment::offset_for_lsn(written_lsn, config.segment_bytes);
        let path = segment_path(dir, active_segment);
        proof {
            segment::law_position_of_lsn(written_lsn.0 as int, config.segment_bytes as int);
        }
        if let Err(error) = fs.open_rw_create(path.as_str()) {
            return Err(Refused { error, fs });
        }
        if let Err(error) = fs.set_len(path.as_str(), active_offset) {
            return Err(Refused { error, fs });
        }
        let wal = WalManager {
            dir: String::from_str(dir),
            fs,
            config,
            active_segment,
            active_offset,
            written_lsn,
            durable_lsn: Lsn(0),
            prev_lsn,
        };
        proof {
            let found = scan_view(report);
            let numbers = choose|numbers: Seq<u64>| #[trigger]
                lists_segments(before, dir@, numbers) && scan::scan_all(
                    segment_views(before, dir@, numbers),
                    config.segment_bytes,
                ) == Ok::<ScanView, Error>(found);
            assert(lists_segments(before, dir@, numbers));
            assert(opened_from(before, numbers, dir@, config.segment_bytes, wal@));
        }
        Ok(wal)
    }

    fn here(&self) -> (lsn: Lsn)
        requires
            self.wf(),
            self@.has_room(0),
        ensures
            lsn.0 == self@.at(),
    {
        proof {
            lemma_room(self@);
        }
        Lsn((self.active_segment - 1) * self.config.segment_bytes + self.active_offset)
    }

    /// Goes on to the next segment. The one before it is made durable first. On a reliable file
    /// system it fails only if that one is gone.
    fn rotate_segment(&mut self) -> (r: Result<()>)
        requires
            old(self).wf(),
            old(self)@.has_room(0),
        ensures
            final(self).wf(),
            final(self).spec_config() == old(self).spec_config(),
            final(self)@.written == old(self)@.written,
            final(self)@.durable == old(self)@.durable,
            final(self)@.prev == old(self)@.prev,
            final(self)@.dir == old(self)@.dir,
            r is Ok ==> {
                &&& final(self)@ == old(self)@.rotated()
                &&& old(self).spec_fs().files().dom().contains(old(self)@.path())
                &&& final(self).spec_fs().files() == with_file(
                    old(self).spec_fs().files(),
                    old(self)@.rotated().path(),
                )
                &&& final(self).spec_fs().synced() == old(self).spec_fs().synced().insert(
                    old(self)@.path(),
                    old(self).spec_fs().files()[old(self)@.path()],
                )
            },
            r is Err ==> final(self).spec_fs().files().remove(old(self)@.rotated().path()) == old(self).spec_fs().files().remove(old(self)@.rotated().path()),
            r is Err ==> final(self)@ == old(self)@ || final(self)@ == old(self)@.rotated(),
            r is Err ==> final(self).spec_fs().synced().remove(old(self)@.path()) == old(self).spec_fs().synced().remove(
                old(self)@.path(),
            ),
            old(self).spec_fs().reliable() ==> final(self).spec_fs().reliable(),
            old(self).spec_fs().reliable() && old(self).spec_fs().files().dom().contains(old(self)@.path()) ==> r is Ok,
    {
        proof {
            lemma_room(self@);
        }
        let path = segment_path(self.dir.as_str(), self.active_segment);
        self.fs.sync_data(path.as_str())?;
        self.active_segment = self.active_segment + 1;
        self.active_offset = 0;
        let next = segment_path(self.dir.as_str(), self.active_segment);
        proof {
            assert(old(self).fs.synced().insert(path@, old(self).fs.files()[path@]).remove(path@)
                =~= old(self).fs.synced().remove(path@));
        }
        self.fs.open_rw_create(next.as_str())
    }

    fn reserve_append(&mut self, encoded_len: u64) -> (r: Result<WalAppend>)
        requires
            old(self).wf(),
            old(self)@.has_room(encoded_len as int),
        ensures
            final(self).wf(),
            final(self).spec_config() == old(self).spec_config(),
            final(self)@.written == old(self)@.written,
            final(self)@.durable == old(self)@.durable,
            final(self)@.prev == old(self)@.prev,
            final(self)@.dir == old(self)@.dir,
            encoded_len > old(self)@.segment_bytes ==> r == Err::<WalAppend, Error>(
                Error::CorruptWal("record larger than wal segment"),
            ) && final(self)@ == old(self)@ && final(self).spec_fs() == old(self).spec_fs(),
            r matches Ok(append) ==> {
                let place = old(self)@.placed(encoded_len as int);
                &&& encoded_len <= old(self)@.segment_bytes
                &&& final(self)@ == place
                &&& append.start_lsn.0 == place.at()
                &&& append.end_lsn.0 == place.at() + encoded_len
                &&& place.at() + encoded_len <= u64::MAX
                &&& place.active_offset + encoded_len <= u64::MAX
                &&& if old(self)@.is_full(encoded_len as int) {
                    &&& old(self).spec_fs().files().dom().contains(old(self)@.path())
                    &&& final(self).spec_fs().files() == with_file(old(self).spec_fs().files(), place.path())
                    &&& final(self).spec_fs().synced() == old(self).spec_fs().synced().insert(
                        old(self)@.path(),
                        old(self).spec_fs().files()[old(self)@.path()],
                    )
                } else {
                    final(self).spec_fs() == old(self).spec_fs()
                }
            },
            r is Err && encoded_len <= old(self)@.segment_bytes ==> old(self)@.is_full(encoded_len as int),
            r is Err ==> final(self)@ == old(self)@ || final(self)@ == old(self)@.rotated(),
            r is Err ==> final(self).spec_fs().synced().remove(old(self)@.path()) == old(self).spec_fs().synced().remove(
                old(self)@.path(),
            ),
            old(self).spec_fs().reliable() ==> final(self).spec_fs().reliable(),
            old(self).spec_fs().reliable() && old(self).spec_fs().files().dom().contains(old(self)@.path())
                && encoded_len <= old(self)@.segment_bytes ==> r is Ok,
            r is Err ==> final(self).spec_fs().files().remove(old(self)@.rotated().path()) == old(self).spec_fs().files().remove(old(self)@.rotated().path()),
    {
        if encoded_len > self.config.segment_bytes {
            return Err(Error::CorruptWal("record larger than wal segment"));
        }
        proof {
            lemma_room(self@);
        }
        if self.active_offset > 0 && self.active_offset + encoded_len > self.config.segment_bytes {
            self.rotate_segment()?;
            proof {
                assert(self@.at() == old(self)@.active_segment * old(self)@.segment_bytes);
            }
            let start: u64 = (self.active_segment - 1) * self.config.segment_bytes;
            return Ok(WalAppend { start_lsn: Lsn(start), end_lsn: Lsn(start + encoded_len) });
        }
        let lsn = self.here();
        Ok(WalAppend { start_lsn: lsn, end_lsn: Lsn(lsn.0 + encoded_len) })
    }

    /// Whether positions for one more record of this length can be counted.
    pub fn has_room(&self, len: usize) -> (room: bool)
        requires
            self.wf(),
        ensures
            room == self@.has_room(len as int),
    {
        let next: u64 = match self.active_segment.checked_mul(self.config.segment_bytes) {
            Some(next) => next,
            None => return false,
        };
        proof {
            let s = self.active_segment as int;
            let b = self.config.segment_bytes as int;
            assert((s - 1) * b == s * b - b) by (nonlinear_arith);
        }
        match next.checked_add(self.config.segment_bytes) {
            None => false,
            Some(_) => match self.active_offset.checked_add(len as u64) {
                None => false,
                Some(end) => (next - self.config.segment_bytes).checked_add(end).is_some(),
            },
        }
    }

    /// Writes a record where its positions say.
    pub fn write_encoded(&mut self, append: WalAppend, encoded: &[u8]) -> (r: Result<()>)
        requires
            old(self).wf(),
            old(self)@.has_room(encoded@.len() as int),
        ensures
            final(self).wf(),
            final(self).spec_config() == old(self).spec_config(),
            final(self)@.dir == old(self)@.dir,
            final(self)@.durable == old(self)@.durable,
            encoded@.len() > old(self)@.segment_bytes ==> r == Err::<(), Error>(
                Error::CorruptWal("record larger than wal segment"),
            ) && final(self)@ == old(self)@ && final(self).spec_fs() == old(self).spec_fs(),
            encoded@.len() <= old(self)@.segment_bytes && append.start_lsn.0 != old(self)@.at() && !old(self)@.is_full(encoded@.len() as int) ==> r == Err::<(), Error>(
                Error::CorruptWal("record lsn does not match write position"),
            ) && final(self)@ == old(self)@ && final(self).spec_fs() == old(self).spec_fs(),
            r is Ok ==> {
                let len = encoded@.len() as int;
                let moved = append.start_lsn.0 != old(self)@.at() && old(self)@.is_full(len);
                let place = if moved {
                    old(self)@.rotated()
                } else {
                    old(self)@
                };
                let files = if moved {
                    with_file(old(self).spec_fs().files(), place.path())
                } else {
                    old(self).spec_fs().files()
                };
                &&& len <= old(self)@.segment_bytes
                &&& append.start_lsn.0 == place.at()
                &&& final(self)@ == (LogView {
                    active_offset: (place.active_offset + len) as u64,
                    written: append.end_lsn,
                    prev: append.start_lsn,
                    ..place
                })
                &&& files.dom().contains(place.path())
                &&& final(self).spec_fs().files() == files.insert(
                    place.path(),
                    io::overwritten(files[place.path()], place.active_offset as int, encoded@),
                )
                &&& final(self).spec_fs().synced() == if moved {
                    old(self).spec_fs().synced().insert(
                        old(self)@.path(),
                        old(self).spec_fs().files()[old(self)@.path()],
                    )
                } else {
                    old(self).spec_fs().synced()
                }
            },
            r is Err ==> final(self)@.written == old(self)@.written && final(self)@.prev == old(self)@.prev,
            r is Err ==> final(self)@ == old(self)@ || final(self)@ == old(self)@.rotated(),
            r is Err ==> kept_but(
                old(self).spec_fs().files(),
                final(self).spec_fs().files(),
                old(self)@.path(),
                old(self)@.rotated().path(),
            ),
            r is Err ==> final(self).spec_fs().synced().remove(old(self)@.path()) == old(self).spec_fs().synced().remove(
                old(self)@.path(),
            ),
            old(self).spec_fs().reliable() ==> final(self).spec_fs().reliable(),
            old(self).spec_fs().reliable() && old(self).spec_fs().files().dom().contains(old(self)@.path())
                && encoded@.len() <= old(self)@.segment_bytes ==> {
                let len = encoded@.len() as int;
                let place = if append.start_lsn.0 != old(self)@.at() && old(self)@.is_full(len) {
                    old(self)@.rotated()
                } else {
                    old(self)@
                };
                if append.start_lsn.0 != place.at() {
                    r == Err::<(), Error>(Error::CorruptWal("record lsn does not match write position"))
                } else {
                    place.active_offset + len <= usize::MAX ==> r is Ok
                }
            },
    {
        if encoded.len() as u64 > self.config.segment_bytes {
            return Err(Error::CorruptWal("record larger than wal segment"));
        }
        proof {
            lemma_room(self@);
        }
        let len: u64 = encoded.len() as u64;
        if self.here().0 != append.start_lsn.0 && self.active_offset > 0 && self.active_offset + len
            > self.config.segment_bytes {
            let rotated = self.rotate_segment();
            proof {
                let (a, b) = (old(self)@.path(), old(self)@.rotated().path());
                assert(self.fs.files().remove(b) =~= old(self).fs.files().remove(b));
                lemma_kept_touched(old(self).fs.files(), old(self).fs.files(), self.fs.files(), a, b, b);
            }
            rotated?;
            let start: u64 = (self.active_segment - 1) * self.config.segment_bytes;
            if start != append.start_lsn.0 {
                return Err(Error::CorruptWal("record lsn does not match write position"));
            }
        } else if self.here().0 != append.start_lsn.0 {
            return Err(Error::CorruptWal("record lsn does not match write position"));
        }
        let path = segment_path(self.dir.as_str(), self.active_segment);
        let ghost files = self.fs.files();
        let written = self.fs.write_all_at(path.as_str(), self.active_offset, encoded);
        proof {
            if written is Err {
                let (a, b) = (old(self)@.path(), old(self)@.rotated().path());
                lemma_kept_touched(old(self).fs.files(), files, self.fs.files(), a, b, path@);
            }
        }
        written?;
        self.active_offset = self.active_offset + len;
        self.written_lsn = append.end_lsn;
        self.prev_lsn = append.start_lsn;
        Ok(())
    }

    /// Appends a record behind the last one, in the next segment if the active one has no room.
    #[verifier::spinoff_prover]
    #[verifier::rlimit(40)]
    pub fn append(&mut self, kind: WalRecordKind, tx_id: TxId, payload: Vec<u8>) -> (r: Result<WalAppend>)
        requires
            old(self).wf(),
            old(self)@.has_room((WAL_HEADER_LEN + payload@.len()) as int),
        ensures
            final(self).wf(),
            final(self).spec_config() == old(self).spec_config(),
            final(self)@.dir == old(self)@.dir,
            final(self)@.durable == old(self)@.durable,
            WAL_HEADER_LEN + payload@.len() > old(self)@.segment_bytes ==> r == Err::<WalAppend, Error>(
                Error::CorruptWal("record larger than wal segment"),
            ) && final(self)@ == old(self)@ && final(self).spec_fs() == old(self).spec_fs(),
            r matches Ok(append) ==> {
                let len = (WAL_HEADER_LEN + payload@.len()) as int;
                let place = old(self)@.placed(len);
                let made = old(self)@.next_record(kind, tx_id, payload@);
                &&& len <= old(self)@.segment_bytes
                &&& payload@.len() <= u32::MAX
                &&& append.start_lsn.0 == place.at()
                &&& append.end_lsn.0 == place.at() + len
                &&& final(self)@ == place.advanced(len)
                &&& final(self).spec_fs().files() == old(self)@.files_after(
                    old(self).spec_fs().files(),
                    made.frame(),
                )
                &&& old(self)@.is_full(len) ==> final(self).spec_fs().synced() == old(self).spec_fs().synced().insert(
                    old(self)@.path(),
                    old(self).spec_fs().files()[old(self)@.path()],
                )
                &&& !old(self)@.is_full(len) ==> final(self).spec_fs().synced() == old(self).spec_fs().synced()
            },
            r is Err ==> final(self)@.written == old(self)@.written && final(self)@.prev == old(self)@.prev,
            r is Err ==> final(self)@ == old(self)@ || final(self)@ == old(self)@.rotated(),
            r is Err ==> kept_but(
                old(self).spec_fs().files(),
                final(self).spec_fs().files(),
                old(self)@.path(),
                old(self)@.rotated().path(),
            ),
            r is Err ==> final(self).spec_fs().synced().remove(old(self)@.path()) == old(self).spec_fs().synced().remove(
                old(self)@.path(),
            ),
            old(self).spec_fs().reliable() ==> final(self).spec_fs().reliable(),
            old(self).spec_fs().reliable() && old(self).spec_fs().files().dom().contains(old(self)@.path())
                && WAL_HEADER_LEN + payload@.len() <= old(self)@.segment_bytes ==> {
                let len = (WAL_HEADER_LEN + payload@.len()) as int;
                if payload@.len() > u32::MAX {
                    r == Err::<WalAppend, Error>(Error::CorruptWal("record payload too large"))
                } else {
                    old(self)@.placed(len).active_offset + len <= usize::MAX ==> r is Ok
                }
            },
    {
        let encoded_len: u64 = match (payload.len() as u64).checked_add(WAL_HEADER_LEN as u64) {
            Some(len) => len,
            None => return Err(Error::CorruptWal("record length overflow")),
        };
        let reserved = self.reserve_append(encoded_len);
        proof {
            let (a, b) = (old(self)@.path(), old(self)@.rotated().path());
            assert(self.fs.files().remove(b) =~= old(self).fs.files().remove(b));
            lemma_kept_touched(old(self).fs.files(), old(self).fs.files(), self.fs.files(), a, b, b);
        }
        let append = reserved?;
        let ghost place = self@;
        let record = WalRecord { lsn: append.start_lsn, prev_lsn: self.prev_lsn, tx_id, kind, payload };
        let encoded: Vec<u8> = record.encode()?;
        proof {
            record::lemma_frame_len(record@);
            assert(record@ =~= old(self)@.next_record(kind, tx_id, payload@));
        }
        let path = segment_path(self.dir.as_str(), self.active_segment);
        let ghost files = self.fs.files();
        let written = self.fs.write_all_at(path.as_str(), self.active_offset, encoded.as_slice());
        proof {
            if written is Err {
                let (a, b) = (old(self)@.path(), old(self)@.rotated().path());
                lemma_kept_touched(old(self).fs.files(), files, self.fs.files(), a, b, path@);
            }
        }
        written?;
        self.active_offset = self.active_offset + encoded_len;
        self.written_lsn = append.end_lsn;
        self.prev_lsn = append.start_lsn;
        Ok(append)
    }

    /// Makes everything that was written durable. On a reliable file system it fails only if the
    /// active segment is gone.
    pub fn flush(&mut self) -> (r: Result<Lsn>)
        requires
            old(self).wf(),
        ensures
            final(self).wf(),
            final(self).spec_config() == old(self).spec_config(),
            final(self).spec_fs().files() == old(self).spec_fs().files(),
            match r {
                Ok(lsn) => {
                    &&& lsn == old(self)@.written
                    &&& final(self)@ == (LogView { durable: old(self)@.written, ..old(self)@ })
                    &&& old(self).spec_fs().files().dom().contains(old(self)@.path())
                    &&& final(self).spec_fs().synced() == old(self).spec_fs().synced().insert(
                        old(self)@.path(),
                        old(self).spec_fs().files()[old(self)@.path()],
                    )
                },
                Err(_) => {
                    &&& final(self)@ == old(self)@
                    &&& final(self).spec_fs().synced().remove(old(self)@.path()) == old(
                        self).spec_fs().synced().remove(old(self)@.path())
                },
            },
            old(self).spec_fs().reliable() ==> final(self).spec_fs().reliable(),
            old(self).spec_fs().reliable() && old(self).spec_fs().files().dom().contains(old(self)@.path()) ==> r is Ok,
    {
        let path = segment_path(self.dir.as_str(), self.active_segment);
        self.fs.sync_data(path.as_str())?;
        self.durable_lsn = self.written_lsn;
        Ok(self.durable_lsn)
    }

    /// Removes the segments that lie wholly before a checkpoint and says how many there were. It
    /// touches no other file, and it fails only if the file system does.
    pub fn prune_segments_below_checkpoint_lsn(&mut self, checkpoint_lsn: Lsn) -> (r: Result<usize>)
        requires
            old(self).wf(),
        ensures
            final(self).wf(),
            final(self)@ == old(self)@,
            r matches Ok(removed) ==> exists|numbers: Seq<u64>| #[trigger]
                lists_segments(old(self).spec_fs().files(), old(self)@.dir, numbers) && pruned_result(
                    old(self).spec_fs().files(),
                    final(self).spec_fs().files(),
                    old(self)@,
                    numbers,
                    segment::segment_of(checkpoint_lsn.0 as int, old(self)@.segment_bytes as int),
                    removed as int,
                ) && pruned_result(
                    old(self).spec_fs().synced(),
                    final(self).spec_fs().synced(),
                    old(self)@,
                    numbers,
                    segment::segment_of(checkpoint_lsn.0 as int, old(self)@.segment_bytes as int),
                    removed as int,
                ),
            final(self).spec_config() == old(self).spec_config(),
            kept_but_below(
                old(self).spec_fs().files(),
                final(self).spec_fs().files(),
                old(self)@.dir,
                segment::segment_of(checkpoint_lsn.0 as int, old(self)@.segment_bytes as int),
            ),
            kept_but_below(
                old(self).spec_fs().synced(),
                final(self).spec_fs().synced(),
                old(self)@.dir,
                segment::segment_of(checkpoint_lsn.0 as int, old(self)@.segment_bytes as int),
            ),
            old(self).spec_fs().reliable() ==> r is Ok && final(self).spec_fs().reliable(),
    {
        let keep: u64 = segment::segment_for_lsn(checkpoint_lsn, self.config.segment_bytes);
        self.prune_segments_below(keep)
    }

    /// Removes the segments with a lower number, but never the active one or those after it.
    pub fn prune_segments_below(&mut self, segment: u64) -> (r: Result<usize>)
        requires
            old(self).wf(),
        ensures
            final(self).wf(),
            final(self)@ == old(self)@,
            segment == 0 ==> r == Ok::<usize, Error>(0) && final(self).spec_fs() == old(self).spec_fs(),
            segment > 0 ==> (r matches Ok(removed) ==> exists|numbers: Seq<u64>| #[trigger]
                lists_segments(old(self).spec_fs().files(), old(self)@.dir, numbers) && pruned_result(
                    old(self).spec_fs().files(),
                    final(self).spec_fs().files(),
                    old(self)@,
                    numbers,
                    segment as int,
                    removed as int,
                ) && pruned_result(
                    old(self).spec_fs().synced(),
                    final(self).spec_fs().synced(),
                    old(self)@,
                    numbers,
                    segment as int,
                    removed as int,
                )),
            final(self).spec_config() == old(self).spec_config(),
            kept_but_below(
                old(self).spec_fs().files(),
                final(self).spec_fs().files(),
                old(self)@.dir,
                segment as int,
            ),
            kept_but_below(
                old(self).spec_fs().synced(),
                final(self).spec_fs().synced(),
                old(self)@.dir,
                segment as int,
            ),
            old(self).spec_fs().reliable() ==> r is Ok && final(self).spec_fs().reliable(),
    {
        if segment == 0 {
            return Ok(0);
        }
        let bound: u64 = if segment < self.active_segment {
            segment
        } else {
            self.active_segment
        };
        let removed: usize = remove_segments_below(&mut self.fs, self.dir.as_str(), bound)?;
        proof {
            let numbers = choose|numbers: Seq<u64>| #[trigger]
                lists_segments(old(self).fs.files(), self.dir@, numbers) && self.fs.files() == pruned(
                    old(self).fs.files(),
                    self.dir@,
                    numbers,
                    bound as int,
                ) && self.fs.synced() == pruned(old(self).fs.synced(), self.dir@, numbers, bound as int) && removed
                    == count_below(numbers, bound as int);
            assert(lists_segments(old(self).spec_fs().files(), old(self)@.dir, numbers));
            assert(pruned_result(
                old(self).spec_fs().files(),
                self.spec_fs().files(),
                old(self)@,
                numbers,
                segment as int,
                removed as int,
            ));
        }
        Ok(removed)
    }

    pub fn written_lsn(&self) -> (lsn: Lsn)
        ensures
            lsn == self@.written,
    {
        self.written_lsn
    }

    pub fn durable_lsn(&self) -> (lsn: Lsn)
        ensures
            lsn == self@.durable,
    {
        self.durable_lsn
    }

    /// The position of the last record.
    pub fn prev_lsn(&self) -> (lsn: Lsn)
        ensures
            lsn == self@.prev,
    {
        self.prev_lsn
    }

    pub fn wal_dir(&self) -> (dir: &str)
        ensures
            dir@ == self@.dir,
    {
        self.dir.as_str()
    }

    /// The file system under the log.
    pub fn into_fs(self) -> (fs: Fs)
        ensures
            fs == self.spec_fs(),
    {
        self.fs
    }
}

/// The files after a log is opened: its active segment is there and ends where the log stands.
pub open spec fn files_opened(files: Map<Seq<char>, Seq<u8>>, v: LogView) -> Map<Seq<char>, Seq<u8>> {
    let there = with_file(files, v.path());
    there.insert(v.path(), io::resized(there[v.path()], v.active_offset as int))
}

/// Where a log stands that was opened behind these records.
pub open spec fn opened(dir: Seq<char>, segment_bytes: u64, records: Seq<RecordView>, v: LogView) -> bool {
    &&& v.dir == dir
    &&& v.segment_bytes == segment_bytes
    &&& v.written.0 == scan::end_lsn(records)
    &&& v.active_segment == segment::segment_of(v.written.0 as int, segment_bytes as int)
    &&& v.active_offset == segment::offset_of(v.written.0 as int, segment_bytes as int)
    &&& v.durable == Lsn(0)
    &&& v.prev == (if records.len() == 0 {
        Lsn(0)
    } else {
        records.last().lsn
    })
}

/// A log that was opened on the files of a directory stands behind the records that they hold.
pub open spec fn opened_from(
    files: Map<Seq<char>, Seq<u8>>,
    numbers: Seq<u64>,
    dir: Seq<char>,
    segment_bytes: u64,
    v: LogView,
) -> bool {
    scan::scan_all(segment_views(files, dir, numbers), segment_bytes) matches Ok(found) && opened(
        dir,
        segment_bytes,
        found.records,
        v,
    )
}

/// The files without the segments of a list that are below `bound`.
pub open spec fn pruned(files: Map<Seq<char>, Seq<u8>>, dir: Seq<char>, numbers: Seq<u64>, bound: int) -> Map<
    Seq<char>,
    Seq<u8>,
>
    decreases numbers.len(),
{
    if numbers.len() == 0 {
        files
    } else if numbers.last() < bound {
        pruned(files, dir, numbers.drop_last(), bound).remove(segment_path_spec(dir, numbers.last() as nat))
    } else {
        pruned(files, dir, numbers.drop_last(), bound)
    }
}

/// How many numbers are below `bound`.
pub open spec fn count_below(numbers: Seq<u64>, bound: int) -> int
    decreases numbers.len(),
{
    if numbers.len() == 0 {
        0
    } else if numbers.last() < bound {
        count_below(numbers.drop_last(), bound) + 1
    } else {
        count_below(numbers.drop_last(), bound)
    }
}

/// Whether all files stayed as they were but segments below a number.
pub open spec fn kept_but_below(
    before: Map<Seq<char>, Seq<u8>>,
    after: Map<Seq<char>, Seq<u8>>,
    dir: Seq<char>,
    bound: int,
) -> bool {
    forall|path: Seq<char>|
        (forall|n: u64| n < bound ==> #[trigger] segment_path_spec(dir, n as nat) != path) ==> {
            &&& #[trigger] after.dom().contains(path) <==> before.dom().contains(path)
            &&& after[path] == before[path]
        }
}

/// Removes the segments of a directory below a number and says how many there were: none if the directory
/// is not there. It touches no other file, and it fails only if the file system does.
pub fn remove_segments_below<Fs: FileSystem>(fs: &mut Fs, dir: &str, bound: u64) -> (r: Result<usize>)
    ensures
        r matches Ok(removed) ==> exists|numbers: Seq<u64>| #[trigger]
            lists_segments(old(fs).files(), dir@, numbers) && final(fs).files() == pruned(
                old(fs).files(),
                dir@,
                numbers,
                bound as int,
            ) && final(fs).synced() == pruned(old(fs).synced(), dir@, numbers, bound as int) && removed == count_below(
                numbers,
                bound as int,
            ),
        kept_but_below(old(fs).files(), final(fs).files(), dir@, bound as int),
        kept_but_below(old(fs).synced(), final(fs).synced(), dir@, bound as int),
        old(fs).reliable() ==> r is Ok && final(fs).reliable(),
{
    let numbers: Vec<u64> = if fs.dir_exists(dir) {
        segment_numbers(&*fs, dir)?
    } else {
        let none: Vec<u64> = Vec::new();
        proof {
            assert forall|n: u64| #[trigger] none@.contains(n) <==> has_segment(fs.files(), dir@, n) by {
                assert(!fs.files().dom().contains(io::join_spec(dir@, segment::segment_name_spec(n as nat))));
            }
            assert(lists_segments(fs.files(), dir@, none@));
        }
        none
    };
    let ghost before = fs.files();
    let ghost safe = fs.synced();
    let mut removed: usize = 0;
    let mut i: usize = 0;
    proof {
        assert(numbers@.subrange(0, 0) =~= Seq::empty());
    }
    while i < numbers.len()
        invariant
            i <= numbers@.len(),
            removed <= i,
            fs.files() == pruned(before, dir@, numbers@.subrange(0, i as int), bound as int),
            fs.synced() == pruned(safe, dir@, numbers@.subrange(0, i as int), bound as int),
            before == old(fs).files(),
            safe == old(fs).synced(),
            kept_but_below(before, fs.files(), dir@, bound as int),
            kept_but_below(safe, fs.synced(), dir@, bound as int),
            old(fs).reliable() ==> fs.reliable(),
            removed == count_below(numbers@.subrange(0, i as int), bound as int),
        decreases numbers@.len() - i,
    {
        proof {
            assert(numbers@.subrange(0, i + 1).drop_last() =~= numbers@.subrange(0, i as int));
        }
        if numbers[i] < bound {
            let path = segment_path(dir, numbers[i]);
            let ghost files = fs.files();
            let ghost synced = fs.synced();
            let gone = fs.remove_file(path.as_str());
            proof {
                lemma_kept_without(before, files, fs.files(), dir@, bound as int, numbers@[i as int]);
                lemma_kept_without(safe, synced, fs.synced(), dir@, bound as int, numbers@[i as int]);
            }
            gone?;
            removed = removed + 1;
        }
        i = i + 1;
    }
    proof {
        assert(numbers@.subrange(0, i as int) =~= numbers@);
        assert(lists_segments(before, dir@, numbers@));
    }
    Ok(removed)
}

/// Touching one more segment below the bound keeps all other files.
proof fn lemma_kept_without(
    before: Map<Seq<char>, Seq<u8>>,
    files: Map<Seq<char>, Seq<u8>>,
    after: Map<Seq<char>, Seq<u8>>,
    dir: Seq<char>,
    bound: int,
    n: u64,
)
    requires
        kept_but_below(before, files, dir, bound),
        n < bound,
        after == files.remove(segment_path_spec(dir, n as nat)) || after.remove(segment_path_spec(dir, n as nat))
            == files.remove(segment_path_spec(dir, n as nat)),
    ensures
        kept_but_below(before, after, dir, bound),
{
    let at = segment_path_spec(dir, n as nat);
    assert forall|path: Seq<char>|
        (forall|m: u64| m < bound ==> #[trigger] segment_path_spec(dir, m as nat) != path) implies {
        &&& #[trigger] after.dom().contains(path) <==> before.dom().contains(path)
        &&& after[path] == before[path]
    } by {
        assert(path != at);
        assert(files.dom().contains(path) <==> before.dom().contains(path));
        assert(files.remove(at).dom().contains(path) <==> files.dom().contains(path));
        assert(files.remove(at)[path] == files[path]);
        if after != files.remove(at) {
            assert(after.remove(at).dom().contains(path) <==> after.dom().contains(path));
            assert(after.remove(at)[path] == after[path]);
        }
    }
}

/// What pruning below a segment does: every segment below it and below the active one goes.
pub open spec fn pruned_result(
    before: Map<Seq<char>, Seq<u8>>,
    after: Map<Seq<char>, Seq<u8>>,
    v: LogView,
    numbers: Seq<u64>,
    segment: int,
    removed: int,
) -> bool {
    let bound = if segment < v.active_segment {
        segment
    } else {
        v.active_segment as int
    };
    after == pruned(before, v.dir, numbers, bound) && removed == count_below(numbers, bound)
}

/// Pruning removes no file but segments below the bound.
pub proof fn lemma_pruned(files: Map<Seq<char>, Seq<u8>>, dir: Seq<char>, numbers: Seq<u64>, bound: int, path: Seq<char>)
    ensures
        (exists|i: int|
            0 <= i < numbers.len() && #[trigger] numbers[i] < bound && segment_path_spec(dir, numbers[i] as nat) == path)
            ==> !pruned(files, dir, numbers, bound).dom().contains(path),
        !(exists|i: int|
            0 <= i < numbers.len() && #[trigger] numbers[i] < bound && segment_path_spec(dir, numbers[i] as nat) == path)
            ==> (pruned(files, dir, numbers, bound).dom().contains(path) <==> files.dom().contains(path)) && pruned(
            files,
            dir,
            numbers,
            bound,
        )[path] == files[path],
    decreases numbers.len(),
{
    if numbers.len() > 0 {
        let init = numbers.drop_last();
        lemma_pruned(files, dir, init, bound, path);
        if exists|i: int|
            0 <= i < init.len() && #[trigger] init[i] < bound && segment_path_spec(dir, init[i] as nat) == path {
            let i = choose|i: int|
                0 <= i < init.len() && #[trigger] init[i] < bound && segment_path_spec(dir, init[i] as nat) == path;
            assert(numbers[i] == init[i]);
        }
        if exists|i: int|
            0 <= i < numbers.len() && #[trigger] numbers[i] < bound && segment_path_spec(dir, numbers[i] as nat)
                == path {
            let i = choose|i: int|
                0 <= i < numbers.len() && #[trigger] numbers[i] < bound && segment_path_spec(
                    dir,
                    numbers[i] as nat,
                ) == path;
            if i < init.len() {
                assert(init[i] == numbers[i]);
            }
        }
        assert(numbers.last() == numbers[numbers.len() - 1]);
    }
}

/// Pruning below a checkpoint keeps every segment from the checkpoint's on, and the active one, as
/// it is, and removes the others.
pub proof fn law_prune_keeps_what_is_needed(
    before: Map<Seq<char>, Seq<u8>>,
    after: Map<Seq<char>, Seq<u8>>,
    v: LogView,
    numbers: Seq<u64>,
    checkpoint: Lsn,
    removed: int,
    n: u64,
)
    requires
        lists_segments(before, v.dir, numbers),
        pruned_result(
            before,
            after,
            v,
            numbers,
            segment::segment_of(checkpoint.0 as int, v.segment_bytes as int),
            removed,
        ),
    ensures
        ({
            let kept = n >= segment::segment_of(checkpoint.0 as int, v.segment_bytes as int) || n >= v.active_segment;
            &&& kept ==> (has_segment(after, v.dir, n) <==> has_segment(before, v.dir, n)) && after[segment_path_spec(
                v.dir,
                n as nat,
            )] == before[segment_path_spec(v.dir, n as nat)]
            &&& !kept ==> !has_segment(after, v.dir, n)
        }),
{
    let segment = segment::segment_of(checkpoint.0 as int, v.segment_bytes as int);
    let bound = if segment < v.active_segment {
        segment
    } else {
        v.active_segment as int
    };
    let path = segment_path_spec(v.dir, n as nat);
    lemma_pruned(before, v.dir, numbers, bound, path);
    if exists|i: int|
        0 <= i < numbers.len() && #[trigger] numbers[i] < bound && segment_path_spec(v.dir, numbers[i] as nat) == path {
        let i = choose|i: int|
            0 <= i < numbers.len() && #[trigger] numbers[i] < bound && segment_path_spec(v.dir, numbers[i] as nat)
                == path;
        lemma_paths_differ(v.dir, numbers[i], n);
    }
    if n < bound && has_segment(before, v.dir, n) {
        assert(numbers.contains(n));
        let i = choose|i: int| 0 <= i < numbers.len() && numbers[i] == n;
        assert(numbers[i] < bound && segment_path_spec(v.dir, numbers[i] as nat) == path);
    }
}

} // verus!
