//! What a run reports.
use crate::bench::config::{DurabilityKind, EngineKind, WorkloadKind};
use crate::text;
use vstd::prelude::*;
use vstd::string::*;

verus! {

/// What a database holds after a run.
#[derive(Clone, Copy, Debug, PartialEq, Eq, Structural)]
pub struct Checksum {
    pub rows: i64,
    pub key_sum: i64,
    pub version_sum: i64,
    pub payload_bytes: i64,
}

impl Default for Checksum {
    fn default() -> (sum: Checksum)
        ensures
            sum == (Checksum { rows: 0, key_sum: 0, version_sum: 0, payload_bytes: 0 }),
    {
        Checksum { rows: 0, key_sum: 0, version_sum: 0, payload_bytes: 0 }
    }
}

/// How long operations took, in microseconds.
#[derive(Clone, Copy, Debug, PartialEq, Eq, Structural)]
pub struct LatencySummary {
    pub p50_us: u64,
    pub p95_us: u64,
    pub p99_us: u64,
    pub p999_us: u64,
    pub max_us: u64,
}

/// Where a run was made.
#[derive(Clone, Debug, PartialEq, Eq)]
pub struct RunEnvironment {
    pub hostname: String,
    pub git_sha: Option<String>,
    pub git_dirty: Option<bool>,
    pub rustc_version: Option<String>,
    pub sqlite_version: Option<String>,
    pub logical_cpus: usize,
    pub memory_mib: Option<u64>,
    pub image_digest: Option<String>,
}

/// What a run found out, with its throughput in words: with one and with two decimals.
#[derive(Clone, Debug, PartialEq, Eq)]
pub struct RunFacts {
    pub engine: EngineKind,
    pub workload: WorkloadKind,
    pub durability: DurabilityKind,
    pub threads: usize,
    pub operations: u64,
    pub failures: u64,
    pub busy_errors: u64,
    pub throughput: String,
    pub throughput_fine: String,
    pub latency: LatencySummary,
    pub checksum: Checksum,
    pub data_bytes: u64,
    pub wal_bytes: u64,
}

/// The id of a run that starts at a time.
pub open spec fn run_id_text(engine: EngineKind, workload: WorkloadKind, millis: u64) -> Seq<char> {
    engine.title()@ + seq!['-'] + workload.title()@ + seq!['-'] + text::decimal(millis as nat)
}

/// The id of a run that starts at a time, in milliseconds.
pub fn next_run_id(engine: EngineKind, workload: WorkloadKind, millis: u64) -> (id: String)
    ensures
        id@ == run_id_text(engine, workload, millis),
{
    let mut id = String::from_str(engine.label());
    id.push('-');
    id.append(workload.label());
    id.push('-');
    text::push_decimal(&mut id, millis);
    proof {
        assert(id@ =~= run_id_text(engine, workload, millis));
    }
    id
}

/// Where the line ends in which a position lies.
pub open spec fn line_end(s: Seq<char>, from: int) -> int
    decreases s.len() - from,
{
    if from >= s.len() || s[from] == '\n' {
        from
    } else {
        line_end(s, from + 1)
    }
}

/// The first word of a text.
pub open spec fn first_word(s: Seq<char>) -> Seq<char>
    decreases s.len(),
{
    if s.len() == 0 {
        s
    } else if text::is_white(s[0]) {
        first_word(s.drop_first())
    } else {
        word_at(s, 0)
    }
}

/// The part of a text that has no white space from a position on.
pub open spec fn word_at(s: Seq<char>, to: int) -> Seq<char>
    decreases s.len() - to,
{
    if to >= s.len() || text::is_white(s[to]) {
        s.subrange(0, to)
    } else {
        word_at(s, to + 1)
    }
}

/// The memory of a machine, in mebibytes, by the first line of a memory report that starts with
/// the word for it.
pub open spec fn mem_total(s: Seq<char>, from: int) -> Option<u64>
    decreases s.len() - from,
{
    if from < 0 || from >= s.len() {
        None
    } else {
        let end = line_end(s, from);
        let line = s.subrange(from, end);
        let prefix = "MemTotal:"@;
        if text::stands_in(line, prefix, 0) {
            match text::parsed_u64(first_word(line.skip(prefix.len() as int))) {
                Some(kib) => Some((kib / 1024) as u64),
                None => None,
            }
        } else if end < from || end >= s.len() {
            None
        } else {
            mem_total(s, end + 1)
        }
    }
}

fn first_word_of(chars: &Vec<char>, from: usize, to: usize) -> (word: String)
    requires
        from <= to <= chars@.len(),
    ensures
        word@ == first_word(chars@.subrange(from as int, to as int)),
{
    let mut start: usize = from;
    while start < to && text::white(chars[start])
        invariant
            from <= start <= to <= chars@.len(),
            first_word(chars@.subrange(from as int, to as int)) == first_word(
                chars@.subrange(start as int, to as int),
            ),
        decreases to - start,
    {
        proof {
            assert(chars@.subrange(start as int, to as int).drop_first() =~= chars@.subrange(start + 1, to as int));
        }
        start = start + 1;
    }
    let ghost rest = chars@.subrange(start as int, to as int);
    let mut end: usize = start;
    while end < to && !text::white(chars[end])
        invariant
            start <= end <= to <= chars@.len(),
            rest == chars@.subrange(start as int, to as int),
            word_at(rest, 0) == word_at(rest, end - start),
        decreases to - end,
    {
        end = end + 1;
    }
    proof {
        assert(rest.subrange(0, end - start) =~= chars@.subrange(start as int, end as int));
        if start == to {
            assert(rest =~= Seq::empty());
            assert(first_word(rest) =~= word_at(rest, 0));
        }
    }
    text::text_between(chars, start, end)
}

/// The memory of a machine, in mebibytes, by its memory report.
pub fn total_memory_mib(contents: &str) -> (mib: Option<u64>)
    ensures
        mib == mem_total(contents@, 0),
{
    let chars = text::chars_of(contents);
    let prefix = text::chars_of("MemTotal:");
    let n: usize = chars.len();
    let mut from: usize = 0;
    while from < n
        invariant
            chars@ == contents@,
            prefix@ == "MemTotal:"@,
            n == chars@.len(),
            from <= n,
            mem_total(contents@, 0) == mem_total(contents@, from as int),
        decreases n - from,
    {
        let mut end: usize = from;
        while end < n && chars[end] != '\n'
            invariant
                chars@ == contents@,
                n == chars@.len(),
                from <= end <= n,
                line_end(contents@, from as int) == line_end(contents@, end as int),
            decreases n - end,
        {
            end = end + 1;
        }
        let ghost line = contents@.subrange(from as int, end as int);
        let m: usize = prefix.len();
        let mut k: usize = 0;
        while k < m && k < end - from && chars[from + k] == prefix[k]
            invariant
                chars@ == contents@,
                n == chars@.len(),
                m == prefix@.len(),
                from <= end <= n,
                k <= m,
                k <= end - from,
                forall|j: int| 0 <= j < k ==> chars@[from + j] == #[trigger] prefix@[j],
            decreases m - k,
        {
            k = k + 1;
        }
        if k == m {
            proof {
                assert(line.subrange(0, m as int) =~= prefix@);
                assert(line.skip(m as int) =~= chars@.subrange(from + m, end as int));
            }
            let word = first_word_of(&chars, from + m, end);
            return match text::parse_u64(word.as_str()) {
                Some(kib) => Some(kib / 1024),
                None => None,
            };
        }
        proof {
            assert(!text::stands_in(line, prefix@, 0)) by {
                if text::stands_in(line, prefix@, 0) {
                    assert(line.subrange(0, m as int)[k as int] == line[k as int]);
                }
            }
        }
        if end == n {
            return None;
        }
        from = end + 1;
    }
    None
}

/// A file and its length.
#[derive(Clone, Debug, PartialEq, Eq)]
pub struct FileLen {
    pub name: String,
    pub len: u64,
}

/// Whether what stands behind the last dot of a file name is this; a name has none if its only dot
/// is in front.
pub open spec fn has_extension(name: Seq<char>, extension: Seq<char>) -> bool {
    let at = name.len() - extension.len() - 1;
    at > 0 && name[at] == '.' && name.skip(at + 1) == extension && !extension.contains('.')
}

/// The bytes of files with an extension.
pub open spec fn bytes_with(files: Seq<FileLen>, extension: Seq<char>) -> nat
    decreases files.len(),
{
    if files.len() == 0 {
        0
    } else {
        bytes_with(files.drop_last(), extension) + if has_extension(files.last().name@, extension) {
            files.last().len as nat
        } else {
            0
        }
    }
}

proof fn lemma_bytes_grow(files: Seq<FileLen>, extension: Seq<char>, i: int)
    requires
        0 <= i <= files.len(),
    ensures
        bytes_with(files.take(i), extension) <= bytes_with(files, extension),
    decreases files.len() - i,
{
    if i == files.len() {
        assert(files.take(i) =~= files);
    } else {
        assert(files.take(i + 1).drop_last() =~= files.take(i));
        lemma_bytes_grow(files, extension, i + 1);
    }
}

fn is_log_file(name: &str) -> (r: bool)
    ensures
        r == has_extension(name@, "wal"@),
{
    proof {
        reveal_strlit("wal");
    }
    let chars = text::chars_of(name);
    let n: usize = chars.len();
    if n < 5 {
        return false;
    }
    let found = chars[n - 4] == '.' && chars[n - 3] == 'w' && chars[n - 2] == 'a' && chars[n - 1] == 'l';
    proof {
        if found {
            assert(name@.skip(n - 3) =~= "wal"@);
        } else if name@.skip(n - 3) == "wal"@ {
            assert(name@.skip(n - 3)[0] == name@[n - 3]);
            assert(name@.skip(n - 3)[1] == name@[n - 2]);
            assert(name@.skip(n - 3)[2] == name@[n - 1]);
        }
    }
    found
}

/// The bytes of the log among the files of a directory.
pub fn dir_wal_bytes(files: &Vec<FileLen>) -> (bytes: u64)
    requires
        bytes_with(files@, "wal"@) <= u64::MAX,
    ensures
        bytes == bytes_with(files@, "wal"@),
{
    let mut bytes: u64 = 0;
    proof {
        assert(files@.take(0) =~= Seq::empty());
    }
    for i in 0..files.len()
        invariant
            bytes_with(files@, "wal"@) <= u64::MAX,
            bytes == bytes_with(files@.take(i as int), "wal"@),
    {
        proof {
            assert(files@.take(i + 1).drop_last() =~= files@.take(i as int));
            lemma_bytes_grow(files@, "wal"@, i + 1);
        }
        if is_log_file(files[i].name.as_str()) {
            bytes = bytes + files[i].len;
        }
    }
    proof {
        assert(files@.take(files@.len() as int) =~= files@);
    }
    bytes
}

} // verus!
