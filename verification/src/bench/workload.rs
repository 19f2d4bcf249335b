//! What a worker of a benchmark does.
use crate::bench::config::{RunSpec, WorkloadKind};
use crate::text;
use rand::Rng;
use rand::SeedableRng;
use rand_chacha::ChaCha8Rng;
use vstd::prelude::*;
use vstd::string::*;

verus! {

/// Where a worker is in its stream of random numbers.
#[derive(Clone, Copy, Debug, PartialEq, Eq, Structural)]
pub struct WorkerRng {
    pub seed: u64,
    pub word: u128,
}

/// The number that a stream gives at a position, and the position behind it, for numbers of
/// thirty-two bits.
pub uninterp spec fn word_at(seed: u64, at: u128) -> (u32, u128);

/// The number below a limit that a stream gives at a position, and the position behind it.
pub uninterp spec fn below_at(seed: u64, at: u128, limit: usize) -> (usize, u128);

/// The number of thirty-two bits below a limit that a stream gives at a position, and the position
/// behind it.
pub uninterp spec fn roll_at(seed: u64, at: u128, limit: u32) -> (u32, u128);

/// `rand::Rng::random` on the stream that `rand_chacha::ChaCha8Rng::seed_from_u64` starts, at a
/// position. Which number that is, and where the stream then stands, is given a name: both are the
/// same for the same seed and position.
#[verifier::external_body]
fn random_word(seed: u64, at: u128) -> (r: (u32, u128))
    ensures
        r == word_at(seed, at),
{
    let mut rng = ChaCha8Rng::seed_from_u64(seed);
    rng.set_word_pos(at);
    (rng.random::<u32>(), rng.get_word_pos())
}

/// `rand::Rng::random_range` from zero on, on such a stream: a number below the limit. Which one is
/// given a name. An empty range panics, so the limit is not zero.
#[verifier::external_body]
fn random_below(seed: u64, at: u128, limit: usize) -> (r: (usize, u128))
    requires
        limit > 0,
    ensures
        r == below_at(seed, at, limit),
        r.0 < limit,
{
    let mut rng = ChaCha8Rng::seed_from_u64(seed);
    rng.set_word_pos(at);
    (rng.random_range(0..limit), rng.get_word_pos())
}

/// `rand::Rng::random_range` from zero on, for numbers of thirty-two bits.
#[verifier::external_body]
fn random_roll(seed: u64, at: u128, limit: u32) -> (r: (u32, u128))
    requires
        limit > 0,
    ensures
        r == roll_at(seed, at, limit),
        r.0 < limit,
{
    let mut rng = ChaCha8Rng::seed_from_u64(seed);
    rng.set_word_pos(at);
    (rng.random_range(0..limit), rng.get_word_pos())
}

impl WorkerRng {
    /// The stream behind the next number of thirty-two bits.
    pub open spec fn after_word(self) -> WorkerRng {
        WorkerRng { word: word_at(self.seed, self.word).1, ..self }
    }

    fn next_word(&mut self) -> (word: u32)
        ensures
            word == word_at(old(self).seed, old(self).word).0,
            *final(self) == old(self).after_word(),
    {
        let (word, at) = random_word(self.seed, self.word);
        self.word = at;
        word
    }

    fn next_below(&mut self, limit: usize) -> (n: usize)
        requires
            limit > 0,
        ensures
            n < limit,
            n == below_at(old(self).seed, old(self).word, limit).0,
            *final(self) == (WorkerRng { word: below_at(old(self).seed, old(self).word, limit).1, ..*old(self) }),
    {
        let (n, at) = random_below(self.seed, self.word, limit);
        self.word = at;
        n
    }

    fn next_roll(&mut self, limit: u32) -> (n: u32)
        requires
            limit > 0,
        ensures
            n < limit,
            n == roll_at(old(self).seed, old(self).word, limit).0,
            *final(self) == (WorkerRng { word: roll_at(old(self).seed, old(self).word, limit).1, ..*old(self) }),
    {
        let (n, at) = random_roll(self.seed, self.word, limit);
        self.word = at;
        n
    }
}

/// The stream of a worker: every worker of a run has its own seed.
pub fn worker_rng(seed: u64, worker: usize) -> (rng: WorkerRng)
    ensures
        rng == (WorkerRng { seed: seed ^ (worker as u64), word: 0 }),
{
    WorkerRng { seed: seed ^ (worker as u64), word: 0 }
}

/// A row that is inserted.
#[derive(Clone, Debug, PartialEq, Eq)]
pub struct InsertRow {
    pub key: i64,
    pub tenant: i64,
    pub blob: Vec<u8>,
}

/// What a worker does in one go.
#[derive(Clone, Debug, PartialEq, Eq)]
pub enum BenchOp {
    /// Inserts a row.
    Insert(InsertRow),
    /// Inserts so many rows in one transaction, each drawn when its turn comes.
    InsertBatch(usize),
    /// Reads a row by its key.
    Read { key: i64 },
    /// Reads the first row of a tenant.
    ReadTenant { tenant: i64 },
    /// Counts the rows of some tenants.
    CountTenants { low: i64, high: i64 },
    /// Updates a row.
    Update { key: i64, blob: Vec<u8> },
}

/// How many rows a batch has.
pub const BATCH_ROWS: usize = 100;

/// How many tenants there are.
pub const TENANTS: i64 = 32;

/// The text of a value.
pub open spec fn value_text(seed: nat) -> Seq<char> {
    "value-"@ + text::filled(text::decimal(seed), 8, '0')
}

/// The bytes of a text of ASCII characters.
pub open spec fn ascii(s: Seq<char>) -> Seq<u8> {
    Seq::new(s.len(), |i: int| s[i] as u8)
}

/// The value that is stored for a number.
pub fn blob_for(seed: usize) -> (blob: Vec<u8>)
    ensures
        blob@ == ascii(value_text(seed as nat)),
{
    let mut words = String::from_str("value-");
    let digits = text::decimal_text(seed as u64);
    text::push_filled(&mut words, digits.as_str(), 8, '0');
    let chars = text::chars_of(words.as_str());
    let mut blob: Vec<u8> = Vec::new();
    for i in 0..chars.len()
        invariant
            blob@ == ascii(chars@).take(i as int),
    {
        blob.push(chars[i] as u8);
        proof {
            assert(ascii(chars@).take(i + 1) =~= ascii(chars@).take(i as int).push(chars@[i as int] as u8));
        }
    }
    proof {
        assert(ascii(chars@).take(chars@.len() as int) =~= ascii(chars@));
    }
    blob
}

/// The key that a worker makes of a random word: the worker above, the word below.
pub open spec fn insert_key(worker: usize, word: u32) -> i64 {
    (((worker as u64) << 32) | (word as u64)) as i64
}

/// The tenant of a key.
pub open spec fn tenant_of(key: i64) -> int {
    if key >= 0 {
        key as int % 32
    } else {
        (-(key as int)) % 32
    }
}

/// Workers never insert the same key.
pub proof fn law_workers_insert_different_keys(a: usize, b: usize, x: u32, y: u32)
    requires
        a < 0x8000_0000,
        b < 0x8000_0000,
        a != b,
    ensures
        insert_key(a, x) != insert_key(b, y),
{
    let p = a as u64;
    let q = b as u64;
    assert(((p << 32) | (x as u64)) != ((q << 32) | (y as u64))) by (bit_vector)
        requires
            p < 0x8000_0000,
            q < 0x8000_0000,
            p != q,
    ;
    assert(((p << 32) | (x as u64)) <= 0x7fff_ffff_ffff_ffff) by (bit_vector)
        requires
            p < 0x8000_0000,
    ;
    assert(((q << 32) | (y as u64)) <= 0x7fff_ffff_ffff_ffff) by (bit_vector)
        requires
            q < 0x8000_0000,
    ;
}

/// Whether a row is made of a random word.
pub open spec fn is_row(row: InsertRow, worker: usize, word: u32) -> bool {
    &&& row.key == insert_key(worker, word)
    &&& row.tenant == tenant_of(row.key)
    &&& row.blob@ == ascii(value_text(row.key as usize as nat))
}

/// The row that a worker makes of a random word.
pub fn make_row(worker: usize, word: u32) -> (row: InsertRow)
    ensures
        is_row(row, worker, word),
{
    let key: i64 = (((worker as u64) << 32) | (word as u64)) as i64;
    let tenant: i64 = if key >= 0 {
        key % TENANTS
    } else if key == i64::MIN {
        0
    } else {
        (-key) % TENANTS
    };
    InsertRow { key, tenant, blob: blob_for(key as usize) }
}

/// How many keys each writer has to itself.
pub open spec fn writer_span(threads: usize, rows: usize) -> int {
    let lanes = if threads == 0 {
        1
    } else {
        threads as int
    };
    (if rows > threads {
        rows as int
    } else {
        threads as int
    }) / lanes
}

/// The first key of a writer.
pub open spec fn writer_start(worker: usize, threads: usize, rows: usize) -> int {
    let lanes = if threads == 0 {
        1
    } else {
        threads as int
    };
    (worker as int % lanes) * writer_span(threads, rows)
}

/// Writers never update the same key.
pub proof fn law_writers_are_disjoint(a: usize, b: usize, threads: usize, rows: usize, x: int, y: int)
    requires
        a < threads,
        b < threads,
        a != b,
        0 <= x < writer_span(threads, rows),
        0 <= y < writer_span(threads, rows),
    ensures
        writer_start(a, threads, rows) + x != writer_start(b, threads, rows) + y,
{
    let span = writer_span(threads, rows);
    assert(a as int % threads as int == a) by (nonlinear_arith)
        requires
            0 <= a < threads,
    ;
    assert(b as int % threads as int == b) by (nonlinear_arith)
        requires
            0 <= b < threads,
    ;
    assert(a * span + x != b * span + y) by (nonlinear_arith)
        requires
            0 <= x < span,
            0 <= y < span,
            a != b,
    ;
}

proof fn lemma_writer_key(worker: usize, threads: usize, rows: usize)
    ensures
        writer_span(threads, rows) >= 0,
        0 <= writer_start(worker, threads, rows),
        writer_start(worker, threads, rows) + writer_span(threads, rows) <= if rows > threads {
            rows
        } else {
            threads
        },
{
    let lanes = if threads == 0 {
        1
    } else {
        threads as int
    };
    let most = if rows > threads {
        rows as int
    } else {
        threads as int
    };
    let span = most / lanes;
    let lane = worker as int % lanes;
    assert(0 <= span && span * lanes <= most) by (nonlinear_arith)
        requires
            lanes >= 1,
            most >= 0,
            span == most / lanes,
    ;
    assert(0 <= lane < lanes) by (nonlinear_arith)
        requires
            lanes >= 1,
            worker >= 0,
            lane == worker as int % lanes,
    ;
    assert(0 <= lane * span && lane * span + span <= span * lanes) by (nonlinear_arith)
        requires
            0 <= lane < lanes,
            0 <= span,
    ;
}

/// How many keys a writer picks from: its own, or one if it has none.
pub fn writer_keys(threads: usize, rows: usize) -> (n: usize)
    ensures
        n == if writer_span(threads, rows) < 1 {
            1
        } else {
            writer_span(threads, rows)
        },
{
    let lanes: usize = if threads == 0 {
        1
    } else {
        threads
    };
    let most: usize = if rows > threads {
        rows
    } else {
        threads
    };
    let span: usize = most / lanes;
    if span < 1 {
        1
    } else {
        span
    }
}

/// The update that a writer makes of a pick among its keys.
pub fn make_update(worker: usize, threads: usize, rows: usize, pick: usize) -> (op: BenchOp)
    requires
        pick < if writer_span(threads, rows) < 1 {
            1
        } else {
            writer_span(threads, rows)
        },
        rows < usize::MAX,
        threads < usize::MAX,
    ensures
        op matches BenchOp::Update { key, blob } && {
            let n = writer_start(worker, threads, rows) + pick;
            &&& n <= i64::MAX ==> key == n
            &&& blob@ == ascii(value_text((n + 1) as nat))
        },
{
    proof {
        lemma_writer_key(worker, threads, rows);
    }
    let lanes: usize = if threads == 0 {
        1
    } else {
        threads
    };
    let most: usize = if rows > threads {
        rows
    } else {
        threads
    };
    let span: usize = most / lanes;
    let lane: usize = worker % lanes;
    let start: usize = lane * span;
    let n: usize = start + pick;
    BenchOp::Update { key: n as i64, blob: blob_for(n + 1) }
}

/// What is read for a pick among the keys.
pub fn make_read(pick: usize) -> (op: BenchOp)
    ensures
        op == (BenchOp::Read { key: pick as i64 }),
{
    BenchOp::Read { key: pick as i64 }
}

/// Which tenant is read for a pick among the keys.
pub fn make_tenant_read(pick: usize) -> (op: BenchOp)
    ensures
        op == (BenchOp::ReadTenant { tenant: (pick % 32) as i64 }),
{
    BenchOp::ReadTenant { tenant: (pick % 32) as i64 }
}

/// Which tenants are counted for a pick among the keys: up to four, and none beyond the last.
pub fn make_tenant_count(pick: usize) -> (op: BenchOp)
    ensures
        op matches BenchOp::CountTenants { low, high } && {
            &&& low == pick % 32
            &&& high == if low + 3 > 31 {
                31
            } else {
                low + 3
            }
        },
{
    let low: i64 = (pick % 32) as i64;
    let high: i64 = if low + 3 > 31 {
        31
    } else {
        low + 3
    };
    BenchOp::CountTenants { low, high }
}

/// The update of the row that everyone updates.
pub fn make_hot_update(worker: usize, word: u32) -> (op: BenchOp)
    ensures
        op matches BenchOp::Update { key, blob } && {
            &&& key == 0
            &&& blob@ == ascii(value_text(((worker << 24) ^ (word as usize)) as nat))
        },
{
    BenchOp::Update { key: 0, blob: blob_for((worker << 24) ^ (word as usize)) }
}

/// How many in how many operations of a mixed workload are reads.
pub open spec fn read_share(workload: WorkloadKind) -> Option<(u32, u32)> {
    match workload {
        WorkloadKind::MixedOltp => Some((8, 10)),
        WorkloadKind::Mixed95Read5Write => Some((95, 100)),
        WorkloadKind::Mixed80Read20Write => Some((80, 100)),
        WorkloadKind::Mixed50Read50Write => Some((50, 100)),
        _ => None,
    }
}

/// How many in how many operations of a mixed workload are reads.
pub fn mixed_share(workload: WorkloadKind) -> (share: Option<(u32, u32)>)
    ensures
        share == read_share(workload),
{
    match workload {
        WorkloadKind::MixedOltp => Some((8, 10)),
        WorkloadKind::Mixed95Read5Write => Some((95, 100)),
        WorkloadKind::Mixed80Read20Write => Some((80, 100)),
        WorkloadKind::Mixed50Read50Write => Some((50, 100)),
        _ => None,
    }
}

/// Whether a number is that of one of the first rows, or of the first one if there are none.
pub open spec fn in_rows(pick: usize, rows: usize) -> bool {
    pick < rows || pick == 0
}

/// Whether an operation is a read of one of the first rows.
pub open spec fn reads_row(op: BenchOp, rows: usize) -> bool {
    op matches BenchOp::Read { key } && exists|pick: usize| #[trigger]
        in_rows(pick, rows) && (pick <= i64::MAX ==> key == pick)
}

/// Whether an operation is an update of one of a writer's keys.
pub open spec fn updates_own(op: BenchOp, worker: usize, threads: usize, rows: usize) -> bool {
    op matches BenchOp::Update { key, blob } && exists|pick: int|
        #![trigger picked(worker, threads, rows, pick)]
        picked(worker, threads, rows, pick) && updates(key, blob@, writer_start(worker, threads, rows) + pick)
}

/// Whether the row of a number is updated with the value of the next one.
pub open spec fn updates(key: i64, blob: Seq<u8>, n: int) -> bool {
    &&& n <= i64::MAX ==> key == n
    &&& blob == ascii(value_text((n + 1) as nat))
}

/// Whether a number is a pick among a writer's keys.
pub open spec fn picked(worker: usize, threads: usize, rows: usize, pick: int) -> bool {
    0 <= pick < if writer_span(threads, rows) < 1 {
        1
    } else {
        writer_span(threads, rows)
    }
}

/// Whether a row is made of some random word.
pub open spec fn is_some_row(row: InsertRow, worker: usize) -> bool {
    exists|word: u32| is_row(row, worker, word)
}

/// Whether a worker may do this for its workload, whatever the random numbers are.
pub open spec fn fits(op: BenchOp, workload: WorkloadKind, worker: usize, threads: usize, rows: usize) -> bool {
    match workload {
        WorkloadKind::SingleRowInsert => op matches BenchOp::Insert(row) && is_some_row(row, worker),
        WorkloadKind::BatchedInsert100 => op == BenchOp::InsertBatch(BATCH_ROWS),
        WorkloadKind::PointReadPk => reads_row(op, rows),
        WorkloadKind::SecondaryIndexRead => op matches BenchOp::ReadTenant { tenant } && 0 <= tenant < 32,
        WorkloadKind::SecondaryIndexRange => op matches BenchOp::CountTenants { low, high } && 0 <= low <= high < 32
            && (high == low + 3 || high == 31),
        WorkloadKind::WritersDisjoint => updates_own(op, worker, threads, rows),
        WorkloadKind::HotRowUpdate => op matches BenchOp::Update { key, blob } && key == 0,
        _ => reads_row(op, rows) || updates_own(op, worker, threads, rows),
    }
}

/// One, or a number of rows that is at least one.
pub open spec fn some_rows(rows: usize) -> usize {
    if rows < 1 {
        1
    } else {
        rows
    }
}

/// One, or a number of keys that is at least one.
pub open spec fn some_keys(threads: usize, rows: usize) -> usize {
    if writer_span(threads, rows) < 1 {
        1
    } else {
        writer_span(threads, rows) as usize
    }
}

/// Whether an operation is the read that the next number of a stream picks.
pub open spec fn read_drawn(op: BenchOp, next: WorkerRng, rows: usize, rng: WorkerRng) -> bool {
    let (pick, at) = below_at(rng.seed, rng.word, some_rows(rows));
    op == (BenchOp::Read { key: pick as i64 }) && next == (WorkerRng { word: at, ..rng })
}

/// Whether an operation is the update that the next number of a stream picks.
pub open spec fn update_drawn(
    op: BenchOp,
    next: WorkerRng,
    worker: usize,
    threads: usize,
    rows: usize,
    rng: WorkerRng,
) -> bool {
    let (pick, at) = below_at(rng.seed, rng.word, some_keys(threads, rows));
    &&& op matches BenchOp::Update { key, blob } && updates(key, blob@, writer_start(worker, threads, rows) + pick)
    &&& next == (WorkerRng { word: at, ..rng })
}

/// Whether an operation is the one that the next numbers of a stream make.
pub open spec fn drawn(
    op: BenchOp,
    next: WorkerRng,
    workload: WorkloadKind,
    worker: usize,
    threads: usize,
    rows: usize,
    rng: WorkerRng,
) -> bool {
    let (pick, at) = below_at(rng.seed, rng.word, some_rows(rows));
    match workload {
        WorkloadKind::SingleRowInsert => {
            &&& op matches BenchOp::Insert(row) && is_row(row, worker, word_at(rng.seed, rng.word).0)
            &&& next == rng.after_word()
        },
        WorkloadKind::BatchedInsert100 => op == BenchOp::InsertBatch(BATCH_ROWS) && next == rng,
        WorkloadKind::PointReadPk => read_drawn(op, next, rows, rng),
        WorkloadKind::SecondaryIndexRead => {
            &&& op == (BenchOp::ReadTenant { tenant: (pick % 32) as i64 })
            &&& next == (WorkerRng { word: at, ..rng })
        },
        WorkloadKind::SecondaryIndexRange => {
            &&& op matches BenchOp::CountTenants { low, high } && low == pick % 32 && high == (if low + 3 > 31 {
                31
            } else {
                low + 3
            })
            &&& next == (WorkerRng { word: at, ..rng })
        },
        WorkloadKind::WritersDisjoint => update_drawn(op, next, worker, threads, rows, rng),
        WorkloadKind::HotRowUpdate => {
            &&& op matches BenchOp::Update { key, blob } && key == 0 && blob@ == ascii(
                value_text(((worker << 24) ^ (word_at(rng.seed, rng.word).0 as usize)) as nat),
            )
            &&& next == rng.after_word()
        },
        _ => {
            let (reads, of) = read_share(workload)->0;
            let (roll, behind) = roll_at(rng.seed, rng.word, of);
            let rolled = WorkerRng { word: behind, ..rng };
            if roll < reads {
                read_drawn(op, next, rows, rolled)
            } else {
                update_drawn(op, next, worker, threads, rows, rolled)
            }
        },
    }
}

/// The row that a worker inserts next: what the next word of its stream makes.
pub fn draw_row(worker: usize, rng: &mut WorkerRng) -> (row: InsertRow)
    ensures
        is_row(row, worker, word_at(old(rng).seed, old(rng).word).0),
        is_some_row(row, worker),
        *final(rng) == old(rng).after_word(),
{
    let word: u32 = rng.next_word();
    let row = make_row(worker, word);
    proof {
        assert(is_row(row, worker, word));
    }
    row
}

fn draw_read(rows: usize, rng: &mut WorkerRng) -> (op: BenchOp)
    ensures
        read_drawn(op, *final(rng), rows, *old(rng)),
        reads_row(op, rows),
{
    let pick: usize = rng.next_below(if rows < 1 { 1 } else { rows });
    proof {
        assert(in_rows(pick, rows));
    }
    make_read(pick)
}

fn draw_update(worker: usize, threads: usize, rows: usize, rng: &mut WorkerRng) -> (op: BenchOp)
    requires
        rows < usize::MAX,
        threads < usize::MAX,
    ensures
        update_drawn(op, *final(rng), worker, threads, rows, *old(rng)),
        updates_own(op, worker, threads, rows),
{
    let pick: usize = rng.next_below(writer_keys(threads, rows));
    proof {
        assert(picked(worker, threads, rows, pick as int));
    }
    make_update(worker, threads, rows, pick)
}

/// The next thing that a worker does: what the next numbers of its stream make of its workload.
pub fn next_op(workload: WorkloadKind, worker: usize, threads: usize, rows: usize, rng: &mut WorkerRng) -> (op: BenchOp)
    requires
        rows < usize::MAX,
        threads < usize::MAX,
    ensures
        drawn(op, *final(rng), workload, worker, threads, rows, *old(rng)),
        fits(op, workload, worker, threads, rows),
{
    if let Some((reads, of)) = mixed_share(workload) {
        if rng.next_roll(of) < reads {
            return draw_read(rows, rng);
        }
        return draw_update(worker, threads, rows, rng);
    }
    match workload {
        WorkloadKind::SingleRowInsert => BenchOp::Insert(draw_row(worker, rng)),
        WorkloadKind::BatchedInsert100 => BenchOp::InsertBatch(BATCH_ROWS),
        WorkloadKind::SecondaryIndexRead => make_tenant_read(rng.next_below(if rows < 1 { 1 } else { rows })),
        WorkloadKind::SecondaryIndexRange => make_tenant_count(rng.next_below(if rows < 1 { 1 } else { rows })),
        WorkloadKind::WritersDisjoint => draw_update(worker, threads, rows, rng),
        WorkloadKind::HotRowUpdate => {
            let word: u32 = rng.next_word();
            make_hot_update(worker, word)
        },
        _ => draw_read(rows, rng),
    }
}

/// The statement that an operation runs.
pub open spec fn statement_text(op: BenchOp) -> &'static str {
    match op {
        BenchOp::Insert(_) => "INSERT INTO kv(k, tenant, v, version) VALUES (?1, ?2, ?3, ?4)",
        BenchOp::InsertBatch(_) => "INSERT INTO kv(k, tenant, v, version) VALUES (?1, ?2, ?3, ?4)",
        BenchOp::Read { .. } => "SELECT version, v FROM kv WHERE k = ?1",
        BenchOp::ReadTenant { .. } => "SELECT k, v FROM kv WHERE tenant = ?1 ORDER BY k LIMIT 1",
        BenchOp::CountTenants { .. } => "SELECT COUNT(*) FROM kv WHERE tenant BETWEEN ?1 AND ?2",
        BenchOp::Update { .. } => "UPDATE kv SET v = ?1, version = version + 1 WHERE k = ?2",
    }
}

/// The statement that an operation runs.
pub fn statement(op: &BenchOp) -> (sql: &'static str)
    ensures
        sql == statement_text(*op),
{
    match op {
        BenchOp::Insert(_) => "INSERT INTO kv(k, tenant, v, version) VALUES (?1, ?2, ?3, ?4)",
        BenchOp::InsertBatch(_) => "INSERT INTO kv(k, tenant, v, version) VALUES (?1, ?2, ?3, ?4)",
        BenchOp::Read { .. } => "SELECT version, v FROM kv WHERE k = ?1",
        BenchOp::ReadTenant { .. } => "SELECT k, v FROM kv WHERE tenant = ?1 ORDER BY k LIMIT 1",
        BenchOp::CountTenants { .. } => "SELECT COUNT(*) FROM kv WHERE tenant BETWEEN ?1 AND ?2",
        BenchOp::Update { .. } => "UPDATE kv SET v = ?1, version = version + 1 WHERE k = ?2",
    }
}

/// Whether a workload starts from rows that are already there.
pub fn needs_seed(workload: WorkloadKind) -> (needs: bool)
    ensures
        needs == !(workload is SingleRowInsert || workload is BatchedInsert100),
{
    match workload {
        WorkloadKind::SingleRowInsert => false,
        WorkloadKind::BatchedInsert100 => false,
        _ => true,
    }
}

/// Whether an error says that someone else was in the way.
pub fn is_busy_error(message: &str) -> (busy: bool)
    ensures
        busy == (text::holds(text::lowered(message@), "busy"@) || text::holds(text::lowered(message@), "locked"@)),
{
    let folded = text::lower_text(message);
    text::contains_text(folded.as_str(), "busy") || text::contains_text(folded.as_str(), "locked")
}

/// The directory of a run's database.
pub open spec fn db_dir_text(spec: RunSpec) -> Seq<char> {
    spec.engine.name()@ + seq!['-'] + spec.workload.name()@ + seq!['-'] + spec.durability.name()@ + "-t"@
        + text::decimal(spec.threads as nat) + "-s"@ + text::decimal(spec.seed as nat)
}

/// The directory of a run's database.
pub fn db_dir_name(spec: &RunSpec) -> (name: String)
    ensures
        name@ == db_dir_text(*spec),
{
    let mut name = String::from_str(spec.engine.as_str());
    name.push('-');
    name.append(spec.workload.as_str());
    name.push('-');
    name.append(spec.durability.as_str());
    name.append("-t");
    text::push_decimal(&mut name, spec.threads as u64);
    name.append("-s");
    text::push_decimal(&mut name, spec.seed);
    proof {
        assert(name@ =~= db_dir_text(*spec));
    }
    name
}

/// What a worker has counted. How long operations took is measured elsewhere.
#[derive(Clone, Copy, Debug, PartialEq, Eq, Structural)]
pub struct Counters {
    pub operations: u64,
    pub failures: u64,
    pub busy_errors: u64,
}

impl Counters {
    pub fn new() -> (c: Counters)
        ensures
            c == (Counters { operations: 0, failures: 0, busy_errors: 0 }),
    {
        Counters { operations: 0, failures: 0, busy_errors: 0 }
    }

    /// Counts a success.
    pub fn record_success(&mut self)
        requires
            old(self).operations < u64::MAX,
        ensures
            *final(self) == (Counters { operations: (old(self).operations + 1) as u64, ..*old(self) }),
    {
        self.operations = self.operations + 1;
    }

    /// Counts a failure.
    pub fn record_failure(&mut self, busy: bool)
        requires
            old(self).failures < u64::MAX,
            old(self).busy_errors < u64::MAX,
        ensures
            *final(self) == (Counters {
                operations: old(self).operations,
                failures: (old(self).failures + 1) as u64,
                busy_errors: if busy {
                    (old(self).busy_errors + 1) as u64
                } else {
                    old(self).busy_errors
                },
            }),
    {
        self.failures = self.failures + 1;
        if busy {
            self.busy_errors = self.busy_errors + 1;
        }
    }

    /// Adds what another worker has counted.
    pub fn merge(&mut self, other: &Counters)
        requires
            old(self).operations + other.operations <= u64::MAX,
            old(self).failures + other.failures <= u64::MAX,
            old(self).busy_errors + other.busy_errors <= u64::MAX,
        ensures
            final(self).operations == old(self).operations + other.operations,
            final(self).failures == old(self).failures + other.failures,
            final(self).busy_errors == old(self).busy_errors + other.busy_errors,
    {
        self.operations = self.operations + other.operations;
        self.failures = self.failures + other.failures;
        self.busy_errors = self.busy_errors + other.busy_errors;
    }
}

/// The microseconds that count for an operation: one at least, and no more than can be counted.
pub fn latency_sample(elapsed_us: u128) -> (sample: u64)
    ensures
        sample == if elapsed_us == 0 {
            1
        } else if elapsed_us > u64::MAX {
            u64::MAX as int
        } else {
            elapsed_us as int
        },
{
    if elapsed_us == 0 {
        1
    } else if elapsed_us > u64::MAX as u128 {
        u64::MAX
    } else {
        elapsed_us as u64
    }
}

} // verus!
