//! What holds of batches, of the waits of the writer and of the counts of group commits.
use crate::format::Lsn;
use crate::wal::coordinator;
use crate::wal::coordinator::{QueueView, QueuedView};
use crate::wal::counters;
use crate::wal::counters::{WalSyncCountersSnapshot, GROUP_COMMIT_BUCKET_COUNT};
use crate::wal::writer;
use crate::wal::writer::WriterPhase;
use crate::wal::WalConfig;
use vstd::prelude::*;

verus! {

/// Whether a record reaches a position that is to be reached.
pub open spec fn reaches(r: QueuedView, target: Option<Lsn>) -> bool {
    match target {
        Some(lsn) => r.append.end_lsn.0 >= lsn.0,
        None => false,
    }
}

proof fn lemma_batch_count(records: Seq<QueuedView>, held: int, limit: int, target: Option<Lsn>)
    requires
        held >= 0,
    ensures
        ({
            let n = coordinator::batch_count(records, held, limit, target) as int;
            let bytes = coordinator::queued_len(records.take(n));
            &&& n <= records.len()
            &&& records.len() > 0 ==> n >= 1
            &&& n < records.len() ==> (held + bytes >= limit && held + bytes >= 1) || reaches(records[n - 1], target)
            &&& forall|m: int|
                0 < m < n ==> !(held + coordinator::queued_len(#[trigger] records.take(m)) >= limit && held
                    + coordinator::queued_len(records.take(m)) >= 1) && !(reaches(records[m - 1], target))
        }),
    decreases records.len(),
{
    if records.len() > 0 {
        let rest = records.drop_first();
        let now = held + records[0].encoded.len();
        let one = records.take(1);
        assert(one.drop_first() =~= Seq::empty());
        assert(coordinator::queued_len(one.drop_first()) == 0);
        assert(coordinator::queued_len(one) == records[0].encoded.len());
        if !((now >= limit && now >= 1) || (target matches Some(lsn) && records[0].append.end_lsn.0 >= lsn.0)) {
            lemma_batch_count(rest, now, limit, target);
            let k = coordinator::batch_count(rest, now, limit, target) as int;
            let n = k + 1;
            assert(records.take(n).drop_first() =~= rest.take(k));
            assert(records.take(n)[0] == records[0]);
            assert forall|m: int| 0 < m < n implies !(held + coordinator::queued_len(#[trigger] records.take(m)) >= limit
                && held + coordinator::queued_len(records.take(m)) >= 1) && !(reaches(records[m
                - 1], target)) by {
                if m > 1 {
                    assert(records.take(m).drop_first() =~= rest.take(m - 1));
                    assert(records.take(m)[0] == records[0]);
                    assert(rest[m - 2] == records[m - 1]);
                    assert(!(now + coordinator::queued_len(rest.take(m - 1)) >= limit && now + coordinator::queued_len(
                        rest.take(m - 1),
                    ) >= 1));
                }
            }
            if n < records.len() && k >= 1 {
                assert(rest[k - 1] == records[n - 1]);
            }
        }
    }
}

/// A batch takes records from the front of the queue, one at least if there is one, and no more than it
/// takes to hold enough bytes or to reach the target; it takes all where that is not enough.
pub proof fn law_batch_is_as_short_as_it_can_be(records: Seq<QueuedView>, limit: int, target: Option<Lsn>, m: int)
    ensures
        ({
            let n = coordinator::batch_count(records, 0, limit, target) as int;
            let bytes = coordinator::queued_len(records.take(n));
            &&& n <= records.len()
            &&& records.len() > 0 ==> n >= 1
            &&& n < records.len() ==> (bytes >= limit && bytes >= 1) || (reaches(records[n - 1], target))
            &&& 0 < m < n ==> {
                &&& coordinator::queued_len(records.take(m)) < limit || coordinator::queued_len(records.take(m)) == 0
                &&& !reaches(records[m - 1], target)
            }
        }),
{
    lemma_batch_count(records, 0, limit, target);
    if 0 < m {
        assert(records.take(m) == records.take(m));
    }
}

/// The bytes of a batch are those of its records together.
pub proof fn law_bytes_of_batches_add_up(a: Seq<QueuedView>, b: Seq<QueuedView>)
    ensures
        coordinator::queued_len(a + b) == coordinator::queued_len(a) + coordinator::queued_len(b),
        coordinator::queued_len(a + b) <= u64::MAX ==> writer::counted_bytes(a + b) == writer::counted_bytes(a)
            + writer::counted_bytes(b),
    decreases a.len(),
{
    if a.len() == 0 {
        assert(a + b =~= b);
    } else {
        law_bytes_of_batches_add_up(a.drop_first(), b);
        assert((a + b).drop_first() =~= a.drop_first() + b);
    }
}

/// The writer sleeps only while there is nothing to write and nothing to make durable, and stops only
/// once everything is written.
pub proof fn law_writer_rests_only_without_work(q: QueueView, config: WalConfig)
    ensures
        writer::collected(q, config).step is Sleep <==> q.pending.len() == 0 && q.flush_requested.0 <= q.durable.0
            && !q.shutdown,
        writer::collected(q, config).step is Exit <==> q.pending.len() == 0 && q.shutdown,
        q.pending.len() > 0 ==> writer::collected(q, config).batch.len() >= 1,
        writer::collected(q, config).batch + writer::collected(q, config).queue.pending == q.pending,
{
    lemma_batch_count(q.pending, 0, config.wal_write_batch_bytes as int, None);
    let n = coordinator::batch_count(q.pending, 0, config.wal_write_batch_bytes as int, None) as int;
    assert(q.pending.take(n) + q.pending.skip(n) =~= q.pending);
    assert(Seq::<QueuedView>::empty() + q.pending =~= q.pending);
}

/// On the way to a position the writer makes the log durable once it is written up to there, and not
/// before; until then it writes what is queued, or waits for it.
pub proof fn law_writer_flushes_what_is_written(q: QueueView, config: WalConfig, written: Lsn, target: Lsn)
    ensures
        writer::drained(q, config, written, target).phase is Flush <==> written.0 >= target.0,
        written.0 < target.0 && q.pending.len() > 0 ==> writer::drained(q, config, written, target).batch.len() >= 1,
        written.0 < target.0 && q.pending.len() == 0 && q.failure is None ==> writer::drained(
            q,
            config,
            written,
            target,
        ).step is Sleep,
        writer::drained(q, config, written, target).batch + writer::drained(q, config, written, target).queue.pending
            == q.pending,
{
    let limit = config.wal_write_batch_bytes as int;
    lemma_batch_count(q.pending, 0, limit, Some(target));
    let n = coordinator::batch_count(q.pending, 0, limit, Some(target)) as int;
    assert(q.pending.take(n) + q.pending.skip(n) =~= q.pending);
    assert(Seq::<QueuedView>::empty() + q.pending =~= q.pending);
}

/// A flush waits for more commits only where a delay is set, and not if what is to be flushed is a full
/// batch already.
pub proof fn law_flush_waits_for_company(config: WalConfig, durable: Lsn, target: Lsn)
    requires
        durable.0 <= target.0,
    ensures
        writer::window_open(config, durable, target) <==> config.group_commit_delay_us > 0 && target.0 - durable.0
            < config.group_commit_max_batch_bytes,
{
}

/// After a batch a flush that was asked for is under way, and at the end of work everything that was
/// written is made durable.
pub proof fn law_flush_follows_its_batch(target: Option<Lsn>, shutdown: bool, batch: Seq<QueuedView>)
    ensures
        target matches Some(lsn) ==> writer::after_batch(target, shutdown, batch) == WriterPhase::Window(lsn),
        target is None && shutdown && batch.len() > 0 && batch.last().append.end_lsn.0 > 0 ==> writer::after_batch(
            target,
            shutdown,
            batch,
        ) is Flush,
        target is None && !shutdown ==> writer::after_batch(target, shutdown, batch) is Collect,
{
}

/// Once the log is durable up to a position, a request up to there is met; one beyond it stands.
pub proof fn law_met_requests_are_forgotten(q: QueueView, lsn: Lsn, requested: bool)
    ensures
        q.durable_at(lsn, requested).durable == lsn,
        requested && q.flush_requested.0 <= lsn.0 ==> q.durable_at(lsn, requested).wanted_flush() is None,
        q.flush_requested.0 > lsn.0 ==> q.durable_at(lsn, requested).wanted_flush() == Some(q.flush_requested),
        q.durable_at(lsn, requested).pending == q.pending,
        q.durable_at(lsn, requested).reserved == q.reserved,
        q.durable_at(lsn, requested).failure == q.failure,
{
}

proof fn lemma_one_more(buckets: Seq<u64>, i: int, n: nat)
    requires
        0 <= i < buckets.len(),
        n <= buckets.len(),
        buckets[i] < u64::MAX,
    ensures
        counters::counted_in(buckets.update(i, (buckets[i] + 1) as u64), n) == counters::counted_in(buckets, n) + if i < n {
            1nat
        } else {
            0nat
        },
    decreases n,
{
    if n > 0 {
        lemma_one_more(buckets, i, (n - 1) as nat);
    }
}

/// Every synchronization that covers records is counted once, with its records and bytes, in one bucket:
/// the buckets together hold as many as were issued. One that covers none is not counted.
pub proof fn law_group_commits_are_counted(
    before: WalSyncCountersSnapshot,
    after: WalSyncCountersSnapshot,
    records: u64,
    bytes: u64,
)
    requires
        after.counts_batch(before, records, bytes),
        before.group_commits_issued < u64::MAX,
        before.group_commit_batch_record_count_sum + records <= u64::MAX,
        before.group_commit_batch_bytes_sum + bytes <= u64::MAX,
        forall|i: int|
            0 <= i < GROUP_COMMIT_BUCKET_COUNT ==> #[trigger] before.group_commit_batch_buckets@[i] < u64::MAX,
    ensures
        records == 0 ==> after == before,
        records > 0 ==> {
            &&& after.group_commits_issued == before.group_commits_issued + 1
            &&& after.group_commit_batch_record_count_sum == before.group_commit_batch_record_count_sum + records
            &&& after.group_commit_batch_bytes_sum == before.group_commit_batch_bytes_sum + bytes
            &&& counters::counted_in(after.group_commit_batch_buckets@, GROUP_COMMIT_BUCKET_COUNT as nat)
                == counters::counted_in(before.group_commit_batch_buckets@, GROUP_COMMIT_BUCKET_COUNT as nat) + 1
        },
{
    if records > 0 {
        assert(counters::pow2(0) == 1);
        counters::law_batch_lies_in_its_bucket(records as nat, 0);
        let i = counters::bucket_of(records as nat, 0) as int;
        let buckets = before.group_commit_batch_buckets@;
        assert(buckets.len() == GROUP_COMMIT_BUCKET_COUNT);
        assert(buckets[i] < u64::MAX);
        lemma_one_more(buckets, i, GROUP_COMMIT_BUCKET_COUNT as nat);
    }
}

/// The edges of the buckets double, from one on.
pub proof fn law_bucket_edges_double(i: nat)
    ensures
        counters::pow2(0) == 1,
        counters::pow2(i + 1) == 2 * counters::pow2(i),
        counters::pow2(i) > 0,
    decreases i,
{
    if i > 0 {
        law_bucket_edges_double((i - 1) as nat);
    }
}

/// The largest batch is given by the last bucket that counts anything, and by zero where none does.
pub proof fn law_largest_batch_is_in_the_last_bucket(buckets: Seq<u64>, n: nat, i: nat)
    requires
        i < n <= buckets.len(),
        buckets[i as int] > 0,
        forall|j: int| i < j < n ==> #[trigger] buckets[j] == 0,
    ensures
        counters::largest_edge(buckets, n) == counters::pow2(i),
    decreases n,
{
    if n - 1 > i {
        assert(buckets[n - 1] == 0);
        law_largest_batch_is_in_the_last_bucket(buckets, (n - 1) as nat, i);
    }
}

/// Without batches there is no largest one.
pub proof fn law_no_batches_have_no_largest(buckets: Seq<u64>, n: nat)
    requires
        n <= buckets.len(),
        forall|j: int| 0 <= j < n ==> #[trigger] buckets[j] == 0,
    ensures
        counters::largest_edge(buckets, n) == 0,
    decreases n,
{
    if n > 0 {
        assert(buckets[n - 1] == 0);
        law_no_batches_have_no_largest(buckets, (n - 1) as nat);
    }
}

proof fn lemma_rank_edge(buckets: Seq<u64>, rank: nat, from: nat, i: nat)
    requires
        from <= i < GROUP_COMMIT_BUCKET_COUNT <= buckets.len(),
        counters::counted_in(buckets, i) < rank <= counters::counted_in(buckets, i + 1),
    ensures
        counters::rank_edge(buckets, rank, from) == counters::pow2(i),
    decreases i - from,
{
    if from < i {
        lemma_fewer(buckets, from + 1, i);
        lemma_rank_edge(buckets, rank, from + 1, i);
    }
}

proof fn lemma_fewer(buckets: Seq<u64>, a: nat, b: nat)
    requires
        a <= b <= buckets.len(),
    ensures
        counters::counted_in(buckets, a) <= counters::counted_in(buckets, b),
    decreases b,
{
    if a < b {
        lemma_fewer(buckets, a, (b - 1) as nat);
    }
}

/// A percentile is the edge of the bucket in which the batch of its rank lies: fewer batches lie in the
/// buckets before it, and as many or more with it.
pub proof fn law_percentile_lies_in_its_bucket(buckets: Seq<u64>, rank: nat, i: nat)
    requires
        i < GROUP_COMMIT_BUCKET_COUNT <= buckets.len(),
        counters::counted_in(buckets, i) < rank <= counters::counted_in(buckets, i + 1),
    ensures
        counters::rank_edge(buckets, rank, 0) == counters::pow2(i),
{
    lemma_rank_edge(buckets, rank, 0, i);
}

/// The rank of a share of all batches is the least number that is not less than the share, and one at
/// least.
pub proof fn law_rank_is_rounded_up(total: nat, share: nat, of: nat)
    requires
        of > 0,
    ensures
        counters::rank_of(total, share, of) >= 1,
        counters::rank_of(total, share, of) * of >= total * share,
        counters::rank_of(total, share, of) > 1 ==> (counters::rank_of(total, share, of) - 1) * of < total * share,
        share == of && total > 0 ==> counters::rank_of(total, share, of) == total,
{
    let x = total * share;
    let r = (x + of - 1) as nat / of;
    assert(r * of <= x + of - 1 < (r + 1) * of) by (nonlinear_arith)
        requires
            r == (x + of - 1) as nat / of,
            of > 0,
    ;
    assert((r + 1) * of == r * of + of) by (nonlinear_arith);
    assert((r - 1) * of == r * of - of) by (nonlinear_arith);
    if share == of && total > 0 {
        assert(r == total) by (nonlinear_arith)
            requires
                x == total * of,
                r * of <= x + of - 1,
                x + of - 1 < r * of + of,
                of > 0,
        ;
    }
}

} // verus!
