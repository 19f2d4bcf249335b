//! How many records each synchronization of the log covered.
use vstd::prelude::*;

verus! {

/// How many buckets the histogram has: bucket `i` counts batches of at least two to the power `i`
/// records, and of fewer than twice that but in the last one.
pub const GROUP_COMMIT_BUCKET_COUNT: usize = 16;

/// What the synchronizations covered so far.
#[derive(Clone, Copy, Debug, PartialEq, Eq)]
pub struct WalSyncCountersSnapshot {
    pub group_commits_issued: u64,
    pub group_commit_batch_record_count_sum: u64,
    pub group_commit_batch_bytes_sum: u64,
    pub group_commit_batch_buckets: [u64; GROUP_COMMIT_BUCKET_COUNT],
}

/// Two to the power `n`.
pub open spec fn pow2(n: nat) -> nat
    decreases n,
{
    if n == 0 {
        1
    } else {
        2 * pow2((n - 1) as nat)
    }
}

/// The bucket of a batch.
pub open spec fn bucket_of(records: nat, from: nat) -> nat
    decreases GROUP_COMMIT_BUCKET_COUNT - from,
{
    if from + 1 >= GROUP_COMMIT_BUCKET_COUNT || records < pow2(from + 1) {
        from
    } else {
        bucket_of(records, from + 1)
    }
}

/// A batch lies in its bucket.
pub proof fn law_batch_lies_in_its_bucket(records: nat, from: nat)
    requires
        records >= pow2(from),
        from < GROUP_COMMIT_BUCKET_COUNT,
    ensures
        from <= bucket_of(records, from) < GROUP_COMMIT_BUCKET_COUNT,
        records >= pow2(bucket_of(records, from)),
        bucket_of(records, from) + 1 < GROUP_COMMIT_BUCKET_COUNT ==> records < pow2(bucket_of(records, from) + 1),
    decreases GROUP_COMMIT_BUCKET_COUNT - from,
{
    if !(from + 1 >= GROUP_COMMIT_BUCKET_COUNT || records < pow2(from + 1)) {
        law_batch_lies_in_its_bucket(records, from + 1);
    }
}

/// The first buckets together.
pub open spec fn counted_in(buckets: Seq<u64>, n: nat) -> nat
    decreases n,
{
    if n == 0 {
        0
    } else {
        counted_in(buckets, (n - 1) as nat) + buckets[n - 1] as nat
    }
}

/// The least batch of the last bucket, among the first `n`, that counts anything; zero if none
/// does.
pub open spec fn largest_edge(buckets: Seq<u64>, n: nat) -> nat
    decreases n,
{
    if n == 0 {
        0
    } else if buckets[n - 1] > 0 {
        pow2((n - 1) as nat)
    } else {
        largest_edge(buckets, (n - 1) as nat)
    }
}

/// The least batch of the first bucket, from `from` on, with which `rank` batches are counted.
pub open spec fn rank_edge(buckets: Seq<u64>, rank: nat, from: nat) -> nat
    decreases GROUP_COMMIT_BUCKET_COUNT - from,
{
    if from >= GROUP_COMMIT_BUCKET_COUNT {
        largest_edge(buckets, GROUP_COMMIT_BUCKET_COUNT as nat)
    } else if counted_in(buckets, from + 1) >= rank {
        pow2(from)
    } else {
        rank_edge(buckets, rank, from + 1)
    }
}

/// The rank of a share of all batches: rounded up, and one at least.
pub open spec fn rank_of(total: nat, share: nat, of: nat) -> nat {
    let rank = (total * share + of - 1) as nat / of;
    if rank < 1 {
        1
    } else {
        rank
    }
}

fn power_of_two(n: usize) -> (p: u64)
    requires
        n <= GROUP_COMMIT_BUCKET_COUNT,
    ensures
        p == pow2(n as nat),
        p <= 65_536,
{
    let mut p: u64 = 1;
    proof {
        lemma_pow2_values();
    }
    for i in 0..n
        invariant
            n <= GROUP_COMMIT_BUCKET_COUNT,
            p == pow2(i as nat),
            p <= 65_536,
            pow2(16) == 65_536,
    {
        proof {
            lemma_pow2_grows((i + 1) as nat, 16);
        }
        p = p * 2;
    }
    p
}

proof fn lemma_pow2_values()
    ensures
        pow2(16) == 65_536,
{
    reveal_with_fuel(pow2, 17);
}

proof fn lemma_pow2_grows(a: nat, b: nat)
    requires
        a <= b,
    ensures
        pow2(a) <= pow2(b),
    decreases b,
{
    if a < b {
        lemma_pow2_grows(a, (b - 1) as nat);
    }
}

impl WalSyncCountersSnapshot {
    /// Nothing was synchronized yet.
    pub fn new() -> (counters: WalSyncCountersSnapshot)
        ensures
            counters.group_commits_issued == 0,
            counters.group_commit_batch_record_count_sum == 0,
            counters.group_commit_batch_bytes_sum == 0,
            counters.group_commit_batch_buckets@.len() == GROUP_COMMIT_BUCKET_COUNT,
            forall|i: int|
                0 <= i < GROUP_COMMIT_BUCKET_COUNT ==> #[trigger] counters.group_commit_batch_buckets@[i] == 0,
    {
        WalSyncCountersSnapshot {
            group_commits_issued: 0,
            group_commit_batch_record_count_sum: 0,
            group_commit_batch_bytes_sum: 0,
            group_commit_batch_buckets: [0; GROUP_COMMIT_BUCKET_COUNT],
        }
    }

    /// The counters after a batch.
    pub open spec fn counts_batch(self, before: WalSyncCountersSnapshot, records: u64, bytes: u64) -> bool {
        if records == 0 {
            self == before
        } else {
            let bucket = bucket_of(records as nat, 0) as int;
            let buckets = before.group_commit_batch_buckets@;
            &&& self.group_commits_issued == full_sum(before.group_commits_issued, 1)
            &&& self.group_commit_batch_record_count_sum == full_sum(
                before.group_commit_batch_record_count_sum,
                records,
            )
            &&& self.group_commit_batch_bytes_sum == full_sum(before.group_commit_batch_bytes_sum, bytes)
            &&& self.group_commit_batch_buckets@ == buckets.update(bucket, full_sum(buckets[bucket], 1))
        }
    }

    /// Counts a batch; one without records does not count, and a count that is full stays full.
    pub fn record_batch(&mut self, records: u64, bytes: u64)
        ensures
            final(self).counts_batch(*old(self), records, bytes),
    {
        if records == 0 {
            return;
        }
        let mut bucket: usize = 0;
        while bucket + 1 < GROUP_COMMIT_BUCKET_COUNT && records >= power_of_two(bucket + 1)
            invariant
                bucket < GROUP_COMMIT_BUCKET_COUNT,
                bucket_of(records as nat, 0) == bucket_of(records as nat, bucket as nat),
            decreases GROUP_COMMIT_BUCKET_COUNT - bucket,
        {
            bucket = bucket + 1;
        }
        self.group_commits_issued = self.group_commits_issued.saturating_add(1);
        self.group_commit_batch_record_count_sum = self.group_commit_batch_record_count_sum.saturating_add(records);
        self.group_commit_batch_bytes_sum = self.group_commit_batch_bytes_sum.saturating_add(bytes);
        let one_more: u64 = self.group_commit_batch_buckets[bucket].saturating_add(1);
        self.group_commit_batch_buckets[bucket] = one_more;
    }

    /// The least batch of the bucket in which a share of all batches ends; zero if there are none.
    pub fn batch_record_count_percentile(&self, share: u64, of: u64) -> (edge: u64)
        requires
            of > 0,
        ensures
            edge == if self.group_commits_issued == 0 {
                0
            } else {
                rank_edge(
                    self.group_commit_batch_buckets@,
                    rank_of(self.group_commits_issued as nat, share as nat, of as nat),
                    0,
                )
            },
    {
        if self.group_commits_issued == 0 {
            return 0;
        }
        let total: u128 = self.group_commits_issued as u128;
        proof {
            let t = self.group_commits_issued as int;
            let s = share as int;
            assert(0 <= t * s <= u64::MAX * u64::MAX) by (nonlinear_arith)
                requires
                    0 <= t <= u64::MAX,
                    0 <= s <= u64::MAX,
            ;
            assert(u64::MAX * u64::MAX + u64::MAX <= u128::MAX) by (nonlinear_arith);
        }
        let product: u128 = total * (share as u128);
        let rank: u128 = (product + (of as u128 - 1)) / (of as u128);
        let rank: u128 = if rank < 1 {
            1
        } else {
            rank
        };
        let mut counted: u128 = 0;
        for i in 0..GROUP_COMMIT_BUCKET_COUNT
            invariant
                rank == rank_of(self.group_commits_issued as nat, share as nat, of as nat),
                counted == counted_in(self.group_commit_batch_buckets@, i as nat),
                counted <= i * u64::MAX,
                self.group_commits_issued > 0,
                rank_edge(self.group_commit_batch_buckets@, rank as nat, 0) == rank_edge(
                    self.group_commit_batch_buckets@,
                    rank as nat,
                    i as nat,
                ),
        {
            counted = counted + self.group_commit_batch_buckets[i] as u128;
            if counted >= rank {
                return power_of_two(i);
            }
        }
        self.batch_record_count_max()
    }

    /// The least batch of the last bucket that counts anything; zero if none does.
    pub fn batch_record_count_max(&self) -> (edge: u64)
        ensures
            edge == largest_edge(self.group_commit_batch_buckets@, GROUP_COMMIT_BUCKET_COUNT as nat),
    {
        let mut n: usize = GROUP_COMMIT_BUCKET_COUNT;
        while n > 0
            invariant
                n <= GROUP_COMMIT_BUCKET_COUNT,
                largest_edge(self.group_commit_batch_buckets@, GROUP_COMMIT_BUCKET_COUNT as nat) == largest_edge(
                    self.group_commit_batch_buckets@,
                    n as nat,
                ),
            decreases n,
        {
            n = n - 1;
            if self.group_commit_batch_buckets[n] > 0 {
                return power_of_two(n);
            }
        }
        0
    }
}

/// A sum, or the largest number if it would be larger.
pub open spec fn full_sum(a: u64, b: u64) -> u64 {
    if a + b > u64::MAX {
        u64::MAX
    } else {
        (a + b) as u64
    }
}

} // verus!
