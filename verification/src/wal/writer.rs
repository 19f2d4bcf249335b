//! The writer of the log.
//!
//! The writer goes from phase to phase: `decide` looks at the queue and says what to do next,
//! `perform` writes or synchronizes without the queue. Whoever runs it holds the queue during
//! `decide` only, and wakes those who wait for the queue after each one.
use crate::error::{Error, Result};
use crate::format::Lsn;
use crate::io;
use crate::io::FileSystem;
use crate::wal::coordinator;
use crate::wal::counters;
use crate::wal::counters::WalSyncCountersSnapshot;
use crate::wal::coordinator::{QueueView, QueuedView, QueuedWalRecord, WalQueue};
use crate::wal::manager;
use crate::wal::manager::{LogView, WalManager};
use crate::wal::WalConfig;
use vstd::prelude::*;

verus! {

/// Where the writer is.
#[derive(Clone, Copy, Debug, PartialEq, Eq, Structural)]
pub enum WriterPhase {
    /// Looks for work.
    Collect,
    /// Holds a batch to write.
    Write { target: Option<Lsn>, shutdown: bool },
    /// May give more commits the time to come in.
    Window(Lsn),
    /// Takes what is still missing up to a position.
    Drain(Lsn),
    /// Holds a batch to write, on the way to a position.
    DrainWrite(Lsn),
    /// Has to synchronize.
    Flush { requested: bool },
    /// Has synchronized, up to a position.
    Flushed { durable: Lsn, requested: bool },
    /// Could not write or synchronize.
    Failed,
    /// Is done.
    Stopped,
}

/// What to do next.
#[derive(Clone, Copy, Debug, PartialEq, Eq, Structural)]
pub enum WriterStep {
    /// Wait until the queue changes, then decide again.
    Sleep,
    /// Wait at most so many microseconds or until the queue changes, then decide again.
    SleepFor(u64),
    /// Perform, then decide again.
    Perform,
    /// Stop.
    Exit,
}

/// A decision: the next phase, the queue afterwards, the batch that is taken off it and what to
/// do.
#[verifier::ext_equal]
pub struct Decision {
    pub phase: WriterPhase,
    pub queue: QueueView,
    pub batch: Seq<QueuedView>,
    pub step: WriterStep,
}

/// Whether a flush waits for more commits to come in: only where a delay is set and what is to be
/// flushed is not yet a full batch.
pub open spec fn window_open(config: WalConfig, durable: Lsn, target: Lsn) -> bool {
    config.group_commit_delay_us > 0 && target.0 - durable.0 < config.group_commit_max_batch_bytes && (target.0
        > durable.0 || config.group_commit_max_batch_bytes > 0)
}

/// Looks for work: sleeps if there is none, stops if there will be none, and else takes a batch.
pub open spec fn collected(q: QueueView, config: WalConfig) -> Decision {
    if q.pending.len() == 0 && q.wanted_flush() is None && !q.shutdown {
        Decision { phase: WriterPhase::Collect, queue: q, batch: Seq::empty(), step: WriterStep::Sleep }
    } else if q.pending.len() == 0 && q.shutdown {
        Decision { phase: WriterPhase::Stopped, queue: q, batch: Seq::empty(), step: WriterStep::Exit }
    } else {
        let n = coordinator::batch_count(q.pending, 0, config.wal_write_batch_bytes as int, None);
        Decision {
            phase: WriterPhase::Write { target: q.wanted_flush(), shutdown: q.shutdown },
            queue: q.without(n),
            batch: q.pending.take(n as int),
            step: WriterStep::Perform,
        }
    }
}

/// On the way to a position: flushes once it is written, and else takes the next batch, up to the
/// position.
pub open spec fn drained(q: QueueView, config: WalConfig, written: Lsn, target: Lsn) -> Decision {
    if written.0 >= target.0 {
        Decision {
            phase: WriterPhase::Flush { requested: true },
            queue: q,
            batch: Seq::empty(),
            step: WriterStep::Perform,
        }
    } else if q.pending.len() == 0 {
        if q.failure is Some {
            failed(q)
        } else {
            Decision { phase: WriterPhase::Drain(target), queue: q, batch: Seq::empty(), step: WriterStep::Sleep }
        }
    } else {
        let n = coordinator::batch_count(q.pending, 0, config.wal_write_batch_bytes as int, Some(target));
        Decision {
            phase: WriterPhase::DrainWrite(target),
            queue: q.without(n),
            batch: q.pending.take(n as int),
            step: WriterStep::Perform,
        }
    }
}

/// Leaves word that the writer has failed, and stops.
pub open spec fn failed(q: QueueView) -> Decision {
    Decision {
        phase: WriterPhase::Stopped,
        queue: QueueView { failure: Some("wal writer failed"), ..q },
        batch: Seq::empty(),
        step: WriterStep::Exit,
    }
}

/// What the writer decides.
pub open spec fn decided(
    phase: WriterPhase,
    held: Seq<QueuedView>,
    q: QueueView,
    config: WalConfig,
    written: Lsn,
    durable: Lsn,
) -> Decision {
    match phase {
        WriterPhase::Collect => collected(q, config),
        WriterPhase::Window(target) => if window_open(config, durable, target) {
            Decision {
                phase: WriterPhase::Drain(target),
                queue: q,
                batch: Seq::empty(),
                step: WriterStep::SleepFor(config.group_commit_delay_us),
            }
        } else {
            drained(q, config, written, target)
        },
        WriterPhase::Drain(target) => drained(q, config, written, target),
        WriterPhase::Flushed { durable: lsn, requested } => collected(q.durable_at(lsn, requested), config),
        WriterPhase::Failed => failed(q),
        WriterPhase::Stopped => Decision { phase, queue: q, batch: Seq::empty(), step: WriterStep::Exit },
        _ => Decision { phase, queue: q, batch: held, step: WriterStep::Perform },
    }
}

/// The log and its files.
#[verifier::ext_equal]
pub struct Written {
    pub log: LogView,
    pub files: Map<Seq<char>, Seq<u8>>,
    pub synced: Map<Seq<char>, Seq<u8>>,
}

impl Written {
    /// Where a record goes that starts at `start`: the next segment, if it does not start where
    /// the log stands and does not fit there.
    pub open spec fn moves(self, start: Lsn, len: int) -> bool {
        start.0 != self.log.at() && self.log.is_full(len)
    }

    /// The log after a move to the next segment.
    pub open spec fn moved(self) -> Written {
        Written {
            log: self.log.rotated(),
            files: manager::with_file(self.files, self.log.rotated().path()),
            synced: self.synced.insert(self.log.path(), self.files[self.log.path()]),
        }
    }

    /// The log in the segment where a record goes.
    pub open spec fn placed(self, start: Lsn, len: int) -> Written {
        if self.moves(start, len) {
            self.moved()
        } else {
            self
        }
    }

    /// Whether a queued record belongs where the log stands.
    pub open spec fn accepts(self, r: QueuedView) -> bool {
        let len = r.encoded.len() as int;
        &&& self.log.has_room(len)
        &&& len <= self.log.segment_bytes
        &&& r.append.start_lsn.0 == self.placed(r.append.start_lsn, len).log.at()
    }

    /// The log after a queued record is written.
    pub open spec fn with(self, r: QueuedView) -> Written {
        let place = self.placed(r.append.start_lsn, r.encoded.len() as int);
        let path = place.log.path();
        Written {
            log: LogView {
                active_offset: (place.log.active_offset + r.encoded.len()) as u64,
                written: r.append.end_lsn,
                prev: r.append.start_lsn,
                ..place.log
            },
            files: place.files.insert(
                path,
                io::overwritten(place.files[path], place.log.active_offset as int, r.encoded),
            ),
            synced: place.synced,
        }
    }

    /// The log after queued records are written, one after the other.
    pub open spec fn with_all(self, batch: Seq<QueuedView>) -> Written
        decreases batch.len(),
    {
        if batch.len() == 0 {
            self
        } else {
            self.with_all(batch.drop_last()).with(batch.last())
        }
    }

    /// Whether every record of a batch belongs where the log stands when its turn comes.
    pub open spec fn accepts_all(self, batch: Seq<QueuedView>) -> bool
        decreases batch.len(),
    {
        batch.len() == 0 || (self.accepts_all(batch.drop_last()) && self.with_all(batch.drop_last()).accepts(
            batch.last(),
        ))
    }
}

/// The log that a manager writes.
pub open spec fn written_of<Fs: FileSystem>(wal: WalManager<Fs>) -> Written {
    Written { log: wal@, files: wal.spec_fs().files(), synced: wal.spec_fs().synced() }
}

/// A batch that is accepted is accepted as far as it goes.
proof fn lemma_accepts_prefix(w: Written, batch: Seq<QueuedView>, n: int)
    requires
        w.accepts_all(batch),
        0 <= n <= batch.len(),
    ensures
        w.accepts_all(batch.take(n)),
    decreases batch.len() - n,
{
    if n == batch.len() {
        assert(batch.take(n) =~= batch);
    } else {
        lemma_accepts_prefix(w, batch, n + 1);
        assert(batch.take(n + 1).drop_last() =~= batch.take(n));
    }
}

/// Whether writing fails only for records that do not belong where the log stands: the file system
/// is reliable, the active segment is there, and a file may be as long as positions count.
pub open spec fn sure<Fs: FileSystem>(wal: WalManager<Fs>) -> bool {
    wal.spec_fs().reliable() && wal.spec_fs().files().dom().contains(wal@.path()) && usize::MAX >= u64::MAX
}

/// Writes a batch of records. Where writing is sure, it succeeds if and only if every record belongs
/// where the log stands when its turn comes.
pub fn write_batch<Fs: FileSystem>(wal: &mut WalManager<Fs>, batch: &Vec<QueuedWalRecord>) -> (r: Result<()>)
    requires
        old(wal).wf(),
    ensures
        final(wal).wf(),
        final(wal).spec_config() == old(wal).spec_config(),
        final(wal)@.durable == old(wal)@.durable,
        r is Ok ==> {
            &&& written_of(*old(wal)).accepts_all(coordinator::queued_views(batch@))
            &&& written_of(*final(wal)) == written_of(*old(wal)).with_all(coordinator::queued_views(batch@))
        },
        batch@.len() == 0 ==> r is Ok,
        sure(*old(wal)) ==> (r is Ok <==> written_of(*old(wal)).accepts_all(coordinator::queued_views(batch@))),
        r is Ok && sure(*old(wal)) ==> sure(*final(wal)),
{
    let ghost start = written_of(*wal);
    let ghost all = coordinator::queued_views(batch@);
    proof {
        assert(all.take(0) =~= Seq::empty());
    }
    for i in 0..batch.len()
        invariant
            wal.wf(),
            wal.spec_config() == old(wal).spec_config(),
            wal@.durable == old(wal)@.durable,
            start == written_of(*old(wal)),
            all == coordinator::queued_views(batch@),
            written_of(*wal) == start.with_all(all.take(i as int)),
            start.accepts_all(all.take(i as int)),
            sure(*old(wal)) ==> sure(*wal),
    {
        let record = &batch[i];
        proof {
            wal.lemma_wf();
            assert(all.take(i + 1).drop_last() =~= all.take(i as int));
            assert(all.take(i + 1).last() == all[i as int]);
            if start.accepts_all(all) {
                lemma_accepts_prefix(start, all, i + 1);
                assert(written_of(*wal).accepts(all[i as int]));
            }
        }
        if !wal.has_room(record.encoded.len()) {
            return Err(Error::CorruptWal("lsn overflow"));
        }
        let ghost before = written_of(*wal);
        wal.write_encoded(record.append, record.encoded.as_slice())?;
        proof {
            assert(all.take(i + 1).drop_last() =~= all.take(i as int));
            assert(written_of(*wal) =~= before.with(all[i as int]));
        }
    }
    proof {
        assert(all.take(batch@.len() as int) =~= all);
    }
    Ok(())
}

/// The writer of a log.
pub struct WalWriter<Fs: FileSystem> {
    wal: WalManager<Fs>,
    config: WalConfig,
    phase: WriterPhase,
    batch: Vec<QueuedWalRecord>,
    unsynced_records: u64,
    unsynced_bytes: u64,
    counters: WalSyncCountersSnapshot,
}

/// How many bytes queued records have, as far as that can be counted.
pub open spec fn counted_bytes(batch: Seq<QueuedView>) -> u64 {
    if coordinator::queued_len(batch) > u64::MAX {
        u64::MAX
    } else {
        coordinator::queued_len(batch) as u64
    }
}

fn count_bytes(batch: &Vec<QueuedWalRecord>) -> (bytes: u64)
    ensures
        bytes == counted_bytes(coordinator::queued_views(batch@)),
{
    let ghost all = coordinator::queued_views(batch@);
    let mut bytes: u64 = 0;
    proof {
        assert(all.take(0) =~= Seq::empty());
    }
    for i in 0..batch.len()
        invariant
            all == coordinator::queued_views(batch@),
            bytes == counted_bytes(all.take(i as int)),
    {
        proof {
            assert(all.take(i + 1) =~= all.take(i as int).push(all[i as int]));
            coordinator::lemma_queued_len_push(all.take(i as int), all[i as int]);
        }
        bytes = bytes.saturating_add(batch[i].encoded.len() as u64);
    }
    proof {
        assert(all.take(batch@.len() as int) =~= all);
    }
    bytes
}

/// The last position that a batch reaches.
pub open spec fn batch_end(batch: Seq<QueuedView>) -> Lsn {
    if batch.len() == 0 {
        Lsn(0)
    } else {
        batch.last().append.end_lsn
    }
}

/// The phase after a batch is written.
pub open spec fn after_batch(target: Option<Lsn>, shutdown: bool, batch: Seq<QueuedView>) -> WriterPhase {
    match target {
        Some(lsn) => WriterPhase::Window(lsn),
        None => if shutdown && batch_end(batch) != Lsn(0) {
            WriterPhase::Flush { requested: false }
        } else {
            WriterPhase::Collect
        },
    }
}

impl<Fs: FileSystem> WalWriter<Fs> {
    pub closed spec fn wf(self) -> bool {
        self.wal.wf()
    }

    pub closed spec fn phase(self) -> WriterPhase {
        self.phase
    }

    pub closed spec fn spec_config(self) -> WalConfig {
        self.config
    }

    /// The records that are about to be written.
    pub closed spec fn held(self) -> Seq<QueuedView> {
        coordinator::queued_views(self.batch@)
    }

    pub closed spec fn log(self) -> Written {
        written_of(self.wal)
    }

    /// Whether writing fails only for records that do not belong where the log stands.
    pub closed spec fn sure(self) -> bool {
        sure(self.wal)
    }

    /// How many records, and bytes, were written since the last synchronization.
    pub closed spec fn unsynced(self) -> (u64, u64) {
        (self.unsynced_records, self.unsynced_bytes)
    }

    /// What the synchronizations covered.
    pub closed spec fn counters(self) -> WalSyncCountersSnapshot {
        self.counters
    }

    /// A writer for a log, and the queue that goes with it.
    pub fn new(wal: WalManager<Fs>, config: WalConfig) -> (r: (WalWriter<Fs>, WalQueue))
        requires
            wal.wf(),
        ensures
            r.0.wf(),
            r.0.phase() == WriterPhase::Collect,
            r.0.spec_config() == config,
            r.0.held() == Seq::<QueuedView>::empty(),
            r.0.log() == written_of(wal),
            r.0.sure() == sure(wal),
            r.0.unsynced() == (0u64, 0u64),
            r.0.counters().group_commits_issued == 0,
            r.0.counters().group_commit_batch_record_count_sum == 0,
            r.0.counters().group_commit_batch_bytes_sum == 0,
            forall|i: int|
                0 <= i < counters::GROUP_COMMIT_BUCKET_COUNT
                    ==> #[trigger] r.0.counters().group_commit_batch_buckets@[i] == 0,
            r.1.wf(),
            r.1@ == (QueueView {
                reserved: wal@.written,
                prev: wal@.prev,
                durable: wal@.durable,
                pending: Seq::empty(),
                flush_requested: Lsn(0),
                shutdown: false,
                failure: None,
            }),
    {
        let queue = WalQueue::new(wal.written_lsn(), wal.prev_lsn(), wal.durable_lsn());
        let writer = WalWriter {
            wal,
            config,
            phase: WriterPhase::Collect,
            batch: Vec::new(),
            unsynced_records: 0,
            unsynced_bytes: 0,
            counters: WalSyncCountersSnapshot::new(),
        };
        proof {
            assert(writer.held() =~= Seq::empty());
        }
        (writer, queue)
    }

    fn collect(&mut self, queue: &mut WalQueue) -> (step: WriterStep)
        requires
            old(self).wf(),
            old(queue).wf(),
        ensures
            final(self).wf(),
            final(queue).wf(),
            final(self).spec_config() == old(self).spec_config(),
            final(self).log() == old(self).log(),
            final(self).sure() == old(self).sure(),
            final(self).unsynced() == old(self).unsynced(),
            final(self).counters() == old(self).counters(),
            (Decision { phase: final(self).phase(), queue: final(queue)@, batch: final(self).held(), step })
                == collected(old(queue)@, old(self).spec_config()),
    {
        self.batch = Vec::new();
        proof {
            assert(coordinator::queued_views(self.batch@) =~= Seq::empty());
        }
        let target = queue.wanted_flush();
        let shutdown = queue.is_shutdown();
        if queue.is_empty() {
            if target.is_none() && !shutdown {
                self.phase = WriterPhase::Collect;
                return WriterStep::Sleep;
            }
            if shutdown {
                self.phase = WriterPhase::Stopped;
                return WriterStep::Exit;
            }
        }
        self.batch = queue.take_batch(self.config.wal_write_batch_bytes, None);
        self.phase = WriterPhase::Write { target, shutdown };
        WriterStep::Perform
    }

    fn drain(&mut self, queue: &mut WalQueue, target: Lsn) -> (step: WriterStep)
        requires
            old(self).wf(),
            old(queue).wf(),
        ensures
            final(self).wf(),
            final(queue).wf(),
            final(self).spec_config() == old(self).spec_config(),
            final(self).log() == old(self).log(),
            final(self).sure() == old(self).sure(),
            final(self).unsynced() == old(self).unsynced(),
            final(self).counters() == old(self).counters(),
            (Decision { phase: final(self).phase(), queue: final(queue)@, batch: final(self).held(), step })
                == drained(old(queue)@, old(self).spec_config(), old(self).log().log.written, target),
    {
        self.batch = Vec::new();
        proof {
            assert(coordinator::queued_views(self.batch@) =~= Seq::empty());
        }
        if self.wal.written_lsn().0 >= target.0 {
            self.phase = WriterPhase::Flush { requested: true };
            return WriterStep::Perform;
        }
        if queue.is_empty() {
            if queue.check_wal_failure().is_err() {
                queue.publish_wal_failure();
                self.phase = WriterPhase::Stopped;
                return WriterStep::Exit;
            }
            self.phase = WriterPhase::Drain(target);
            return WriterStep::Sleep;
        }
        self.batch = queue.take_batch(self.config.wal_write_batch_bytes, Some(target));
        self.phase = WriterPhase::DrainWrite(target);
        WriterStep::Perform
    }

    /// Decides what to do next.
    pub fn decide(&mut self, queue: &mut WalQueue) -> (step: WriterStep)
        requires
            old(self).wf(),
            old(queue).wf(),
        ensures
            final(self).wf(),
            final(queue).wf(),
            final(self).spec_config() == old(self).spec_config(),
            final(self).log() == old(self).log(),
            final(self).sure() == old(self).sure(),
            final(self).unsynced() == old(self).unsynced(),
            final(self).counters() == old(self).counters(),
            (Decision { phase: final(self).phase(), queue: final(queue)@, batch: final(self).held(), step }) == decided(
                old(self).phase(),
                old(self).held(),
                old(queue)@,
                old(self).spec_config(),
                old(self).log().log.written,
                old(self).log().log.durable,
            ),
    {
        match self.phase {
            WriterPhase::Collect => self.collect(queue),
            WriterPhase::Window(target) => {
                let durable: u64 = self.wal.durable_lsn().0;
                if self.config.group_commit_delay_us != 0 && target.0.saturating_sub(durable)
                    < self.config.group_commit_max_batch_bytes {
                    self.phase = WriterPhase::Drain(target);
                    self.batch = Vec::new();
                    proof {
                        assert(coordinator::queued_views(self.batch@) =~= Seq::empty());
                    }
                    WriterStep::SleepFor(self.config.group_commit_delay_us)
                } else {
                    self.drain(queue, target)
                }
            },
            WriterPhase::Drain(target) => self.drain(queue, target),
            WriterPhase::Flushed { durable, requested } => {
                queue.note_durable(durable, requested);
                self.collect(queue)
            },
            WriterPhase::Failed => {
                self.batch = Vec::new();
                proof {
                    assert(coordinator::queued_views(self.batch@) =~= Seq::empty());
                }
                queue.publish_wal_failure();
                self.phase = WriterPhase::Stopped;
                WriterStep::Exit
            },
            WriterPhase::Stopped => {
                self.batch = Vec::new();
                proof {
                    assert(coordinator::queued_views(self.batch@) =~= Seq::empty());
                }
                WriterStep::Exit
            },
            WriterPhase::Write { .. } => WriterStep::Perform,
            WriterPhase::DrainWrite(_) => WriterStep::Perform,
            WriterPhase::Flush { .. } => WriterStep::Perform,
        }
    }

    /// What was written since the last synchronization, once a batch is added.
    pub open spec fn covering(self, batch: Seq<QueuedView>) -> (u64, u64) {
        (
            counters::full_sum(self.unsynced().0, batch.len() as u64),
            counters::full_sum(self.unsynced().1, counted_bytes(batch)),
        )
    }

    fn note_batch(&mut self)
        ensures
            final(self).wf() == old(self).wf(),
            final(self).phase() == old(self).phase(),
            final(self).spec_config() == old(self).spec_config(),
            final(self).held() == old(self).held(),
            final(self).log() == old(self).log(),
            final(self).sure() == old(self).sure(),
            final(self).counters() == old(self).counters(),
            final(self).unsynced() == old(self).covering(old(self).held()),
    {
        let bytes: u64 = count_bytes(&self.batch);
        self.unsynced_records = self.unsynced_records.saturating_add(self.batch.len() as u64);
        self.unsynced_bytes = self.unsynced_bytes.saturating_add(bytes);
    }

    /// Whether the next thing to perform is a synchronization.
    pub fn flushes_next(&self) -> (flushes: bool)
        ensures
            flushes == self.phase() is Flush,
    {
        matches!(self.phase, WriterPhase::Flush { .. })
    }

    /// What the synchronizations covered so far.
    pub fn sync_counters_snapshot(&self) -> (counters: WalSyncCountersSnapshot)
        ensures
            counters == self.counters(),
    {
        self.counters
    }

    /// Writes the batch, or synchronizes. Where writing is sure, only a batch that does not belong
    /// where the log stands fails.
    pub fn perform(&mut self)
        requires
            old(self).wf(),
        ensures
            final(self).wf(),
            final(self).spec_config() == old(self).spec_config(),
            final(self).held() == old(self).held(),
            old(self).sure() && !(old(self).phase() is Failed) ==> {
                let writes = old(self).phase() is Write || old(self).phase() is DrainWrite;
                &&& final(self).phase() is Failed <==> writes && !old(self).log().accepts_all(old(self).held())
                &&& !(final(self).phase() is Failed) ==> final(self).sure()
            },
            match old(self).phase() {
                WriterPhase::Write { target, shutdown } => {
                    ||| {
                        &&& final(self).phase() == WriterPhase::Failed
                        &&& final(self).log().log.durable == old(self).log().log.durable
                        &&& final(self).unsynced() == old(self).unsynced()
                        &&& final(self).counters() == old(self).counters()
                    }
                    ||| {
                        &&& final(self).phase() == after_batch(target, shutdown, old(self).held())
                        &&& old(self).log().accepts_all(old(self).held())
                        &&& final(self).log() == old(self).log().with_all(old(self).held())
                        &&& final(self).unsynced() == old(self).covering(old(self).held())
                        &&& final(self).counters() == old(self).counters()
                    }
                },
                WriterPhase::DrainWrite(target) => {
                    ||| {
                        &&& final(self).phase() == WriterPhase::Failed
                        &&& final(self).log().log.durable == old(self).log().log.durable
                        &&& final(self).unsynced() == old(self).unsynced()
                        &&& final(self).counters() == old(self).counters()
                    }
                    ||| {
                        &&& final(self).phase() == WriterPhase::Drain(target)
                        &&& old(self).log().accepts_all(old(self).held())
                        &&& final(self).log() == old(self).log().with_all(old(self).held())
                        &&& final(self).unsynced() == old(self).covering(old(self).held())
                        &&& final(self).counters() == old(self).counters()
                    }
                },
                WriterPhase::Flush { requested } => {
                    let before = old(self).log();
                    &&& final(self).log().files == before.files
                    &&& {
                        ||| {
                            &&& final(self).phase() == WriterPhase::Failed
                            &&& final(self).log().log == before.log
                            &&& final(self).unsynced() == old(self).unsynced()
                            &&& final(self).counters() == old(self).counters()
                        }
                        ||| {
                            &&& final(self).phase() == (WriterPhase::Flushed { durable: before.log.written, requested })
                            &&& final(self).log() == (Written {
                                log: LogView { durable: before.log.written, ..before.log },
                                files: before.files,
                                synced: before.synced.insert(before.log.path(), before.files[before.log.path()]),
                            })
                            &&& final(self).unsynced() == (0u64, 0u64)
                            &&& final(self).counters().counts_batch(
                                old(self).counters(),
                                old(self).unsynced().0,
                                old(self).unsynced().1,
                            )
                        }
                    }
                },
                other => {
                    &&& final(self).phase() == other
                    &&& final(self).log() == old(self).log()
                    &&& final(self).unsynced() == old(self).unsynced()
                    &&& final(self).counters() == old(self).counters()
                },
            },
    {
        match self.phase {
            WriterPhase::Write { target, shutdown } => {
                let end = if self.batch.len() == 0 {
                    Lsn(0)
                } else {
                    self.batch[self.batch.len() - 1].append.end_lsn
                };
                match write_batch(&mut self.wal, &self.batch) {
                    Err(_) => {
                        self.phase = WriterPhase::Failed;
                    },
                    Ok(_) => {
                        self.note_batch();
                        self.phase = match target {
                            Some(lsn) => WriterPhase::Window(lsn),
                            None => if shutdown && end.0 != 0 {
                                WriterPhase::Flush { requested: false }
                            } else {
                                WriterPhase::Collect
                            },
                        };
                    },
                }
            },
            WriterPhase::DrainWrite(target) => {
                match write_batch(&mut self.wal, &self.batch) {
                    Err(_) => {
                        self.phase = WriterPhase::Failed;
                    },
                    Ok(_) => {
                        self.note_batch();
                        self.phase = WriterPhase::Drain(target);
                    },
                }
            },
            WriterPhase::Flush { requested } => {
                match self.wal.flush() {
                    Err(_) => {
                        self.phase = WriterPhase::Failed;
                    },
                    Ok(durable) => {
                        self.counters.record_batch(self.unsynced_records, self.unsynced_bytes);
                        self.unsynced_records = 0;
                        self.unsynced_bytes = 0;
                        self.phase = WriterPhase::Flushed { durable, requested };
                    },
                }
            },
            _ => {},
        }
    }

    /// The log, once the writer is done with it.
    pub fn into_wal(self) -> (wal: WalManager<Fs>)
        ensures
            written_of(wal) == self.log(),
            sure(wal) == self.sure(),
    {
        self.wal
    }
}

} // verus!
