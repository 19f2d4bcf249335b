//! The queue between those who log and the one who writes the log.
//!
//! Appends reserve positions and queue records; the writer takes batches off the queue, writes
//! them, and makes the log durable up to what was asked for. The functions here decide; whoever
//! runs them waits, writes and synchronizes files in between.
use crate::error::{Error, Result};
use crate::format::{Csn, Lsn, TxId};
use crate::wal::payload;
use crate::wal::payload::{PayloadView, WalPayload};
use crate::wal::record;
use crate::wal::record::{RecordView, WalRecord, WalRecordKind, WAL_HEADER_LEN};
use crate::wal::segment;
use crate::wal::{WalAppend, WalConfig};
use std::collections::VecDeque;
use vstd::prelude::*;

verus! {

/// Bytes of the record of a commit.
pub const COMMIT_RECORD_LEN: usize = 57;

/// A record that waits to be written.
#[derive(Debug, PartialEq, Eq)]
pub struct QueuedWalRecord {
    pub append: WalAppend,
    pub encoded: Vec<u8>,
}

/// The contents of a queued record.
#[verifier::ext_equal]
pub struct QueuedView {
    pub append: WalAppend,
    pub encoded: Seq<u8>,
}

impl View for QueuedWalRecord {
    type V = QueuedView;

    open spec fn view(&self) -> QueuedView {
        QueuedView { append: self.append, encoded: self.encoded@ }
    }
}

pub open spec fn queued_views(records: Seq<QueuedWalRecord>) -> Seq<QueuedView> {
    Seq::new(records.len(), |i: int| records[i]@)
}

/// Bytes of queued records.
pub open spec fn queued_len(records: Seq<QueuedView>) -> nat
    decreases records.len(),
{
    if records.len() == 0 {
        0
    } else {
        records[0].encoded.len() + queued_len(records.drop_first())
    }
}

/// How many records a batch takes: up to the first one with which it holds `limit` bytes or
/// reaches `target`.
pub open spec fn batch_count(records: Seq<QueuedView>, held: int, limit: int, target: Option<Lsn>) -> nat
    decreases records.len(),
{
    if records.len() == 0 {
        0
    } else {
        let now = held + records[0].encoded.len();
        if (now >= limit && now >= 1) || (target matches Some(lsn) && records[0].append.end_lsn.0 >= lsn.0) {
            1
        } else {
            1 + batch_count(records.drop_first(), now, limit, target)
        }
    }
}

/// The contents of the queue.
#[verifier::ext_equal]
pub struct QueueView {
    pub reserved: Lsn,
    pub prev: Lsn,
    pub durable: Lsn,
    pub pending: Seq<QueuedView>,
    pub flush_requested: Lsn,
    pub shutdown: bool,
    pub failure: Option<&'static str>,
}

/// The queue of records that wait to be written, and what is known about the log.
#[derive(Debug)]
pub struct WalQueue {
    reserved_lsn: Lsn,
    prev_lsn: Lsn,
    durable_lsn: Lsn,
    pending: VecDeque<QueuedWalRecord>,
    pending_bytes: usize,
    flush_requested_lsn: Lsn,
    shutdown: bool,
    failure: Option<&'static str>,
}

impl View for WalQueue {
    type V = QueueView;

    closed spec fn view(&self) -> QueueView {
        QueueView {
            reserved: self.reserved_lsn,
            prev: self.prev_lsn,
            durable: self.durable_lsn,
            pending: queued_views(self.pending@),
            flush_requested: self.flush_requested_lsn,
            shutdown: self.shutdown,
            failure: self.failure,
        }
    }
}

/// Where a record of this length starts: right behind the last one, or at the start of the next
/// segment where it would cross its end.
pub open spec fn reserve_start(reserved: int, segment_bytes: int, len: int) -> int {
    let offset = segment::offset_of(reserved, segment_bytes);
    if offset > 0 && offset + len > segment_bytes {
        segment::segment_of(reserved, segment_bytes) * segment_bytes
    } else {
        reserved
    }
}

/// A reserved record lies in one segment, behind everything that was reserved before.
pub proof fn law_reservations_ascend(reserved: int, segment_bytes: int, len: int)
    requires
        0 <= reserved,
        0 < len <= segment_bytes,
    ensures
        reserve_start(reserved, segment_bytes, len) >= reserved,
        reserve_start(reserved, segment_bytes, len) < reserved + segment_bytes,
        segment::offset_of(reserve_start(reserved, segment_bytes, len), segment_bytes) + len <= segment_bytes,
{
    segment::law_position_of_lsn(reserved, segment_bytes);
    let offset = segment::offset_of(reserved, segment_bytes);
    let seg = segment::segment_of(reserved, segment_bytes);
    if offset > 0 && offset + len > segment_bytes {
        assert((seg - 1) * segment_bytes + segment_bytes == seg * segment_bytes) by (nonlinear_arith);
        segment::law_lsn_of_position(seg + 1, 0, segment_bytes);
        assert(segment::position(seg + 1, 0, segment_bytes) == seg * segment_bytes);
    }
}

impl QueueView {
    /// Whether a record of this length may ever be queued.
    pub open spec fn too_large(config: WalConfig, len: int) -> Option<Error> {
        if len > config.segment_bytes {
            Some(Error::CorruptWal("record larger than wal segment"))
        } else if len > config.wal_buffer_bytes {
            Some(Error::CorruptWal("record larger than wal buffer"))
        } else {
            None
        }
    }

    /// Whether the queue has room for a record of this length.
    pub open spec fn admits(self, config: WalConfig, len: int) -> bool {
        queued_len(self.pending) + len <= config.wal_buffer_bytes
    }

    /// Why a record of this length is refused, whether or not the queue is full.
    pub open spec fn refusal(self, config: WalConfig, len: int) -> Option<Error> {
        match Self::too_large(config, len) {
            Some(e) => Some(e),
            None => if self.failure is Some {
                Some(Error::CorruptWal(self.failure->0))
            } else if !self.has_room(config) || queued_len(self.pending) + len > usize::MAX {
                Some(Error::CorruptWal("lsn overflow"))
            } else {
                None
            },
        }
    }

    /// The positions of the next record.
    pub open spec fn next_append(self, config: WalConfig, len: int) -> WalAppend {
        let start = reserve_start(self.reserved.0 as int, config.segment_bytes as int, len);
        WalAppend { start_lsn: Lsn(start as u64), end_lsn: Lsn((start + len) as u64) }
    }

    /// The queue after a record is added.
    pub open spec fn with_record(self, config: WalConfig, kind: WalRecordKind, tx_id: TxId, data: Seq<u8>) -> QueueView {
        let len = (WAL_HEADER_LEN + data.len()) as int;
        let append = self.next_append(config, len);
        let made = RecordView { lsn: append.start_lsn, prev_lsn: self.prev, tx_id, kind, payload: data };
        QueueView {
            reserved: append.end_lsn,
            prev: append.start_lsn,
            pending: self.pending.push(QueuedView { append, encoded: made.frame() }),
            ..self
        }
    }

    /// The queue without its first records.
    pub open spec fn without(self, n: nat) -> QueueView {
        QueueView { pending: self.pending.skip(n as int), ..self }
    }

    /// The queue once the log is durable up to `lsn`.
    pub open spec fn durable_at(self, lsn: Lsn, requested: bool) -> QueueView {
        QueueView {
            durable: lsn,
            flush_requested: if requested && self.flush_requested.0 <= lsn.0 {
                Lsn(0)
            } else {
                self.flush_requested
            },
            ..self
        }
    }

    /// The position up to which durability is asked for and not yet given.
    pub open spec fn wanted_flush(self) -> Option<Lsn> {
        if self.flush_requested.0 > self.durable.0 {
            Some(self.flush_requested)
        } else {
            None
        }
    }

    /// Whether positions for one more record can be counted.
    pub open spec fn has_room(self, config: WalConfig) -> bool {
        self.reserved.0 + config.segment_bytes + config.segment_bytes <= u64::MAX
    }
}

/// What became of an attempt to append.
#[derive(Clone, Copy, Debug, PartialEq, Eq, Structural)]
pub enum AppendStep {
    /// The record is queued.
    Queued(WalAppend),
    /// The queue is full: wait until the writer has taken something off it.
    Wait,
}

/// What a request for durability has to do next.
#[derive(Clone, Copy, Debug, PartialEq, Eq, Structural)]
pub enum FlushStep {
    /// The log is durable up to here.
    Done(Lsn),
    /// Wait until the writer has made more durable.
    Wait,
}

pub proof fn lemma_queued_len_push(records: Seq<QueuedView>, r: QueuedView)
    ensures
        queued_len(records.push(r)) == queued_len(records) + r.encoded.len(),
    decreases records.len(),
{
    if records.len() > 0 {
        assert(records.push(r).drop_first() =~= records.drop_first().push(r));
        lemma_queued_len_push(records.drop_first(), r);
    } else {
        reveal_with_fuel(queued_len, 2);
        assert(records.push(r).drop_first() =~= Seq::empty());
    }
}

pub proof fn lemma_batch_count(records: Seq<QueuedView>, held: int, limit: int, target: Option<Lsn>)
    ensures
        batch_count(records, held, limit, target) <= records.len(),
    decreases records.len(),
{
    if records.len() > 0 {
        lemma_batch_count(records.drop_first(), held + records[0].encoded.len(), limit, target);
    }
}

/// Reserves the positions of a record.
fn reserve_queued_append(reserved_lsn: Lsn, segment_bytes: u64, encoded_len: u64) -> (r: Result<WalAppend>)
    requires
        segment_bytes >= WAL_HEADER_LEN,
        reserved_lsn.0 + segment_bytes + segment_bytes <= u64::MAX,
    ensures
        match r {
            Ok(append) => {
                let start = reserve_start(reserved_lsn.0 as int, segment_bytes as int, encoded_len as int);
                &&& encoded_len <= segment_bytes
                &&& append.start_lsn.0 == start
                &&& append.end_lsn.0 == start + encoded_len
            },
            Err(e) => encoded_len > segment_bytes && e == Error::CorruptWal("record larger than wal segment"),
        },
{
    if encoded_len > segment_bytes {
        return Err(Error::CorruptWal("record larger than wal segment"));
    }
    let current_segment: u64 = segment::segment_for_lsn(reserved_lsn, segment_bytes);
    let current_offset: u64 = segment::offset_for_lsn(reserved_lsn, segment_bytes);
    proof {
        let l = reserved_lsn.0 as int;
        let b = segment_bytes as int;
        segment::law_position_of_lsn(l, b);
        let seg = segment::segment_of(l, b);
        assert((seg - 1) * b + b == seg * b) by (nonlinear_arith);
    }
    let start: u64 = if current_offset > 0 && current_offset + encoded_len > segment_bytes {
        current_segment * segment_bytes
    } else {
        reserved_lsn.0
    };
    Ok(WalAppend { start_lsn: Lsn(start), end_lsn: Lsn(start + encoded_len) })
}

impl WalQueue {
    pub closed spec fn wf(self) -> bool {
        self.pending_bytes == queued_len(queued_views(self.pending@))
    }

    /// An empty queue for a log that stands at these positions.
    pub fn new(written_lsn: Lsn, prev_lsn: Lsn, durable_lsn: Lsn) -> (queue: WalQueue)
        ensures
            queue.wf(),
            queue@ == (QueueView {
                reserved: written_lsn,
                prev: prev_lsn,
                durable: durable_lsn,
                pending: Seq::empty(),
                flush_requested: Lsn(0),
                shutdown: false,
                failure: None,
            }),
    {
        let queue = WalQueue {
            reserved_lsn: written_lsn,
            prev_lsn,
            durable_lsn,
            pending: VecDeque::new(),
            pending_bytes: 0,
            flush_requested_lsn: Lsn(0),
            shutdown: false,
            failure: None,
        };
        proof {
            assert(queued_views(queue.pending@) =~= Seq::empty());
        }
        queue
    }

    /// Refuses further work once the writer has failed.
    pub fn check_wal_failure(&self) -> (r: Result<()>)
        ensures
            match r {
                Ok(_) => self@.failure is None,
                Err(e) => self@.failure matches Some(message) && e == Error::CorruptWal(message),
            },
    {
        match self.failure {
            Some(message) => Err(Error::CorruptWal(message)),
            None => Ok(()),
        }
    }

    /// Notes that the writer has failed.
    pub fn publish_wal_failure(&mut self)
        ensures
            old(self).wf() ==> final(self).wf(),
            final(self)@ == (QueueView { failure: Some("wal writer failed"), ..old(self)@ }),
    {
        self.failure = Some("wal writer failed");
    }

    /// Asks the writer to stop once the queue is empty.
    pub fn request_shutdown(&mut self)
        ensures
            old(self).wf() ==> final(self).wf(),
            final(self)@ == (QueueView { shutdown: true, ..old(self)@ }),
    {
        self.shutdown = true;
    }

    /// Whether a record of this length can be queued now; an error if it never can, or if the
    /// writer has failed.
    pub fn has_space(&self, config: &WalConfig, encoded_len: usize) -> (r: Result<bool>)
        requires
            self.wf(),
            encoded_len >= WAL_HEADER_LEN,
        ensures
            match r {
                Err(e) => match QueueView::too_large(*config, encoded_len as int) {
                    Some(problem) => e == problem,
                    None => self@.failure matches Some(message) && e == Error::CorruptWal(message),
                },
                Ok(now) => {
                    &&& QueueView::too_large(*config, encoded_len as int) is None
                    &&& self@.failure is None
                    &&& now == self@.admits(*config, encoded_len as int)
                },
            },
    {
        if encoded_len as u64 > config.segment_bytes {
            return Err(Error::CorruptWal("record larger than wal segment"));
        }
        if encoded_len > config.wal_buffer_bytes {
            return Err(Error::CorruptWal("record larger than wal buffer"));
        }
        self.check_wal_failure()?;
        let available: usize = config.wal_buffer_bytes.saturating_sub(self.pending_bytes);
        Ok(available >= encoded_len)
    }

    /// Queues a record for which there is room.
    fn enqueue_reserved_record(
        &mut self,
        config: &WalConfig,
        kind: WalRecordKind,
        tx_id: TxId,
        payload: Vec<u8>,
    ) -> (r: Result<WalAppend>)
        requires
            old(self).wf(),
            config.problem() is None,
            old(self)@.has_room(*config),
            WAL_HEADER_LEN + payload@.len() <= config.segment_bytes,
            queued_len(old(self)@.pending) + WAL_HEADER_LEN + payload@.len() <= usize::MAX,
        ensures
            final(self).wf(),
            match r {
                Ok(append) => {
                    &&& payload@.len() <= u32::MAX
                    &&& append == old(self)@.next_append(*config, (WAL_HEADER_LEN + payload@.len()) as int)
                    &&& final(self)@ == old(self)@.with_record(*config, kind, tx_id, payload@)
                },
                Err(e) => {
                    &&& payload@.len() > u32::MAX
                    &&& e == Error::CorruptWal("record payload too large")
                    &&& final(self)@ == (QueueView {
                        reserved: old(self)@.next_append(
                            *config,
                            (WAL_HEADER_LEN + payload@.len()) as int,
                        ).end_lsn,
                        ..old(self)@
                    })
                },
            },
    {
        let encoded_len: u64 = payload.len() as u64 + WAL_HEADER_LEN as u64;
        let append = reserve_queued_append(self.reserved_lsn, config.segment_bytes, encoded_len)?;
        self.reserved_lsn = append.end_lsn;
        let record = WalRecord { lsn: append.start_lsn, prev_lsn: self.prev_lsn, tx_id, kind, payload };
        let encoded: Vec<u8> = record.encode()?;
        proof {
            record::lemma_frame_len(record@);
        }
        self.prev_lsn = append.start_lsn;
        self.pending_bytes = self.pending_bytes + encoded.len();
        let queued = QueuedWalRecord { append, encoded };
        let ghost before = queued_views(self.pending@);
        self.pending.push_back(queued);
        proof {
            lemma_queued_len_push(before, queued@);
            assert(queued_views(self.pending@) =~= before.push(queued@));
            assert(self@ =~= old(self)@.with_record(*config, kind, tx_id, payload@));
        }
        Ok(append)
    }

    /// Queues a record, if there is room for it.
    pub fn append(&mut self, config: &WalConfig, kind: WalRecordKind, tx_id: TxId, payload: Vec<u8>) -> (r: Result<
        AppendStep,
    >)
        requires
            old(self).wf(),
            config.problem() is None,
            old(self)@.has_room(*config),
        ensures
            final(self).wf(),
            ({
                let len = (WAL_HEADER_LEN + payload@.len()) as int;
                match r {
                    Ok(AppendStep::Queued(append)) => {
                        &&& QueueView::too_large(*config, len) is None
                        &&& old(self)@.failure is None
                        &&& old(self)@.admits(*config, len)
                        &&& payload@.len() <= u32::MAX
                        &&& append == old(self)@.next_append(*config, len)
                        &&& final(self)@ == old(self)@.with_record(*config, kind, tx_id, payload@)
                    },
                    Ok(AppendStep::Wait) => {
                        &&& QueueView::too_large(*config, len) is None
                        &&& old(self)@.failure is None
                        &&& !old(self)@.admits(*config, len)
                        &&& final(self)@ == old(self)@
                    },
                    Err(e) => if len > usize::MAX {
                        e == Error::CorruptWal("record length overflow") && final(self)@ == old(self)@
                    } else {
                        match QueueView::too_large(*config, len) {
                            Some(problem) => e == problem && final(self)@ == old(self)@,
                            None => if old(self)@.failure is Some {
                                e == Error::CorruptWal(old(self)@.failure->0) && final(self)@ == old(self)@
                            } else {
                                &&& old(self)@.admits(*config, len)
                                &&& payload@.len() > u32::MAX
                                &&& e == Error::CorruptWal("record payload too large")
                                &&& final(self)@ == (QueueView {
                                    reserved: old(self)@.next_append(*config, len).end_lsn,
                                    ..old(self)@
                                })
                            },
                        }
                    },
                }
            }),
    {
        let encoded_len: usize = match payload.len().checked_add(WAL_HEADER_LEN) {
            Some(len) => len,
            None => return Err(Error::CorruptWal("record length overflow")),
        };
        if !self.has_space(config, encoded_len)? {
            return Ok(AppendStep::Wait);
        }
        let append = self.enqueue_reserved_record(config, kind, tx_id, payload)?;
        Ok(AppendStep::Queued(append))
    }

    /// Queues a record whether or not the queue is full: for a caller that cannot wait for the writer.
    pub fn append_now(&mut self, config: &WalConfig, kind: WalRecordKind, tx_id: TxId, payload: Vec<u8>) -> (r: Result<
        WalAppend,
    >)
        requires
            old(self).wf(),
            config.problem() is None,
            payload@.len() <= u32::MAX,
        ensures
            final(self).wf(),
            ({
                let len = (WAL_HEADER_LEN + payload@.len()) as int;
                match old(self)@.refusal(*config, len) {
                    Some(e) => r == Err::<WalAppend, Error>(e) && final(self)@ == old(self)@,
                    None => {
                        &&& r == Ok::<WalAppend, Error>(old(self)@.next_append(*config, len))
                        &&& final(self)@ == old(self)@.with_record(*config, kind, tx_id, payload@)
                    },
                }
            }),
    {
        let encoded_len: u64 = payload.len() as u64 + WAL_HEADER_LEN as u64;
        if encoded_len > config.segment_bytes {
            return Err(Error::CorruptWal("record larger than wal segment"));
        }
        if encoded_len > config.wal_buffer_bytes as u64 {
            return Err(Error::CorruptWal("record larger than wal buffer"));
        }
        self.check_wal_failure()?;
        let span: u64 = match config.segment_bytes.checked_add(config.segment_bytes) {
            Some(span) => span,
            None => return Err(Error::CorruptWal("lsn overflow")),
        };
        if self.reserved_lsn.0.checked_add(span).is_none() || encoded_len as usize > usize::MAX - self.pending_bytes {
            return Err(Error::CorruptWal("lsn overflow"));
        }
        self.enqueue_reserved_record(config, kind, tx_id, payload)
    }

    /// Queues the record of a commit, if there is room for it.
    pub fn append_commit_with_csn(&mut self, config: &WalConfig, tx_id: TxId, csn: Csn) -> (r: Result<AppendStep>)
        requires
            old(self).wf(),
            config.problem() is None,
            old(self)@.has_room(*config),
        ensures
            final(self).wf(),
            match r {
                Ok(AppendStep::Queued(append)) => {
                    &&& QueueView::too_large(*config, COMMIT_RECORD_LEN as int) is None
                    &&& old(self)@.failure is None
                    &&& old(self)@.admits(*config, COMMIT_RECORD_LEN as int)
                    &&& append == old(self)@.next_append(*config, COMMIT_RECORD_LEN as int)
                    &&& final(self)@ == old(self)@.with_record(
                        *config,
                        WalRecordKind::Commit,
                        tx_id,
                        (PayloadView::Commit { tx_id, csn }).image(),
                    )
                },
                Ok(AppendStep::Wait) => {
                    &&& QueueView::too_large(*config, COMMIT_RECORD_LEN as int) is None
                    &&& old(self)@.failure is None
                    &&& !old(self)@.admits(*config, COMMIT_RECORD_LEN as int)
                    &&& final(self)@ == old(self)@
                },
                Err(e) => {
                    &&& final(self)@ == old(self)@
                    &&& match QueueView::too_large(*config, COMMIT_RECORD_LEN as int) {
                        Some(problem) => e == problem,
                        None => old(self)@.failure matches Some(message) && e == Error::CorruptWal(message),
                    }
                },
            },
    {
        broadcast use crate::format::bytes::lemma_le_bytes_len;

        if !self.has_space(config, COMMIT_RECORD_LEN)? {
            return Ok(AppendStep::Wait);
        }
        let payload: Vec<u8> = (WalPayload::Commit { tx_id, csn }).encode()?;
        let append = self.enqueue_reserved_record(config, WalRecordKind::Commit, tx_id, payload)?;
        Ok(AppendStep::Queued(append))
    }

    /// Queues the record of a commit, if there is room for it. The commit sequence number is
    /// reserved only then.
    pub fn append_commit<F: FnOnce() -> Csn>(&mut self, config: &WalConfig, tx_id: TxId, reserve_csn: F) -> (r: Result<
        Option<(Csn, WalAppend)>,
    >)
        requires
            old(self).wf(),
            config.problem() is None,
            old(self)@.has_room(*config),
            reserve_csn.requires(()),
        ensures
            final(self).wf(),
            match r {
                Ok(Some((csn, append))) => {
                    &&& QueueView::too_large(*config, COMMIT_RECORD_LEN as int) is None
                    &&& old(self)@.failure is None
                    &&& old(self)@.admits(*config, COMMIT_RECORD_LEN as int)
                    &&& reserve_csn.ensures((), csn)
                    &&& append == old(self)@.next_append(*config, COMMIT_RECORD_LEN as int)
                    &&& final(self)@ == old(self)@.with_record(
                        *config,
                        WalRecordKind::Commit,
                        tx_id,
                        (PayloadView::Commit { tx_id, csn }).image(),
                    )
                },
                Ok(None) => {
                    &&& QueueView::too_large(*config, COMMIT_RECORD_LEN as int) is None
                    &&& old(self)@.failure is None
                    &&& !old(self)@.admits(*config, COMMIT_RECORD_LEN as int)
                    &&& final(self)@ == old(self)@
                },
                Err(e) => {
                    &&& final(self)@ == old(self)@
                    &&& match QueueView::too_large(*config, COMMIT_RECORD_LEN as int) {
                        Some(problem) => e == problem,
                        None => old(self)@.failure matches Some(message) && e == Error::CorruptWal(message),
                    }
                },
            },
    {
        if !self.has_space(config, COMMIT_RECORD_LEN)? {
            return Ok(None);
        }
        let csn = reserve_csn();
        match self.append_commit_with_csn(config, tx_id, csn)? {
            AppendStep::Queued(append) => Ok(Some((csn, append))),
            AppendStep::Wait => Ok(None),
        }
    }

    /// Asks for durability up to `target`.
    pub fn flush_until(&mut self, target_lsn: Lsn) -> (r: Result<FlushStep>)
        ensures
            old(self).wf() ==> final(self).wf(),
            match r {
                Err(e) => {
                    &&& old(self)@.failure matches Some(message) && e == Error::CorruptWal(message)
                    &&& final(self)@ == old(self)@
                },
                Ok(FlushStep::Done(lsn)) => {
                    &&& old(self)@.failure is None
                    &&& old(self)@.durable.0 >= target_lsn.0
                    &&& lsn == old(self)@.durable
                    &&& final(self)@ == old(self)@
                },
                Ok(FlushStep::Wait) => {
                    &&& old(self)@.failure is None
                    &&& old(self)@.durable.0 < target_lsn.0
                    &&& final(self)@ == (QueueView {
                        flush_requested: if target_lsn.0 > old(self)@.flush_requested.0 {
                            target_lsn
                        } else {
                            old(self)@.flush_requested
                        },
                        ..old(self)@
                    })
                },
            },
    {
        self.check_wal_failure()?;
        if self.durable_lsn.0 >= target_lsn.0 {
            return Ok(FlushStep::Done(self.durable_lsn));
        }
        if target_lsn.0 > self.flush_requested_lsn.0 {
            self.flush_requested_lsn = target_lsn;
        }
        Ok(FlushStep::Wait)
    }

    /// Asks for durability of everything that has been queued.
    pub fn flush_all(&mut self) -> (r: Result<FlushStep>)
        ensures
            old(self).wf() ==> final(self).wf(),
            match r {
                Err(e) => {
                    &&& old(self)@.failure matches Some(message) && e == Error::CorruptWal(message)
                    &&& final(self)@ == old(self)@
                },
                Ok(FlushStep::Done(lsn)) => {
                    &&& old(self)@.failure is None
                    &&& old(self)@.durable.0 >= old(self)@.reserved.0
                    &&& lsn == old(self)@.durable
                    &&& final(self)@ == old(self)@
                },
                Ok(FlushStep::Wait) => {
                    &&& old(self)@.failure is None
                    &&& old(self)@.durable.0 < old(self)@.reserved.0
                    &&& final(self)@ == (QueueView {
                        flush_requested: if old(self)@.reserved.0 > old(self)@.flush_requested.0 {
                            old(self)@.reserved
                        } else {
                            old(self)@.flush_requested
                        },
                        ..old(self)@
                    })
                },
            },
    {
        let target = self.reserved_lsn;
        self.flush_until(target)
    }

    pub fn written_lsn(&self) -> (lsn: Lsn)
        ensures
            lsn == self@.reserved,
    {
        self.reserved_lsn
    }

    pub fn durable_lsn(&self) -> (lsn: Lsn)
        ensures
            lsn == self@.durable,
    {
        self.durable_lsn
    }

    /// Takes records off the queue until a batch is full or reaches `target`.
    pub fn take_batch(&mut self, limit: usize, target: Option<Lsn>) -> (batch: Vec<QueuedWalRecord>)
        requires
            old(self).wf(),
        ensures
            final(self).wf(),
            ({
                let n = batch_count(old(self)@.pending, 0, limit as int, target);
                &&& n <= old(self)@.pending.len()
                &&& queued_views(batch@) == old(self)@.pending.take(n as int)
                &&& final(self)@ == old(self)@.without(n)
            }),
    {
        let mut batch: Vec<QueuedWalRecord> = Vec::new();
        let mut batch_bytes: usize = 0;
        let mut done = false;
        let ghost all = self@.pending;
        let ghost total = batch_count(all, 0, limit as int, target);
        proof {
            assert(queued_views(batch@) =~= all.take(0));
            assert(all.skip(0) =~= all);
            assert(self@.pending =~= all.skip(0));
            lemma_batch_count(all, 0, limit as int, target);
        }
        while !done
            invariant
                self.wf(),
                all == old(self)@.pending,
                batch@.len() <= all.len(),
                queued_views(batch@) == all.take(batch@.len() as int),
                self@.pending == all.skip(batch@.len() as int),
                self@ == (QueueView { pending: self@.pending, ..old(self)@ }),
                batch_bytes + queued_len(self@.pending) <= usize::MAX,
                done ==> batch@.len() == total,
                !done ==> total == batch@.len() + batch_count(self@.pending, batch_bytes as int, limit as int, target),
            decreases self@.pending.len() + if done { 0nat } else { 1nat },
        {
            let ghost before = self@.pending;
            let ghost taken = batch@;
            match self.pending.pop_front() {
                None => {
                    done = true;
                },
                Some(record) => {
                    proof {
                        assert(before[0] == record@);
                        assert(queued_views(self.pending@) =~= before.drop_first());
                    }
                    batch_bytes = batch_bytes + record.encoded.len();
                    self.pending_bytes = self.pending_bytes - record.encoded.len();
                    let reached = match target {
                        Some(lsn) => record.append.end_lsn.0 >= lsn.0,
                        None => false,
                    };
                    batch.push(record);
                    done = (batch_bytes >= limit && batch_bytes >= 1) || reached;
                    proof {
                        assert(queued_views(batch@) =~= queued_views(taken).push(record@));
                        assert(all.take((taken.len() + 1) as int) =~= all.take(taken.len() as int).push(all[taken.len() as int]));
                        assert(all.skip(taken.len() as int).drop_first() =~= all.skip((taken.len() + 1) as int));
                    }
                },
            }
        }
        batch
    }

    /// Notes that the log is durable up to here.
    pub fn note_durable(&mut self, durable_lsn: Lsn, requested: bool)
        ensures
            old(self).wf() ==> final(self).wf(),
            final(self)@ == old(self)@.durable_at(durable_lsn, requested),
    {
        self.durable_lsn = durable_lsn;
        if requested && self.flush_requested_lsn.0 <= durable_lsn.0 {
            self.flush_requested_lsn = Lsn(0);
        }
    }

    pub fn is_empty(&self) -> (empty: bool)
        ensures
            empty == (self@.pending.len() == 0),
    {
        self.pending.len() == 0
    }

    pub fn is_shutdown(&self) -> (shutdown: bool)
        ensures
            shutdown == self@.shutdown,
    {
        self.shutdown
    }

    /// The position up to which durability is asked for and not yet given.
    pub fn wanted_flush(&self) -> (target: Option<Lsn>)
        ensures
            target == self@.wanted_flush(),
    {
        if self.flush_requested_lsn.0 > self.durable_lsn.0 {
            Some(self.flush_requested_lsn)
        } else {
            None
        }
    }

    /// The segment below which a checkpoint lets all segments go: that of the checkpoint, or the
    /// one in which the next record goes if that comes first.
    pub fn prune_bound(&self, config: &WalConfig, checkpoint_lsn: Lsn) -> (bound: u64)
        requires
            config.segment_bytes > 1,
        ensures
            ({
                let b = config.segment_bytes as int;
                let keep = segment::segment_of(checkpoint_lsn.0 as int, b);
                let active = segment::segment_of(self@.reserved.0 as int, b);
                bound == if keep < active {
                    keep
                } else {
                    active
                }
            }),
    {
        let keep: u64 = segment::segment_for_lsn(checkpoint_lsn, config.segment_bytes);
        let active: u64 = segment::segment_for_lsn(self.reserved_lsn, config.segment_bytes);
        if keep < active {
            keep
        } else {
            active
        }
    }
}

} // verus!
