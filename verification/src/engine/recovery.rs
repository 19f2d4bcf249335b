//! Recovery: what the log says is done again.
use crate::error::{Error, Result};
use crate::format::image;
use crate::format::page::{Page, PageView};
use crate::format::{Csn, Lsn, RelId, RowId, TxId};
use crate::storage::control::{ControlFile, TxStatusCheckpoint};
use crate::txn;
use crate::txn::{ConcurrentTxStatus, TxRecord, TxState};
use crate::wal::payload;
use crate::wal::payload::{PayloadView, WalPayload};
use crate::wal::record;
use crate::wal::record::{RecordView, WalRecord, WalRecordKind, WAL_HEADER_LEN};
use crate::wal::WalScanReport;
use std::collections::HashMap;
use vstd::prelude::*;

verus! {

/// Something that is done again.
#[verifier::ext_equal]
pub enum RedoView {
    PageImage { page: PageView, end_lsn: Lsn },
    Insert { tx_id: TxId, rel_id: RelId, row_id: RowId, payload: Seq<u8> },
    Update { tx_id: TxId, rel_id: RelId, row_id: RowId, payload: Seq<u8> },
    Delete { tx_id: TxId, rel_id: RelId, row_id: RowId },
}

/// A heap that can be recovered. What has been done again is said by implementations that are
/// verified; others leave it out.
pub trait RecoveredHeap: Sized {
    /// What has been done again so far.
    closed spec fn applied(&self) -> Seq<RedoView> {
        Seq::empty()
    }

    /// Whether nothing that is done again can fail.
    closed spec fn never_fails(&self) -> bool {
        false
    }

    /// Puts a page back that was logged up to `end_lsn`.
    fn redo_page_image(&mut self, page: Page, end_lsn: Lsn) -> (r: Result<()>)
        requires
            page.wf(),
        ensures
            final(self).never_fails() == old(self).never_fails(),
            old(self).never_fails() ==> r is Ok,
            r is Ok ==> final(self).applied() == old(self).applied().push(
                RedoView::PageImage { page: page@, end_lsn },
            ),
    ;

    /// Inserts a row again.
    fn insert_recovered_for_relation(&mut self, tx_id: TxId, rel_id: RelId, row_id: RowId, payload: Vec<u8>) -> (r:
        Result<()>)
        ensures
            final(self).never_fails() == old(self).never_fails(),
            old(self).never_fails() ==> r is Ok,
            r is Ok ==> final(self).applied() == old(self).applied().push(
                RedoView::Insert { tx_id, rel_id, row_id, payload: payload@ },
            ),
    ;

    /// Updates a row again.
    fn update_recovered_for_relation(&mut self, tx_id: TxId, rel_id: RelId, row_id: RowId, payload: Vec<u8>) -> (r:
        Result<()>)
        ensures
            final(self).never_fails() == old(self).never_fails(),
            old(self).never_fails() ==> r is Ok,
            r is Ok ==> final(self).applied() == old(self).applied().push(
                RedoView::Update { tx_id, rel_id, row_id, payload: payload@ },
            ),
    ;

    /// Deletes a row again.
    fn delete_recovered_for_relation(&mut self, tx_id: TxId, rel_id: RelId, row_id: RowId) -> (r: Result<()>)
        ensures
            final(self).never_fails() == old(self).never_fails(),
            old(self).never_fails() ==> r is Ok,
            r is Ok ==> final(self).applied() == old(self).applied().push(
                RedoView::Delete { tx_id, rel_id, row_id },
            ),
    ;
}

/// Something that is done again.
pub enum RedoAction {
    PageImage { page: Page, end_lsn: Lsn },
    Insert { tx_id: TxId, rel_id: RelId, row_id: RowId, payload: Vec<u8> },
    Update { tx_id: TxId, rel_id: RelId, row_id: RowId, payload: Vec<u8> },
    Delete { tx_id: TxId, rel_id: RelId, row_id: RowId },
}

impl View for RedoAction {
    type V = RedoView;

    open spec fn view(&self) -> RedoView {
        match self {
            RedoAction::PageImage { page, end_lsn } => RedoView::PageImage { page: page@, end_lsn: *end_lsn },
            RedoAction::Insert { tx_id, rel_id, row_id, payload } => RedoView::Insert {
                tx_id: *tx_id,
                rel_id: *rel_id,
                row_id: *row_id,
                payload: payload@,
            },
            RedoAction::Update { tx_id, rel_id, row_id, payload } => RedoView::Update {
                tx_id: *tx_id,
                rel_id: *rel_id,
                row_id: *row_id,
                payload: payload@,
            },
            RedoAction::Delete { tx_id, rel_id, row_id } => RedoView::Delete {
                tx_id: *tx_id,
                rel_id: *rel_id,
                row_id: *row_id,
            },
        }
    }
}

/// A list of what is to be done again, for a heap that is filled later.
pub struct RedoList {
    pub actions: Vec<RedoAction>,
}

impl RedoList {
    pub fn new() -> (list: RedoList)
        ensures
            list.applied() == Seq::<RedoView>::empty(),
            list.never_fails(),
    {
        let list = RedoList { actions: Vec::new() };
        proof {
            assert(list.applied() =~= Seq::empty());
        }
        list
    }

    fn note(&mut self, action: RedoAction)
        ensures
            final(self).applied() == old(self).applied().push(action@),
    {
        self.actions.push(action);
        proof {
            assert(self.applied() =~= old(self).applied().push(action@));
        }
    }
}

impl RecoveredHeap for RedoList {
    open spec fn applied(&self) -> Seq<RedoView> {
        Seq::new(self.actions@.len(), |i: int| self.actions@[i]@)
    }

    open spec fn never_fails(&self) -> bool {
        true
    }

    fn redo_page_image(&mut self, page: Page, end_lsn: Lsn) -> (r: Result<()>) {
        self.note(RedoAction::PageImage { page, end_lsn });
        Ok(())
    }

    fn insert_recovered_for_relation(&mut self, tx_id: TxId, rel_id: RelId, row_id: RowId, payload: Vec<u8>) -> (r:
        Result<()>) {
        self.note(RedoAction::Insert { tx_id, rel_id, row_id, payload });
        Ok(())
    }

    fn update_recovered_for_relation(&mut self, tx_id: TxId, rel_id: RelId, row_id: RowId, payload: Vec<u8>) -> (r:
        Result<()>) {
        self.note(RedoAction::Update { tx_id, rel_id, row_id, payload });
        Ok(())
    }

    fn delete_recovered_for_relation(&mut self, tx_id: TxId, rel_id: RelId, row_id: RowId) -> (r: Result<()>) {
        self.note(RedoAction::Delete { tx_id, rel_id, row_id });
        Ok(())
    }
}

/// The commit that a commit record stands for.
pub open spec fn commit_of(data: Seq<u8>) -> Result<(TxId, Csn)> {
    match payload::parse_payload(data) {
        Err(e) => Err(e),
        Ok(PayloadView::Commit { tx_id, csn }) => Ok((tx_id, csn)),
        Ok(_) => Err(Error::CorruptWal("commit record has non-commit payload")),
    }
}

/// The commits that a log tells of, in order.
pub open spec fn commits_of(records: Seq<RecordView>) -> Result<Seq<(TxId, Csn)>>
    decreases records.len(),
{
    if records.len() == 0 {
        Ok(Seq::empty())
    } else {
        match commits_of(records.drop_last()) {
            Err(e) => Err(e),
            Ok(commits) => if records.last().kind != WalRecordKind::Commit {
                Ok(commits)
            } else {
                match commit_of(records.last().payload) {
                    Err(e) => Err(e),
                    Ok(commit) => Ok(commits.push(commit)),
                }
            },
        }
    }
}

/// Whether a transaction is among those that committed.
pub open spec fn has_committed(commits: Seq<(TxId, Csn)>, tx_id: TxId) -> bool {
    exists|i: int| 0 <= i < commits.len() && (#[trigger] commits[i]).0 == tx_id
}

/// Where a record ends.
pub open spec fn record_end(r: RecordView) -> int {
    r.lsn.0 + r.frame_len()
}

/// What is done again for the payload of a record.
pub open spec fn redo_payload(r: RecordView, change: PayloadView, commits: Seq<(TxId, Csn)>) -> Result<
    Option<RedoView>,
> {
    let delta = r.kind == WalRecordKind::PageDelta;
    match change {
        PayloadView::PageImage { page_id: _, page_lsn: _, page_bytes } => if !has_committed(commits, r.tx_id) {
            Ok(None)
        } else {
            match image::parse_image(page_bytes) {
                Err(e) => Err(e),
                Ok(page) => if record_end(r) > u64::MAX {
                    Err(Error::CorruptWal("lsn overflow"))
                } else {
                    Ok(Some(RedoView::PageImage { page, end_lsn: Lsn(record_end(r) as u64) }))
                },
            }
        },
        PayloadView::HeapInsert { tx_id, rel_id, row_id, payload } => if delta && has_committed(commits, tx_id) {
            Ok(Some(RedoView::Insert { tx_id, rel_id, row_id, payload }))
        } else {
            Ok(None)
        },
        PayloadView::HeapUpdate { tx_id, rel_id, row_id, payload } => if delta && has_committed(commits, tx_id) {
            Ok(Some(RedoView::Update { tx_id, rel_id, row_id, payload }))
        } else {
            Ok(None)
        },
        PayloadView::HeapDelete { tx_id, rel_id, row_id } => if delta && has_committed(commits, tx_id) {
            Ok(Some(RedoView::Delete { tx_id, rel_id, row_id }))
        } else {
            Ok(None)
        },
        PayloadView::Commit { .. } => Err(Error::CorruptWal("commit payload outside a commit record")),
    }
}

/// What is done again for a record: nothing for a commit or a record from before the checkpoint.
pub open spec fn redo_of(r: RecordView, replay_from: Lsn, commits: Seq<(TxId, Csn)>) -> Result<Option<RedoView>> {
    if r.lsn.0 < replay_from.0 || r.kind == WalRecordKind::Commit {
        Ok(None)
    } else {
        match payload::parse_payload(r.payload) {
            Err(e) => Err(e),
            Ok(change) => redo_payload(r, change, commits),
        }
    }
}

/// What is done again for a log, in order.
pub open spec fn redo_all(records: Seq<RecordView>, replay_from: Lsn, commits: Seq<(TxId, Csn)>) -> Result<
    Seq<RedoView>,
>
    decreases records.len(),
{
    if records.len() == 0 {
        Ok(Seq::empty())
    } else {
        match redo_all(records.drop_last(), replay_from, commits) {
            Err(e) => Err(e),
            Ok(actions) => match redo_of(records.last(), replay_from, commits) {
                Err(e) => Err(e),
                Ok(None) => Ok(actions),
                Ok(Some(action)) => Ok(actions.push(action)),
            },
        }
    }
}

/// What recovery does again for a log, and the commits that it finds.
pub open spec fn recovery_of(records: Seq<RecordView>, replay_from: Lsn) -> Result<
    (Seq<(TxId, Csn)>, Seq<RedoView>),
> {
    match commits_of(records) {
        Err(e) => Err(e),
        Ok(commits) => match redo_all(records, replay_from, commits) {
            Err(e) => Err(e),
            Ok(actions) => Ok((commits, actions)),
        },
    }
}

/// How many of some actions put a page back.
pub open spec fn count_images(actions: Seq<RedoView>) -> nat
    decreases actions.len(),
{
    if actions.len() == 0 {
        0
    } else {
        count_images(actions.drop_last()) + if actions.last() is PageImage {
            1nat
        } else {
            0nat
        }
    }
}

/// What recovery counts.
#[derive(Clone, Copy, Debug, PartialEq, Eq, Structural)]
pub struct RecoveryMetrics {
    pub page_images_redone: usize,
    pub legacy_mutations_redone: usize,
    pub commits_recovered: usize,
}

/// Whether metrics count these commits and actions.
pub open spec fn counts(m: RecoveryMetrics, commits: Seq<(TxId, Csn)>, actions: Seq<RedoView>) -> bool {
    &&& m.page_images_redone == count_images(actions)
    &&& m.legacy_mutations_redone == actions.len() - count_images(actions)
    &&& m.commits_recovered == commits.len()
}

/// The transactions after commits are recovered.
pub open spec fn recovered(before: ConcurrentTxStatus, after: ConcurrentTxStatus, commits: Seq<(TxId, Csn)>) -> bool
    decreases commits.len(),
{
    &&& after.records() == before.records() + Seq::new(
        commits.len(),
        |i: int| TxRecord { tx_id: commits[i].0, state: TxState::Committed(commits[i].1) },
    )
    &&& after.spec_next_tx() == next_after(
        before.spec_next_tx(),
        Seq::new(commits.len(), |i: int| commits[i].0.0),
    )
    &&& after.spec_next_csn() == next_after(
        before.spec_next_csn(),
        Seq::new(commits.len(), |i: int| commits[i].1.0),
    )
    &&& after.spec_published_csn() == largest(
        before.spec_published_csn(),
        Seq::new(commits.len(), |i: int| commits[i].1.0),
    )
    &&& after.spec_active() == before.spec_active()
}

/// The next number after some that were seen.
pub open spec fn next_after(next: u64, seen: Seq<u64>) -> u64
    decreases seen.len(),
{
    if seen.len() == 0 {
        next
    } else {
        txn::at_least_after(next_after(next, seen.drop_last()), seen.last())
    }
}

/// The largest of some numbers.
pub open spec fn largest(least: u64, seen: Seq<u64>) -> u64
    decreases seen.len(),
{
    if seen.len() == 0 {
        least
    } else {
        txn::larger(largest(least, seen.drop_last()), seen.last())
    }
}

proof fn lemma_recovered_push(
    before: ConcurrentTxStatus,
    mid: ConcurrentTxStatus,
    after: ConcurrentTxStatus,
    commits: Seq<(TxId, Csn)>,
    commit: (TxId, Csn),
)
    requires
        recovered(before, mid, commits),
        after.records() == mid.records().push(
            TxRecord { tx_id: commit.0, state: TxState::Committed(commit.1) },
        ),
        after.spec_next_tx() == txn::at_least_after(mid.spec_next_tx(), commit.0.0),
        after.spec_next_csn() == txn::at_least_after(mid.spec_next_csn(), commit.1.0),
        after.spec_published_csn() == txn::larger(mid.spec_published_csn(), commit.1.0),
        after.spec_active() == mid.spec_active(),
    ensures
        recovered(before, after, commits.push(commit)),
{
    let all = commits.push(commit);
    let txs = Seq::new(all.len(), |i: int| all[i].0.0);
    let csns = Seq::new(all.len(), |i: int| all[i].1.0);
    assert(txs.drop_last() =~= Seq::new(commits.len(), |i: int| commits[i].0.0));
    assert(csns.drop_last() =~= Seq::new(commits.len(), |i: int| commits[i].1.0));
    assert(after.records() =~= before.records() + Seq::new(
        all.len(),
        |i: int| TxRecord { tx_id: all[i].0, state: TxState::Committed(all[i].1) },
    ));
}

/// Whether a table holds the transactions that committed.
spec fn same_commits(table: Map<u64, u64>, commits: Seq<(TxId, Csn)>) -> bool {
    forall|t: u64| #[trigger] table.dom().contains(t) <==> has_committed(commits, TxId(t))
}

/// Notes every commit that the log tells of.
fn recover_commits(records: &Vec<WalRecord>, txs: &mut ConcurrentTxStatus) -> (r: Result<(HashMap<u64, u64>, usize)>)
    requires
        old(txs).wf(),
        old(txs).spec_reserved().len() == 0,
    ensures
        final(txs).wf(),
        final(txs).spec_reserved().len() == 0,
        match r {
            Ok((table, count)) => {
                &&& commits_of(record::record_views(records@)) matches Ok(commits)
                &&& recovered(*old(txs), *final(txs), commits)
                &&& same_commits(table@, commits)
                &&& count == commits.len()
            },
            Err(e) => commits_of(record::record_views(records@)) == Err::<Seq<(TxId, Csn)>, Error>(e),
        },
{
    broadcast use vstd::std_specs::hash::group_hash_axioms;

    let ghost all = record::record_views(records@);
    let ghost mut commits = Seq::<(TxId, Csn)>::empty();
    let mut table: HashMap<u64, u64> = HashMap::new();
    let mut count: usize = 0;
    proof {
        assert(all.take(0) =~= Seq::empty());
        assert(txs.records() =~= old(txs).records() + Seq::new(
            0,
            |i: int| TxRecord { tx_id: commits[i].0, state: TxState::Committed(commits[i].1) },
        ));
    }
    for i in 0..records.len()
        invariant
            all == record::record_views(records@),
            txs.wf(),
            txs.spec_reserved().len() == 0,
            count == commits.len() <= i,
            commits_of(all.take(i as int)) == Ok::<Seq<(TxId, Csn)>, Error>(commits),
            recovered(*old(txs), *txs, commits),
            same_commits(table@, commits),
    {
        let record = &records[i];
        proof {
            assert(all.take(i + 1).drop_last() =~= all.take(i as int));
            assert(all[i as int] == record@);
        }
        if record.kind == WalRecordKind::Commit {
            match WalPayload::decode(record.payload.as_slice()) {
                Err(e) => {
                    proof {
                        lemma_commit_error(all, i as int, e);
                    }
                    return Err(e);
                },
                Ok(WalPayload::Commit { tx_id, csn }) => {
                    let ghost mid = *txs;
                    table.insert(tx_id.0, csn.0);
                    txs.publish_recovered_commit(tx_id, csn);
                    count = count + 1;
                    proof {
                        lemma_recovered_push(*old(txs), mid, *txs, commits, (tx_id, csn));
                        let before = commits;
                        commits = commits.push((tx_id, csn));
                        assert forall|t: u64| #[trigger] table@.dom().contains(t) <==> has_committed(
                            commits,
                            TxId(t),
                        ) by {
                            if has_committed(before, TxId(t)) {
                                let k = choose|k: int| 0 <= k < before.len() && (#[trigger] before[k]).0 == TxId(t);
                                assert(commits[k].0 == TxId(t));
                            }
                            if t == tx_id.0 {
                                assert(commits[before.len() as int].0 == TxId(t));
                            }
                            if has_committed(commits, TxId(t)) && t != tx_id.0 {
                                let k = choose|k: int| 0 <= k < commits.len() && (#[trigger] commits[k]).0 == TxId(t);
                                assert(before[k].0 == TxId(t));
                            }
                        }
                    }
                },
                Ok(_) => {
                    proof {
                        lemma_commit_error(all, i as int, Error::CorruptWal("commit record has non-commit payload"));
                    }
                    return Err(Error::CorruptWal("commit record has non-commit payload"));
                },
            }
        }
    }
    proof {
        assert(all.take(all.len() as int) =~= all);
    }
    Ok((table, count))
}

/// The first record that cannot be read decides.
proof fn lemma_commit_error(records: Seq<RecordView>, i: int, e: Error)
    requires
        0 <= i < records.len(),
        commits_of(records.take(i + 1)) == Err::<Seq<(TxId, Csn)>, Error>(e),
    ensures
        commits_of(records) == Err::<Seq<(TxId, Csn)>, Error>(e),
    decreases records.len() - i,
{
    if i + 1 == records.len() {
        assert(records.take(i + 1) =~= records);
    } else {
        assert(records.take(i + 2).drop_last() =~= records.take(i + 1));
        lemma_commit_error(records, i + 1, e);
    }
}

proof fn lemma_redo_error(records: Seq<RecordView>, i: int, replay_from: Lsn, commits: Seq<(TxId, Csn)>, e: Error)
    requires
        0 <= i < records.len(),
        redo_all(records.take(i + 1), replay_from, commits) == Err::<Seq<RedoView>, Error>(e),
    ensures
        redo_all(records, replay_from, commits) == Err::<Seq<RedoView>, Error>(e),
    decreases records.len() - i,
{
    if i + 1 == records.len() {
        assert(records.take(i + 1) =~= records);
    } else {
        assert(records.take(i + 2).drop_last() =~= records.take(i + 1));
        lemma_redo_error(records, i + 1, replay_from, commits, e);
    }
}

/// Where a record ends.
pub fn record_end_lsn(record: &WalRecord) -> (r: Result<Lsn>)
    ensures
        match r {
            Ok(lsn) => lsn.0 == record_end(record@),
            Err(e) => record_end(record@) > u64::MAX && e == Error::CorruptWal("lsn overflow"),
        },
{
    let header: u64 = WAL_HEADER_LEN as u64;
    let len: u64 = record.payload.len() as u64;
    if len > u64::MAX - header || record.lsn.0 > u64::MAX - header - len {
        return Err(Error::CorruptWal("lsn overflow"));
    }
    Ok(Lsn(record.lsn.0 + header + len))
}

/// Does a record again; says whether something was done, and whether that was putting a page
/// back.
fn redo_record<H: RecoveredHeap>(
    record: &WalRecord,
    replay_from_lsn: Lsn,
    committed: &HashMap<u64, u64>,
    Ghost(commits): Ghost<Seq<(TxId, Csn)>>,
    heap: &mut H,
) -> (r: Result<Option<bool>>)
    requires
        same_commits(committed@, commits),
    ensures
        final(heap).never_fails() == old(heap).never_fails(),
        match r {
            Ok(None) => redo_of(record@, replay_from_lsn, commits) == Ok::<Option<RedoView>, Error>(None)
                && final(heap).applied() == old(heap).applied(),
            Ok(Some(is_image)) => redo_of(record@, replay_from_lsn, commits) matches Ok(Some(action))
                && final(heap).applied() == old(heap).applied().push(action) && is_image == (action is PageImage),
            Err(e) => old(heap).never_fails() ==> redo_of(record@, replay_from_lsn, commits) == Err::<
                Option<RedoView>,
                Error,
            >(e),
        },
        redo_of(record@, replay_from_lsn, commits) is Err ==> r is Err,
{
    broadcast use vstd::std_specs::hash::group_hash_axioms;

    if record.lsn.0 < replay_from_lsn.0 || record.kind == WalRecordKind::Commit {
        return Ok(None);
    }
    let delta = record.kind == WalRecordKind::PageDelta;
    match WalPayload::decode(record.payload.as_slice())? {
        WalPayload::PageImage { page_id: _, page_lsn: _, page_bytes } => {
            if !committed.contains_key(&record.tx_id.0) {
                return Ok(None);
            }
            let page = Page::from_bytes(page_bytes)?;
            let end = record_end_lsn(record)?;
            heap.redo_page_image(page, end)?;
            Ok(Some(true))
        },
        WalPayload::HeapInsert { tx_id, rel_id, row_id, payload } => {
            if !(delta && committed.contains_key(&tx_id.0)) {
                return Ok(None);
            }
            heap.insert_recovered_for_relation(tx_id, rel_id, row_id, payload)?;
            Ok(Some(false))
        },
        WalPayload::HeapUpdate { tx_id, rel_id, row_id, payload } => {
            if !(delta && committed.contains_key(&tx_id.0)) {
                return Ok(None);
            }
            heap.update_recovered_for_relation(tx_id, rel_id, row_id, payload)?;
            Ok(Some(false))
        },
        WalPayload::HeapDelete { tx_id, rel_id, row_id } => {
            if !(delta && committed.contains_key(&tx_id.0)) {
                return Ok(None);
            }
            heap.delete_recovered_for_relation(tx_id, rel_id, row_id)?;
            Ok(Some(false))
        },
        WalPayload::Commit { .. } => Err(Error::CorruptWal("commit payload outside a commit record")),
    }
}

/// Brings the transactions and the heap back to what the log says. Whatever a transaction logged
/// that did not commit is left out.
pub fn recover_heap<H: RecoveredHeap>(
    records: &Vec<WalRecord>,
    replay_from_lsn: Lsn,
    txs: &mut ConcurrentTxStatus,
    heap: &mut H,
) -> (r: Result<RecoveryMetrics>)
    requires
        old(txs).wf(),
        old(txs).spec_reserved().len() == 0,
    ensures
        final(txs).wf(),
        final(txs).spec_reserved().len() == 0,
        final(heap).never_fails() == old(heap).never_fails(),
        match r {
            Ok(metrics) => {
                &&& recovery_of(record::record_views(records@), replay_from_lsn) matches Ok((commits, actions))
                &&& recovered(*old(txs), *final(txs), commits)
                &&& final(heap).applied() == old(heap).applied() + actions
                &&& counts(metrics, commits, actions)
            },
            Err(e) => old(heap).never_fails() ==> recovery_of(
                record::record_views(records@),
                replay_from_lsn,
            ) == Err::<(Seq<(TxId, Csn)>, Seq<RedoView>), Error>(e),
        },
{
    let ghost all = record::record_views(records@);
    let (committed, commits_recovered) = recover_commits(records, txs)?;
    let ghost commits = commits_of(all)->Ok_0;
    let mut page_images_redone: usize = 0;
    let mut legacy_mutations_redone: usize = 0;
    let ghost mut actions = Seq::<RedoView>::empty();
    let ghost recovered_txs = *txs;
    proof {
        assert(all.take(0) =~= Seq::empty());
        assert(heap.applied() =~= old(heap).applied() + actions);
    }
    for i in 0..records.len()
        invariant
            all == record::record_views(records@),
            *txs == recovered_txs,
            recovered_txs.wf(),
            recovered_txs.spec_reserved().len() == 0,
            recovered(*old(txs), recovered_txs, commits),
            commits_of(all) == Ok::<Seq<(TxId, Csn)>, Error>(commits),
            commits_recovered == commits.len(),
            same_commits(committed@, commits),
            heap.never_fails() == old(heap).never_fails(),
            heap.applied() == old(heap).applied() + actions,
            redo_all(all.take(i as int), replay_from_lsn, commits) == Ok::<Seq<RedoView>, Error>(actions),
            page_images_redone == count_images(actions),
            legacy_mutations_redone + page_images_redone == actions.len(),
            actions.len() <= i,
    {
        let record = &records[i];
        proof {
            assert(all.take(i + 1).drop_last() =~= all.take(i as int));
            assert(all[i as int] == record@);
        }
        match redo_record(record, replay_from_lsn, &committed, Ghost(commits), heap) {
            Err(e) => {
                proof {
                    if redo_of(record@, replay_from_lsn, commits) == Err::<Option<RedoView>, Error>(e) {
                        lemma_redo_error(all, i as int, replay_from_lsn, commits, e);
                    }
                }
                return Err(e);
            },
            Ok(None) => {
            },
            Ok(Some(is_image)) => {
                if is_image {
                    page_images_redone = page_images_redone + 1;
                } else {
                    legacy_mutations_redone = legacy_mutations_redone + 1;
                }
                proof {
                    let action = redo_of(record@, replay_from_lsn, commits)->Ok_0->Some_0;
                    let before = actions;
                    actions = actions.push(action);
                    assert(actions.drop_last() =~= before);
                    assert(old(heap).applied() + actions =~= (old(heap).applied() + before).push(action));
                }
            },
        }
    }
    proof {
        assert(all.take(all.len() as int) =~= all);
    }
    Ok(RecoveryMetrics { page_images_redone, legacy_mutations_redone, commits_recovered })
}

/// What recovery did.
#[derive(Clone, Copy, Debug, PartialEq, Eq, Structural)]
pub struct RecoveryReport {
    pub scanned_records: usize,
    pub valid_end_lsn: Lsn,
    pub torn_tail: bool,
    pub page_images_redone: usize,
    pub legacy_mutations_redone: usize,
    pub commits_recovered: usize,
    pub replay_from_lsn: Lsn,
}

impl RecoveryReport {
    /// The report on a scan and what came of it.
    pub open spec fn of_scan(scan: WalScanReport, metrics: RecoveryMetrics, replay_from_lsn: Lsn) -> RecoveryReport {
        RecoveryReport {
            scanned_records: scan.records@.len() as usize,
            valid_end_lsn: scan.valid_end_lsn,
            torn_tail: scan.torn_tail,
            page_images_redone: metrics.page_images_redone,
            legacy_mutations_redone: metrics.legacy_mutations_redone,
            commits_recovered: metrics.commits_recovered,
            replay_from_lsn,
        }
    }

    fn from_scan(scan: &WalScanReport, metrics: RecoveryMetrics, replay_from_lsn: Lsn) -> (report: RecoveryReport)
        ensures
            report == RecoveryReport::of_scan(*scan, metrics, replay_from_lsn),
    {
        RecoveryReport {
            scanned_records: scan.records.len(),
            valid_end_lsn: scan.valid_end_lsn,
            torn_tail: scan.torn_tail,
            page_images_redone: metrics.page_images_redone,
            legacy_mutations_redone: metrics.legacy_mutations_redone,
            commits_recovered: metrics.commits_recovered,
            replay_from_lsn,
        }
    }
}

/// The transactions that a checkpoint brings back.
pub open spec fn restored(before: ConcurrentTxStatus, after: ConcurrentTxStatus, status: TxStatusCheckpoint) -> bool {
    exists|mid: ConcurrentTxStatus| #[trigger] recovered(before, mid, status.entries@) && frontier_restored(mid, after, status)
}

/// The transactions after they take over the numbers of a checkpoint.
pub open spec fn frontier_restored(
    before: ConcurrentTxStatus,
    after: ConcurrentTxStatus,
    status: TxStatusCheckpoint,
) -> bool {
    &&& after.records() == before.records()
    &&& after.spec_active() == before.spec_active()
    &&& after.spec_next_tx() == txn::larger(before.spec_next_tx(), status.next_tx.0)
    &&& after.spec_next_csn() == txn::at_least_after(
        txn::larger(before.spec_next_csn(), status.next_csn.0),
        status.published_csn.0,
    )
    &&& after.spec_published_csn() == txn::larger(before.spec_published_csn(), status.published_csn.0)
}

/// Brings back the transactions of a checkpoint and says from where on the log is done again:
/// from the checkpoint, or from the start if there is none.
pub fn restore_checkpoint(
    checkpoint: Option<(ControlFile, TxStatusCheckpoint)>,
    txs: &mut ConcurrentTxStatus,
) -> (r: Result<Lsn>)
    requires
        old(txs).wf(),
        old(txs).spec_reserved().len() == 0,
    ensures
        final(txs).wf(),
        final(txs).spec_reserved().len() == 0,
        match checkpoint {
            None => r == Ok::<Lsn, Error>(Lsn(0)) && *final(txs) == *old(txs),
            Some((control, status)) => if status.generation != control.generation {
                &&& r == Err::<Lsn, Error>(Error::CorruptPage("tx status checkpoint generation mismatch"))
                &&& *final(txs) == *old(txs)
            } else {
                &&& r == Ok::<Lsn, Error>(control.checkpoint_lsn)
                &&& restored(*old(txs), *final(txs), status)
            },
        },
{
    let (control, status) = match checkpoint {
        None => return Ok(Lsn(0)),
        Some(pair) => pair,
    };
    if status.generation != control.generation {
        return Err(Error::CorruptPage("tx status checkpoint generation mismatch"));
    }
    let ghost entries = status.entries@;
    proof {
        let commits = entries.take(0);
        assert(txs.records() =~= old(txs).records() + Seq::new(
            0,
            |i: int| TxRecord { tx_id: commits[i].0, state: TxState::Committed(commits[i].1) },
        ));
        assert(recovered(*old(txs), *txs, commits));
    }
    for i in 0..status.entries.len()
        invariant
            entries == status.entries@,
            txs.wf(),
            txs.spec_reserved().len() == 0,
            recovered(*old(txs), *txs, entries.take(i as int)),
    {
        let (tx_id, csn) = status.entries[i];
        let ghost mid = *txs;
        txs.publish_recovered_commit(tx_id, csn);
        proof {
            lemma_recovered_push(*old(txs), mid, *txs, entries.take(i as int), (tx_id, csn));
            assert(entries.take(i + 1) =~= entries.take(i as int).push((tx_id, csn)));
        }
    }
    let ghost mid = *txs;
    txs.restore_frontier(status.next_tx, status.next_csn, status.published_csn);
    proof {
        assert(entries.take(entries.len() as int) =~= entries);
        assert(recovered(*old(txs), mid, status.entries@) && frontier_restored(mid, *txs, status));
    }
    Ok(control.checkpoint_lsn)
}

/// Where the log is done again from.
pub open spec fn replay_start(checkpoint: Option<(ControlFile, TxStatusCheckpoint)>) -> Result<Lsn> {
    match checkpoint {
        None => Ok(Lsn(0)),
        Some((control, status)) => if status.generation != control.generation {
            Err(Error::CorruptPage("tx status checkpoint generation mismatch"))
        } else {
            Ok(control.checkpoint_lsn)
        },
    }
}

/// The transactions that opening a database recovers: none, then those of the checkpoint, then
/// those of the log.
pub open spec fn opened(
    checkpoint: Option<(ControlFile, TxStatusCheckpoint)>,
    commits: Seq<(TxId, Csn)>,
    txs: ConcurrentTxStatus,
) -> bool {
    exists|start: ConcurrentTxStatus, mid: ConcurrentTxStatus| #[trigger]
        opened_through(checkpoint, commits, txs, start, mid)
}

pub open spec fn opened_through(
    checkpoint: Option<(ControlFile, TxStatusCheckpoint)>,
    commits: Seq<(TxId, Csn)>,
    txs: ConcurrentTxStatus,
    start: ConcurrentTxStatus,
    mid: ConcurrentTxStatus,
) -> bool {
    &&& fresh(start)
    &&& match checkpoint {
        None => mid == start,
        Some((_, status)) => restored(start, mid, status),
    }
    &&& recovered(mid, txs, commits)
}

/// Transactions of which nothing is known yet.
pub open spec fn fresh(txs: ConcurrentTxStatus) -> bool {
    &&& txs.records() == Seq::<TxRecord>::empty()
    &&& txs.spec_next_tx() == 1
    &&& txs.spec_next_csn() == 1
    &&& txs.spec_published_csn() == 0
    &&& txs.spec_reserved() == Seq::<u64>::empty()
    &&& txs.spec_active() == Seq::<txn::ActiveTx>::empty()
}

/// Recovers a database from its log and its last checkpoint.
pub fn open_with_recovery_report<H: RecoveredHeap>(
    scan: &WalScanReport,
    checkpoint: Option<(ControlFile, TxStatusCheckpoint)>,
    heap: &mut H,
) -> (r: Result<(ConcurrentTxStatus, RecoveryReport)>)
    ensures
        final(heap).never_fails() == old(heap).never_fails(),
        match r {
            Ok((txs, report)) => {
                &&& txs.wf()
                &&& txs.spec_reserved().len() == 0
                &&& replay_start(checkpoint) matches Ok(replay_from)
                &&& recovery_of(record::record_views(scan.records@), replay_from) matches Ok((commits, actions))
                &&& opened(checkpoint, commits, txs)
                &&& final(heap).applied() == old(heap).applied() + actions
                &&& report == RecoveryReport {
                    scanned_records: scan.records@.len() as usize,
                    valid_end_lsn: scan.valid_end_lsn,
                    torn_tail: scan.torn_tail,
                    page_images_redone: count_images(actions) as usize,
                    legacy_mutations_redone: (actions.len() - count_images(actions)) as usize,
                    commits_recovered: commits.len() as usize,
                    replay_from_lsn: replay_from,
                }
            },
            Err(e) => match replay_start(checkpoint) {
                Err(problem) => e == problem,
                Ok(replay_from) => old(heap).never_fails() ==> recovery_of(
                    record::record_views(scan.records@),
                    replay_from,
                ) == Err::<(Seq<(TxId, Csn)>, Seq<RedoView>), Error>(e),
            },
        },
        replay_start(checkpoint) is Err ==> *final(heap) == *old(heap),
{
    let mut txs = ConcurrentTxStatus::new();
    let ghost start = txs;
    let replay_from = restore_checkpoint(checkpoint, &mut txs)?;
    let ghost mid = txs;
    let metrics = recover_heap(&scan.records, replay_from, &mut txs, heap)?;
    let report = RecoveryReport::from_scan(scan, metrics, replay_from);
    proof {
        let commits = commits_of(record::record_views(scan.records@))->Ok_0;
        assert(opened_through(checkpoint, commits, txs, start, mid));
    }
    Ok((txs, report))
}

} // verus!
