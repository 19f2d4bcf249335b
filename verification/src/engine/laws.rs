//! What the engine guarantees across a restart.
use crate::engine::recovery;
use crate::engine::recovery_laws;
use crate::format::{Csn, TxId};
use crate::error::Error;
use crate::format::bytes;
use crate::storage::control::{ControlFile, TxStatusCheckpoint};
use crate::txn;
use crate::txn::{ConcurrentTxStatus, Snapshot, TxRecord, TxState};
use crate::wal::delivery;
use crate::wal::laws;
use crate::wal::manager;
use crate::wal::payload;
use crate::wal::payload::PayloadView;
use crate::wal::record::{RecordView, WalRecordKind};
use crate::wal::scan;
use crate::wal::scan::ScanView;
use crate::wal::writer::Written;
use vstd::prelude::*;

verus! {

proof fn lemma_largest(least: u64, seen: Seq<u64>, i: int)
    requires
        0 <= i < seen.len(),
    ensures
        recovery::largest(least, seen) >= seen[i],
    decreases seen.len(),
{
    if i < seen.len() - 1 {
        assert(seen.drop_last()[i] == seen[i]);
        lemma_largest(least, seen.drop_last(), i);
    }
}

/// Whoever reads after recovery sees every transaction whose commit was recovered.
pub proof fn law_recovered_commit_is_visible(
    before: ConcurrentTxStatus,
    after: ConcurrentTxStatus,
    commits: Seq<(TxId, Csn)>,
    tx_id: TxId,
)
    requires
        recovery::recovered(before, after, commits),
        recovery::has_committed(commits, tx_id),
    ensures
        after.visible(tx_id, Snapshot { csn: Csn(after.spec_published_csn()) }, None),
{
    recovery_laws::law_recovered_states(before, after, commits, tx_id);
    let i = choose|i: int|
        0 <= i < commits.len() && #[trigger] commits[i].0 == tx_id && after.state_of(tx_id) == TxState::Committed(
            commits[i].1,
        );
    let csns = Seq::new(commits.len(), |k: int| commits[k].1.0);
    assert(csns[i] == commits[i].1.0);
    lemma_largest(before.spec_published_csn(), csns, i);
}

/// The records that stand for commits.
pub open spec fn noted(commits: Seq<(TxId, Csn)>) -> Seq<TxRecord> {
    Seq::new(commits.len(), |i: int| TxRecord { tx_id: commits[i].0, state: TxState::Committed(commits[i].1) })
}

proof fn lemma_noted_states(records: Seq<TxRecord>, tx_id: TxId)
    ensures
        txn::state_in(records, tx_id) is Committed ==> txn::state_in(noted(txn::committed_in(records)), tx_id)
            == txn::state_in(records, tx_id),
        (forall|i: int| 0 <= i < records.len() && (#[trigger] records[i]).tx_id == tx_id ==> !(records[i].state is Committed))
            ==> txn::state_in(noted(txn::committed_in(records)), tx_id) is InProgress,
    decreases records.len(),
{
    if records.len() > 0 {
        let shorter = records.drop_last();
        let last = records.last();
        let before = noted(txn::committed_in(shorter));
        let after = noted(txn::committed_in(records));
        lemma_noted_states(shorter, tx_id);
        if last.state is Committed {
            assert(after.drop_last() =~= before);
            assert(after.last() == last);
        }
        if forall|i: int| 0 <= i < records.len() && (#[trigger] records[i]).tx_id == tx_id ==> !(records[i].state is Committed) {
            assert forall|i: int| 0 <= i < shorter.len() && (#[trigger] shorter[i]).tx_id == tx_id implies !(
            shorter[i].state is Committed) by {
                assert(records[i] == shorter[i]);
            }
            assert(records[records.len() - 1] == last);
        }
    }
}

/// A checkpoint brings back every commit, under its sequence number, and no other transaction.
pub proof fn law_checkpoint_brings_back_commits(
    txs: ConcurrentTxStatus,
    status: TxStatusCheckpoint,
    start: ConcurrentTxStatus,
    after: ConcurrentTxStatus,
    tx_id: TxId,
)
    requires
        status.entries@ == txn::committed_in(txs.records()),
        recovery::fresh(start),
        recovery::restored(start, after, status),
    ensures
        txs.state_of(tx_id) is Committed ==> after.state_of(tx_id) == txs.state_of(tx_id),
        (forall|i: int|
            0 <= i < txs.records().len() && (#[trigger] txs.records()[i]).tx_id == tx_id ==> !(
            txs.records()[i].state is Committed)) ==> after.state_of(tx_id) is InProgress,
{
    let mid = choose|mid: ConcurrentTxStatus| #[trigger]
        recovery::recovered(start, mid, status.entries@) && recovery::frontier_restored(mid, after, status);
    assert(after.records() =~= noted(status.entries@));
    lemma_noted_states(txs.records(), tx_id);
}

/// A transaction that had committed when the checkpoint was taken is committed after a restart, and so is
/// one whose commit record is left in the log. So pruning what lies before the checkpoint loses no commit.
pub proof fn law_commit_survives_checkpoint(
    txs: ConcurrentTxStatus,
    control: ControlFile,
    status: TxStatusCheckpoint,
    commits: Seq<(TxId, Csn)>,
    after: ConcurrentTxStatus,
    tx_id: TxId,
)
    requires
        status.entries@ == txn::committed_in(txs.records()),
        recovery::opened(Some((control, status)), commits, after),
        txs.state_of(tx_id) is Committed || recovery::has_committed(commits, tx_id),
    ensures
        after.state_of(tx_id) is Committed,
        !recovery::has_committed(commits, tx_id) ==> after.state_of(tx_id) == txs.state_of(tx_id),
{
    let (start, mid) = choose|start: ConcurrentTxStatus, mid: ConcurrentTxStatus| #[trigger]
        recovery::opened_through(Some((control, status)), commits, after, start, mid);
    law_checkpoint_brings_back_commits(txs, status, start, mid, tx_id);
    recovery_laws::law_recovered_states(mid, after, commits, tx_id);
}

/// A checkpoint brings back the numbers that are handed out next: none is used twice.
pub proof fn law_checkpoint_brings_back_numbers(
    txs: ConcurrentTxStatus,
    status: TxStatusCheckpoint,
    start: ConcurrentTxStatus,
    after: ConcurrentTxStatus,
)
    requires
        status.next_tx.0 == txs.spec_next_tx(),
        status.next_csn.0 == txs.spec_next_csn(),
        status.published_csn.0 == txs.spec_published_csn(),
        recovery::restored(start, after, status),
    ensures
        after.spec_next_tx() >= txs.spec_next_tx(),
        after.spec_next_csn() >= txs.spec_next_csn(),
        after.spec_published_csn() >= txs.spec_published_csn(),
{
}

proof fn lemma_commit_is_listed(records: Seq<RecordView>, commits: Seq<(TxId, Csn)>, i: int, commit: (TxId, Csn))
    requires
        recovery::commits_of(records) == Ok::<Seq<(TxId, Csn)>, Error>(commits),
        0 <= i < records.len(),
        records[i].kind == WalRecordKind::Commit,
        recovery::commit_of(records[i].payload) == Ok::<(TxId, Csn), Error>(commit),
    ensures
        commits.contains(commit),
    decreases records.len(),
{
    let shorter = records.drop_last();
    let before = recovery::commits_of(shorter)->Ok_0;
    if i == records.len() - 1 {
        assert(commits[before.len() as int] == commit);
    } else {
        assert(shorter[i] == records[i]);
        lemma_commit_is_listed(shorter, before, i, commit);
        let k = choose|k: int| 0 <= k < before.len() && before[k] == commit;
        assert(commits[k] == commit);
    }
}

/// No commit is lost that was acknowledged: a scan of what survives a crash finds all records that
/// were saved, whatever was written since, and recovery finds every commit among them. What a
/// checkpoint has pruned, segments before `first`, is brought back by the checkpoint.
pub proof fn law_acknowledged_commit_survives(
    w: Written,
    first: int,
    parts: Seq<Seq<RecordView>>,
    k: int,
    numbers: Seq<u64>,
    commits: Seq<(TxId, Csn)>,
    i: int,
    tx_id: TxId,
    csn: Csn,
)
    requires
        laws::holds_log_from(w.files, w.log, first, parts),
        delivery::saved(w, first, parts, k),
        manager::lists_segments(w.synced, w.log.dir, numbers),
        0 <= i < delivery::saved_count(parts, k),
        laws::flat(parts)[i].kind == WalRecordKind::Commit,
        laws::flat(parts)[i].payload == (PayloadView::Commit { tx_id, csn }).image(),
        recovery::commits_of(laws::flat(parts).take(delivery::saved_count(parts, k))) == Ok::<
            Seq<(TxId, Csn)>,
            Error,
        >(commits),
    ensures
        scan::scan_all(manager::segment_views(w.synced, w.log.dir, numbers), w.log.segment_bytes) == Ok::<
            ScanView,
            Error,
        >(ScanView { records: laws::flat(parts).take(delivery::saved_count(parts, k)), torn: false }),
        commits.contains((tx_id, csn)),
        recovery::has_committed(commits, tx_id),
{
    broadcast use bytes::lemma_le_bytes_len;

    let records = laws::flat(parts).take(delivery::saved_count(parts, k));
    let (v, left) = delivery::law_saved_records_are_left(w, first, parts, k);
    laws::law_scan_reads_back(w.synced, v, first, left, numbers);
    assert(laws::flat(parts) == laws::flat(parts.drop_last()) + parts.last());
    assert(records[i] == laws::flat(parts)[i]);
    let r = records[i];
    assert(r.payload.len() == 17);
    payload::law_payload_round_trips(PayloadView::Commit { tx_id, csn });
    lemma_commit_is_listed(records, commits, i, (tx_id, csn));
    let at = choose|at: int| 0 <= at < commits.len() && commits[at] == (tx_id, csn);
    assert(commits[at].0 == tx_id);
}

} // verus!
