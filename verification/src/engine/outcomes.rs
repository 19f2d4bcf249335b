//! What becomes of the work of a transaction once it is over.
use crate::engine::recovery;
use crate::engine::state::Engine;
use crate::engine::tx::TxnView;
use crate::error::Error;
use crate::format::{Csn, Lsn, TxId};
use crate::storage::control::{ControlFile, TxStatusCheckpoint};
use crate::txn;
use crate::txn::{ActiveTx, Snapshot, TxState};
use crate::format::bytes;
use crate::wal::coordinator::{QueueView, COMMIT_RECORD_LEN};
use crate::wal::payload;
use crate::wal::payload::PayloadView;
use crate::wal::queue_laws;
use crate::wal::record;
use crate::wal::record::{RecordView, WalRecordKind, WAL_HEADER_LEN};
use crate::wal::WalConfig;
use vstd::prelude::*;

verus! {

/// What a transaction did that was rolled back, or whose record could not be queued, is seen by nobody
/// else, ever after as then. What others did is seen as before.
pub proof fn law_rolled_back_work_is_not_seen(
    before: Engine,
    after: Engine,
    tx: TxnView,
    snapshot: Snapshot,
    owner: Option<TxId>,
    other: TxId,
)
    requires
        after.abandoned(before, tx),
    ensures
        owner != Some(tx.id) ==> !after.txs().visible(tx.id, snapshot, owner),
        other != tx.id ==> after.txs().visible(other, snapshot, owner) == before.txs().visible(other, snapshot, owner),
        after.txs().spec_published_csn() == before.txs().spec_published_csn(),
        after.queue() == before.queue(),
        forall|a: ActiveTx| after.txs().spec_active().contains(a) ==> a.tx_id != tx.id && before.txs().spec_active().contains(a),
{
    assert forall|a: ActiveTx| after.txs().spec_active().contains(a) implies a.tx_id != tx.id
        && before.txs().spec_active().contains(a) by {
        txn::law_ended_transaction_leaves(before.txs().spec_active(), tx.id, a);
    }
}

/// What a transaction did whose record could not be made durable is seen by nobody else, and its number is
/// not waited for.
pub proof fn law_failed_commit_is_not_seen(
    before: Engine,
    after: Engine,
    tx: TxnView,
    csn: Csn,
    snapshot: Snapshot,
    owner: Option<TxId>,
    other: TxId,
)
    requires
        after.cancelled(before, tx, csn),
    ensures
        owner != Some(tx.id) ==> !after.txs().visible(tx.id, snapshot, owner),
        other != tx.id ==> after.txs().visible(other, snapshot, owner) == before.txs().visible(other, snapshot, owner),
        !after.txs().spec_reserved().contains(csn.0),
        forall|n: u64|
            n != csn.0 && #[trigger] before.txs().spec_reserved().contains(n) ==> after.txs().spec_reserved().contains(n),
{
    lemma_settled(before.txs().spec_reserved(), csn.0);
}

/// What a transaction did that has committed is seen by every snapshot from its number on, and by no
/// snapshot before it but its own. What others did is seen as before, and the number is not waited for any
/// more.
pub proof fn law_committed_work_is_seen(
    before: Engine,
    after: Engine,
    tx: TxnView,
    csn: Csn,
    snapshot: Snapshot,
    owner: Option<TxId>,
    other: TxId,
)
    requires
        after.published(before, tx, csn),
    ensures
        snapshot.csn.0 >= csn.0 ==> after.txs().visible(tx.id, snapshot, owner),
        snapshot.csn.0 < csn.0 && owner != Some(tx.id) ==> !after.txs().visible(tx.id, snapshot, owner),
        other != tx.id ==> after.txs().visible(other, snapshot, owner) == before.txs().visible(other, snapshot, owner),
        after.txs().spec_published_csn() >= before.txs().spec_published_csn(),
        !after.txs().spec_reserved().contains(csn.0),
        forall|n: u64|
            n != csn.0 && #[trigger] before.txs().spec_reserved().contains(n) ==> after.txs().spec_reserved().contains(n),
{
    lemma_settled(before.txs().spec_reserved(), csn.0);
}

proof fn lemma_settled(reserved: Seq<u64>, csn: u64)
    ensures
        !reserved.filter(|n: u64| n != csn).contains(csn),
        forall|n: u64|
            n != csn && #[trigger] reserved.contains(n) ==> reserved.filter(|m: u64| m != csn).contains(n),
    decreases reserved.len(),
{
    reveal(Seq::filter);
    let keep = |m: u64| m != csn;
    let left = reserved.filter(keep);
    if reserved.len() > 0 {
        let init = reserved.drop_last();
        lemma_settled(init, csn);
        let before = init.filter(keep);
        if left.contains(csn) {
            let i = choose|i: int| 0 <= i < left.len() && left[i] == csn;
            if i < before.len() {
                assert(before[i] == csn);
            }
        }
        assert forall|n: u64| n != csn && #[trigger] reserved.contains(n) implies left.contains(n) by {
            let i = choose|i: int| 0 <= i < reserved.len() && reserved[i] == n;
            if i < init.len() {
                assert(init[i] == n);
                assert(init.contains(n));
                let k = choose|k: int| 0 <= k < before.len() && before[k] == n;
                assert(left[k] == n);
            } else {
                assert(left[before.len() as int] == n);
            }
        }
    }
}

/// The log is done again from the checkpoint on, and from its start where there is none; a checkpoint whose
/// parts do not belong together is refused.
pub proof fn law_recovery_starts_at_the_checkpoint(control: ControlFile, status: TxStatusCheckpoint)
    ensures
        recovery::replay_start(None) == Ok::<Lsn, Error>(Lsn(0)),
        status.generation == control.generation ==> recovery::replay_start(Some((control, status))) == Ok::<Lsn, Error>(
            control.checkpoint_lsn,
        ),
        status.generation != control.generation ==> recovery::replay_start(Some((control, status))) is Err,
{
}

/// A transaction that is published as committed is committed, under its number.
pub proof fn law_published_is_committed(before: Engine, after: Engine, tx: TxnView, csn: Csn)
    requires
        after.published(before, tx, csn),
    ensures
        after.txs().state_of(tx.id) == TxState::Committed(csn),
        forall|other: TxId| other != tx.id ==> #[trigger] after.txs().state_of(other) == before.txs().state_of(other),
{
}

/// The record that a commit queues is read back by recovery as that commit: the same transaction, under the
/// same number.
pub proof fn law_queued_commit_is_recovered(q: QueueView, config: WalConfig, tx_id: TxId, csn: Csn)
    requires
        COMMIT_RECORD_LEN <= config.segment_bytes,
        q.has_room(config),
    ensures
        ({
            let data = (PayloadView::Commit { tx_id, csn }).image();
            let queued = q.with_record(config, WalRecordKind::Commit, tx_id, data).pending.last();
            &&& queued.encoded.len() == COMMIT_RECORD_LEN
            &&& record::parse_record(queued.encoded) matches Ok(r) && r.kind == WalRecordKind::Commit && r.tx_id == tx_id
                && recovery::commit_of(r.payload) == Ok::<(TxId, Csn), Error>((tx_id, csn))
        }),
{
    broadcast use bytes::lemma_le_bytes_len;

    let data = (PayloadView::Commit { tx_id, csn }).image();
    assert(data.len() == 17);
    queue_laws::law_queued_record_says_what_it_was_given(q, config, WalRecordKind::Commit, tx_id, data);
    payload::law_payload_round_trips(PayloadView::Commit { tx_id, csn });
    let queued = q.with_record(config, WalRecordKind::Commit, tx_id, data).pending.last();
    let len = (WAL_HEADER_LEN + data.len()) as int;
    let append = q.next_append(config, len);
    record::lemma_frame_len(
        RecordView { lsn: append.start_lsn, prev_lsn: q.prev, tx_id, kind: WalRecordKind::Commit, payload: data },
    );
}

} // verus!
