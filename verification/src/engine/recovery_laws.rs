//! What recovery guarantees.
use crate::engine::recovery;
use crate::engine::recovery::{RecoveryMetrics, RedoView};
use crate::error::Error;
use crate::format::bytes;
use crate::format::image;
use crate::format::page::PageView;
use crate::format::{Csn, Lsn, RelId, RowId, TxId};
use crate::txn;
use crate::txn::{ConcurrentTxStatus, TxRecord, TxState};
use crate::wal::payload;
use crate::wal::payload::PayloadView;
use crate::wal::record::{RecordView, WalRecordKind};
use vstd::prelude::*;

verus! {

/// A commit that was logged is recovered.
pub proof fn law_logged_commit_is_recovered(
    records: Seq<RecordView>,
    commits: Seq<(TxId, Csn)>,
    r: RecordView,
    tx_id: TxId,
    csn: Csn,
)
    requires
        recovery::commits_of(records) == Ok::<Seq<(TxId, Csn)>, Error>(commits),
        r.kind == WalRecordKind::Commit,
        r.payload == (PayloadView::Commit { tx_id, csn }).image(),
    ensures
        recovery::commits_of(records.push(r)) == Ok::<Seq<(TxId, Csn)>, Error>(commits.push((tx_id, csn))),
        recovery::has_committed(commits.push((tx_id, csn)), tx_id),
{
    broadcast use bytes::lemma_le_bytes_len;

    assert(r.payload.len() == 17);
    payload::law_payload_round_trips(PayloadView::Commit { tx_id, csn });
    assert(records.push(r).drop_last() =~= records);
    let all = commits.push((tx_id, csn));
    assert(all[commits.len() as int].0 == tx_id);
}

/// Recovery finds a transaction committed if and only if the log or the checkpoint says so, and
/// the last word counts.
pub proof fn law_recovered_states(
    before: ConcurrentTxStatus,
    after: ConcurrentTxStatus,
    commits: Seq<(TxId, Csn)>,
    tx_id: TxId,
)
    requires
        recovery::recovered(before, after, commits),
    ensures
        !recovery::has_committed(commits, tx_id) ==> after.state_of(tx_id) == before.state_of(tx_id),
        recovery::has_committed(commits, tx_id) ==> exists|i: int|
            0 <= i < commits.len() && #[trigger] commits[i].0 == tx_id && after.state_of(tx_id) == TxState::Committed(
                commits[i].1,
            ),
{
    let noted = Seq::new(
        commits.len(),
        |i: int| TxRecord { tx_id: commits[i].0, state: TxState::Committed(commits[i].1) },
    );
    lemma_state_behind(before.records(), noted, tx_id);
    if recovery::has_committed(commits, tx_id) {
        let i = choose|i: int| 0 <= i < commits.len() && (#[trigger] commits[i]).0 == tx_id;
        assert(noted[i].tx_id == tx_id);
        let k = choose|k: int|
            0 <= k < noted.len() && (#[trigger] noted[k]).tx_id == tx_id && txn::state_in(
                before.records() + noted,
                tx_id,
            ) == noted[k].state;
        assert(commits[k].0 == tx_id);
    } else {
        assert forall|i: int| 0 <= i < noted.len() implies (#[trigger] noted[i]).tx_id != tx_id by {
            assert(noted[i].tx_id == commits[i].0);
        }
    }
}

proof fn lemma_state_behind(records: Seq<TxRecord>, more: Seq<TxRecord>, tx_id: TxId)
    ensures
        (forall|i: int| 0 <= i < more.len() ==> (#[trigger] more[i]).tx_id != tx_id) ==> txn::state_in(
            records + more,
            tx_id,
        ) == txn::state_in(records, tx_id),
        (exists|i: int| 0 <= i < more.len() && (#[trigger] more[i]).tx_id == tx_id) ==> exists|k: int|
            0 <= k < more.len() && (#[trigger] more[k]).tx_id == tx_id && txn::state_in(records + more, tx_id)
                == more[k].state,
    decreases more.len(),
{
    if more.len() == 0 {
        assert(records + more =~= records);
    } else {
        let all = records + more;
        let shorter = more.drop_last();
        assert(all.drop_last() =~= records + shorter);
        assert(all.last() == more.last());
        lemma_state_behind(records, shorter, tx_id);
        if more.last().tx_id == tx_id {
            assert(more[more.len() - 1].tx_id == tx_id);
        } else {
            if exists|i: int| 0 <= i < more.len() && (#[trigger] more[i]).tx_id == tx_id {
                let i = choose|i: int| 0 <= i < more.len() && (#[trigger] more[i]).tx_id == tx_id;
                assert(shorter[i].tx_id == tx_id);
                let k = choose|k: int|
                    0 <= k < shorter.len() && (#[trigger] shorter[k]).tx_id == tx_id && txn::state_in(
                        records + shorter,
                        tx_id,
                    ) == shorter[k].state;
                assert(more[k].tx_id == tx_id && txn::state_in(all, tx_id) == more[k].state);
            }
            if forall|i: int| 0 <= i < more.len() ==> (#[trigger] more[i]).tx_id != tx_id {
                assert forall|i: int| 0 <= i < shorter.len() implies (#[trigger] shorter[i]).tx_id != tx_id by {
                    assert(more[i].tx_id != tx_id);
                }
            }
        }
    }
}

/// The transaction of something that is done again for a record.
pub open spec fn redo_tx(r: RecordView, action: RedoView) -> TxId {
    match action {
        RedoView::PageImage { .. } => r.tx_id,
        RedoView::Insert { tx_id, .. } => tx_id,
        RedoView::Update { tx_id, .. } => tx_id,
        RedoView::Delete { tx_id, .. } => tx_id,
    }
}

/// Only what a transaction did that committed, and only from the checkpoint on, is done again.
pub proof fn law_only_committed_is_redone(r: RecordView, replay_from: Lsn, commits: Seq<(TxId, Csn)>)
    ensures
        recovery::redo_of(r, replay_from, commits) matches Ok(Some(action)) ==> {
            &&& recovery::has_committed(commits, redo_tx(r, action))
            &&& r.lsn.0 >= replay_from.0
        },
{
}

#[verifier::spinoff_prover]
proof fn lemma_logged_page(page: PageView, page_lsn: Lsn)
    requires
        page.wf(),
    ensures
        ({
            let change = PayloadView::PageImage {
                page_id: page.page_id,
                page_lsn,
                page_bytes: image::page_image(page),
            };
            payload::parse_payload(change.image()) == Ok::<PayloadView, Error>(change)
        }),
{
    broadcast use bytes::lemma_le_bytes_len;

    image::lemma_page_image_len(page);
    let change = PayloadView::PageImage { page_id: page.page_id, page_lsn, page_bytes: image::page_image(page) };
    assert(change.image().len() <= 65_535 + 64);
    payload::law_payload_round_trips(change);
}

/// A page that a transaction logged that committed is put back as it was logged.
#[verifier::spinoff_prover]
pub proof fn law_committed_page_is_redone(
    r: RecordView,
    replay_from: Lsn,
    commits: Seq<(TxId, Csn)>,
    page: PageView,
    page_lsn: Lsn,
)
    requires
        page.wf(),
        r.kind != WalRecordKind::Commit,
        r.payload == (PayloadView::PageImage {
            page_id: page.page_id,
            page_lsn,
            page_bytes: image::page_image(page),
        }).image(),
        r.lsn.0 >= replay_from.0,
        recovery::record_end(r) <= u64::MAX,
        recovery::has_committed(commits, r.tx_id),
    ensures
        recovery::redo_of(r, replay_from, commits) == Ok::<Option<RedoView>, Error>(
            Some(RedoView::PageImage { page, end_lsn: Lsn(recovery::record_end(r) as u64) }),
        ),
{
    lemma_logged_page(page, page_lsn);
    image::law_page_image_round_trips(page);
}

/// Nothing that is to be done again is left out.
pub proof fn law_nothing_is_left_out(
    records: Seq<RecordView>,
    replay_from: Lsn,
    commits: Seq<(TxId, Csn)>,
    actions: Seq<RedoView>,
    i: int,
    action: RedoView,
)
    requires
        recovery::redo_all(records, replay_from, commits) == Ok::<Seq<RedoView>, Error>(actions),
        0 <= i < records.len(),
        recovery::redo_of(records[i], replay_from, commits) == Ok::<Option<RedoView>, Error>(Some(action)),
    ensures
        actions.contains(action),
    decreases records.len(),
{
    let shorter = records.drop_last();
    let before = recovery::redo_all(shorter, replay_from, commits)->Ok_0;
    if i == records.len() - 1 {
        assert(actions[before.len() as int] == action);
    } else {
        assert(shorter[i] == records[i]);
        law_nothing_is_left_out(shorter, replay_from, commits, before, i, action);
        let k = choose|k: int| 0 <= k < before.len() && before[k] == action;
        assert(actions[k] == action);
    }
}

/// A record for which nothing is done again might as well not be in the log: what a transaction
/// logged that did not commit leaves no trace.
pub proof fn law_unredone_records_leave_no_trace(
    before: Seq<RecordView>,
    r: RecordView,
    after: Seq<RecordView>,
    replay_from: Lsn,
    commits: Seq<(TxId, Csn)>,
)
    requires
        recovery::redo_of(r, replay_from, commits) == Ok::<Option<RedoView>, Error>(None),
    ensures
        recovery::redo_all(before.push(r) + after, replay_from, commits) == recovery::redo_all(
            before + after,
            replay_from,
            commits,
        ),
    decreases after.len(),
{
    if after.len() == 0 {
        assert(before.push(r) + after =~= before.push(r));
        assert(before + after =~= before);
        assert(before.push(r).drop_last() =~= before);
    } else {
        let shorter = after.drop_last();
        assert((before.push(r) + after).drop_last() =~= before.push(r) + shorter);
        assert((before + after).drop_last() =~= before + shorter);
        law_unredone_records_leave_no_trace(before, r, shorter, replay_from, commits);
    }
}

/// A change that a transaction logged that did not commit is not done again.
pub proof fn law_uncommitted_is_not_redone(r: RecordView, replay_from: Lsn, commits: Seq<(TxId, Csn)>)
    requires
        payload::parse_payload(r.payload) matches Ok(change) && !(change is Commit) && !recovery::has_committed(
            commits,
            match change {
                PayloadView::HeapInsert { tx_id, .. } => tx_id,
                PayloadView::HeapUpdate { tx_id, .. } => tx_id,
                PayloadView::HeapDelete { tx_id, .. } => tx_id,
                _ => r.tx_id,
            },
        ),
    ensures
        recovery::redo_of(r, replay_from, commits) == Ok::<Option<RedoView>, Error>(None),
{
}

/// A change of a row that a transaction logged that committed is done again as it was logged: the same
/// change, to the same row of the same relation, for the same transaction, with the same bytes.
pub proof fn law_committed_change_is_redone(
    r: RecordView,
    replay_from: Lsn,
    commits: Seq<(TxId, Csn)>,
    tx_id: TxId,
    rel_id: RelId,
    row_id: RowId,
    data: Seq<u8>,
)
    requires
        r.kind == WalRecordKind::PageDelta,
        r.lsn.0 >= replay_from.0,
        recovery::has_committed(commits, tx_id),
        data.len() <= u32::MAX,
        29 + data.len() <= usize::MAX,
    ensures
        r.payload == (PayloadView::HeapInsert { tx_id, rel_id, row_id, payload: data }).image() ==> recovery::redo_of(
            r,
            replay_from,
            commits,
        ) == Ok::<Option<RedoView>, Error>(Some(RedoView::Insert { tx_id, rel_id, row_id, payload: data })),
        r.payload == (PayloadView::HeapUpdate { tx_id, rel_id, row_id, payload: data }).image() ==> recovery::redo_of(
            r,
            replay_from,
            commits,
        ) == Ok::<Option<RedoView>, Error>(Some(RedoView::Update { tx_id, rel_id, row_id, payload: data })),
        r.payload == (PayloadView::HeapDelete { tx_id, rel_id, row_id }).image() ==> recovery::redo_of(
            r,
            replay_from,
            commits,
        ) == Ok::<Option<RedoView>, Error>(Some(RedoView::Delete { tx_id, rel_id, row_id })),
{
    broadcast use bytes::lemma_le_bytes_len;

    payload::law_payload_round_trips(PayloadView::HeapInsert { tx_id, rel_id, row_id, payload: data });
    payload::law_payload_round_trips(PayloadView::HeapUpdate { tx_id, rel_id, row_id, payload: data });
    payload::law_payload_round_trips(PayloadView::HeapDelete { tx_id, rel_id, row_id });
}

/// What is done again comes in the order of the log: for a log and what follows it, what the log asks
/// for comes first.
pub proof fn law_redo_follows_log(
    first: Seq<RecordView>,
    then: Seq<RecordView>,
    replay_from: Lsn,
    commits: Seq<(TxId, Csn)>,
)
    ensures
        recovery::redo_all(first + then, replay_from, commits) == (match recovery::redo_all(first, replay_from, commits) {
            Err(e) => Err::<Seq<RedoView>, Error>(e),
            Ok(a) => match recovery::redo_all(then, replay_from, commits) {
                Err(e) => Err(e),
                Ok(b) => Ok(a + b),
            },
        }),
    decreases then.len(),
{
    if then.len() == 0 {
        assert(first + then =~= first);
        if let Ok(a) = recovery::redo_all(first, replay_from, commits) {
            assert(a + Seq::<RedoView>::empty() =~= a);
        }
    } else {
        let all = first + then;
        assert(all.drop_last() =~= first + then.drop_last());
        assert(all.last() == then.last());
        law_redo_follows_log(first, then.drop_last(), replay_from, commits);
        if let Ok(a) = recovery::redo_all(first, replay_from, commits) {
            if let Ok(b) = recovery::redo_all(then.drop_last(), replay_from, commits) {
                if let Ok(Some(action)) = recovery::redo_of(then.last(), replay_from, commits) {
                    assert((a + b).push(action) =~= a + b.push(action));
                }
            }
        }
    }
}

/// Commits are found in the order of the log.
pub proof fn law_commits_follow_log(first: Seq<RecordView>, then: Seq<RecordView>)
    ensures
        recovery::commits_of(first + then) == (match recovery::commits_of(first) {
            Err(e) => Err::<Seq<(TxId, Csn)>, Error>(e),
            Ok(a) => match recovery::commits_of(then) {
                Err(e) => Err(e),
                Ok(b) => Ok(a + b),
            },
        }),
    decreases then.len(),
{
    if then.len() == 0 {
        assert(first + then =~= first);
        if let Ok(a) = recovery::commits_of(first) {
            assert(a + Seq::<(TxId, Csn)>::empty() =~= a);
        }
    } else {
        let all = first + then;
        assert(all.drop_last() =~= first + then.drop_last());
        assert(all.last() == then.last());
        law_commits_follow_log(first, then.drop_last());
        if let Ok(a) = recovery::commits_of(first) {
            if let Ok(b) = recovery::commits_of(then.drop_last()) {
                if let Ok(c) = recovery::commit_of(then.last().payload) {
                    assert((a + b).push(c) =~= a + b.push(c));
                }
            }
        }
    }
}

proof fn lemma_commit_counts(records: Seq<RecordView>, commits: Seq<(TxId, Csn)>, c: int, tx_id: TxId, csn: Csn)
    requires
        recovery::commits_of(records) == Ok::<Seq<(TxId, Csn)>, Error>(commits),
        0 <= c < records.len(),
        records[c].kind == WalRecordKind::Commit,
        records[c].payload == (PayloadView::Commit { tx_id, csn }).image(),
    ensures
        recovery::has_committed(commits, tx_id),
        commits.contains((tx_id, csn)),
{
    let before = records.take(c);
    let after = records.skip(c + 1);
    assert(before.push(records[c]) + after =~= records);
    law_commits_follow_log(before.push(records[c]), after);
    assert(before.push(records[c]) =~= before + seq![records[c]]);
    law_commits_follow_log(before, seq![records[c]]);
    let early = recovery::commits_of(before)->Ok_0;
    let late = recovery::commits_of(after)->Ok_0;
    law_logged_commit_is_recovered(before, early, records[c], tx_id, csn);
    assert(commits == early.push((tx_id, csn)) + late);
    assert(commits[early.len() as int] == (tx_id, csn));
    assert(commits[early.len() as int].0 == tx_id);
}

/// A log that holds a row change and, anywhere, the commit of its transaction brings the change back:
/// recovery does it again behind everything that the records before it ask for, and before everything
/// that the records behind it ask for.
pub proof fn law_committed_change_survives(
    records: Seq<RecordView>,
    replay_from: Lsn,
    i: int,
    c: int,
    change: PayloadView,
    csn: Csn,
)
    requires
        recovery::recovery_of(records, replay_from) is Ok,
        0 <= i < records.len(),
        0 <= c < records.len(),
        change is HeapInsert || change is HeapUpdate || change is HeapDelete,
        change.encodable(),
        change.image().len() <= usize::MAX,
        records[i].kind == WalRecordKind::PageDelta,
        records[i].payload == change.image(),
        records[i].lsn.0 >= replay_from.0,
        records[c].kind == WalRecordKind::Commit,
        records[c].payload == (PayloadView::Commit { tx_id: change.tx(), csn }).image(),
    ensures
        ({
            let (commits, actions) = recovery::recovery_of(records, replay_from)->Ok_0;
            let before = recovery::redo_all(records.take(i), replay_from, commits);
            let after = recovery::redo_all(records.skip(i + 1), replay_from, commits);
            &&& before is Ok
            &&& after is Ok
            &&& actions == before->Ok_0 + seq![
                match change {
                    PayloadView::HeapInsert { tx_id, rel_id, row_id, payload } => RedoView::Insert {
                        tx_id,
                        rel_id,
                        row_id,
                        payload,
                    },
                    PayloadView::HeapUpdate { tx_id, rel_id, row_id, payload } => RedoView::Update {
                        tx_id,
                        rel_id,
                        row_id,
                        payload,
                    },
                    _ => RedoView::Delete {
                        tx_id: change->HeapDelete_tx_id,
                        rel_id: change->HeapDelete_rel_id,
                        row_id: change->HeapDelete_row_id,
                    },
                },
            ] + after->Ok_0
        }),
{
    broadcast use bytes::lemma_le_bytes_len;

    let (commits, actions) = recovery::recovery_of(records, replay_from)->Ok_0;
    lemma_commit_counts(records, commits, c, change.tx(), csn);
    let r = records[i];
    match change {
        PayloadView::HeapInsert { tx_id, rel_id, row_id, payload } => {
            law_committed_change_is_redone(r, replay_from, commits, tx_id, rel_id, row_id, payload);
        },
        PayloadView::HeapUpdate { tx_id, rel_id, row_id, payload } => {
            law_committed_change_is_redone(r, replay_from, commits, tx_id, rel_id, row_id, payload);
        },
        PayloadView::HeapDelete { tx_id, rel_id, row_id } => {
            law_committed_change_is_redone(r, replay_from, commits, tx_id, rel_id, row_id, Seq::empty());
        },
        _ => {},
    }
    let one = seq![r];
    assert(records =~= records.take(i) + one + records.skip(i + 1));
    law_redo_follows_log(records.take(i) + one, records.skip(i + 1), replay_from, commits);
    law_redo_follows_log(records.take(i), one, replay_from, commits);
    assert(one.drop_last() =~= Seq::empty());
    reveal_with_fuel(recovery::redo_all, 2);
    let action = recovery::redo_of(r, replay_from, commits)->Ok_0->Some_0;
    assert(recovery::redo_all(one, replay_from, commits)->Ok_0 =~= seq![action]);
}

/// What is done again for a log counts once: a page that is put back as a page, a row change as a
/// change.
pub proof fn law_recovery_counts(
    m: RecoveryMetrics,
    commits: Seq<(TxId, Csn)>,
    actions: Seq<RedoView>,
)
    requires
        recovery::counts(m, commits, actions),
    ensures
        m.page_images_redone == actions.filter(|a: RedoView| a is PageImage).len(),
        m.legacy_mutations_redone == actions.filter(|a: RedoView| !(a is PageImage)).len(),
        m.commits_recovered == commits.len(),
{
    lemma_counts(actions);
}

proof fn lemma_counts(actions: Seq<RedoView>)
    ensures
        recovery::count_images(actions) == actions.filter(|a: RedoView| a is PageImage).len(),
        actions.len() - recovery::count_images(actions) == actions.filter(|a: RedoView| !(a is PageImage)).len(),
    decreases actions.len(),
{
    reveal(Seq::filter);
    if actions.len() > 0 {
        lemma_counts(actions.drop_last());
    }
}

/// A record ends where the bytes that hold it end.
pub proof fn law_record_ends_behind_its_bytes(r: RecordView)
    ensures
        recovery::record_end(r) == r.lsn.0 + r.frame().len(),
{
    broadcast use bytes::lemma_le_bytes_len;

}

/// No number of a transaction or a commit that recovery found is handed out again, unless the last one
/// there is was in use.
pub proof fn law_recovered_numbers_are_not_reused(
    before: ConcurrentTxStatus,
    after: ConcurrentTxStatus,
    commits: Seq<(TxId, Csn)>,
    i: int,
)
    requires
        recovery::recovered(before, after, commits),
        0 <= i < commits.len(),
    ensures
        after.spec_next_tx() > commits[i].0.0 || after.spec_next_tx() == u64::MAX,
        after.spec_next_csn() > commits[i].1.0 || after.spec_next_csn() == u64::MAX,
        after.spec_published_csn() >= commits[i].1.0,
        after.spec_next_tx() >= before.spec_next_tx(),
        after.spec_next_csn() >= before.spec_next_csn(),
        after.spec_published_csn() >= before.spec_published_csn(),
        after.spec_published_csn() == before.spec_published_csn() || exists|k: int|
            0 <= k < commits.len() && (#[trigger] commits[k]).1.0 == after.spec_published_csn(),
{
    let txs = Seq::new(commits.len(), |k: int| commits[k].0.0);
    let csns = Seq::new(commits.len(), |k: int| commits[k].1.0);
    assert(txs[i] == commits[i].0.0 && csns[i] == commits[i].1.0);
    lemma_next_after(before.spec_next_tx(), txs, i);
    lemma_next_after(before.spec_next_csn(), csns, i);
    let k = lemma_largest_is_one(before.spec_published_csn(), csns, i);
    if after.spec_published_csn() != before.spec_published_csn() {
        assert(commits[k].1.0 == csns[k]);
    }
}

proof fn lemma_next_after(next: u64, seen: Seq<u64>, i: int)
    requires
        0 <= i < seen.len(),
    ensures
        recovery::next_after(next, seen) > seen[i] || recovery::next_after(next, seen) == u64::MAX,
        recovery::next_after(next, seen) >= next,
    decreases seen.len(),
{
    reveal_with_fuel(recovery::next_after, 2);
    if i < seen.len() - 1 {
        assert(seen.drop_last()[i] == seen[i]);
        lemma_next_after(next, seen.drop_last(), i);
    } else if seen.len() > 1 {
        lemma_next_after(next, seen.drop_last(), 0);
    }
}

proof fn lemma_largest_is_one(least: u64, seen: Seq<u64>, i: int) -> (k: int)
    requires
        0 <= i < seen.len(),
    ensures
        recovery::largest(least, seen) >= seen[i],
        recovery::largest(least, seen) >= least,
        recovery::largest(least, seen) == least || (0 <= k < seen.len() && seen[k] == recovery::largest(least, seen)),
    decreases seen.len(),
{
    let n = seen.len() - 1;
    if n == 0 {
        0
    } else {
        let m = if i < n {
            i
        } else {
            0
        };
        assert(seen.drop_last()[m] == seen[m]);
        let k = lemma_largest_is_one(least, seen.drop_last(), m);
        if recovery::largest(least, seen) == recovery::largest(least, seen.drop_last()) {
            k
        } else {
            n
        }
    }
}

} // verus!
