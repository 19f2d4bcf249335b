//! Which entries a reader sees, and how that changes as transactions end.
use crate::format::{Csn, TxId};
use crate::index::cell::{EntryView, NON_TRANSACTIONAL_DELETE};
use crate::index::laws;
use crate::index::model;
use crate::index::model::{IndexView, Reader};
use crate::index::shape;
use crate::index::shape::{KeySpace, Shape};
use crate::txn::{ConcurrentTxStatus, Snapshot, TxState};
use vstd::prelude::*;

verus! {

/// An entry that nobody has marked deleted is seen by everyone who sees its creator: its owner, every
/// snapshot that is not older than the creator's commit, and everyone if no transaction created it.
pub proof fn law_created_entry_is_seen(e: EntryView, txs: ConcurrentTxStatus, snapshot: Snapshot, owner: Option<TxId>)
    requires
        e is Leaf,
        e->delete_tx == TxId(0),
        e->create_tx == TxId(0) || owner == Some(e->create_tx) || (txs.state_of(e->create_tx) matches TxState::Committed(
            csn,
        ) && csn.0 <= snapshot.csn.0),
    ensures
        model::admits(Reader::At(&txs, snapshot, owner), e),
{
}

/// An entry is hidden from everyone but its creator until the creator has committed, and from snapshots
/// that were taken before that.
pub proof fn law_uncommitted_entry_is_hidden(
    e: EntryView,
    txs: ConcurrentTxStatus,
    snapshot: Snapshot,
    owner: Option<TxId>,
)
    requires
        e is Leaf,
        e->create_tx != TxId(0),
        owner != Some(e->create_tx),
        txs.state_of(e->create_tx) matches TxState::Committed(csn) ==> csn.0 > snapshot.csn.0,
    ensures
        !model::admits(Reader::At(&txs, snapshot, owner), e),
{
}

/// A delete does not hide an entry from others while it is under way, after it was rolled back, or from
/// snapshots that were taken before it committed: to them the entry is as if it carried no mark.
pub proof fn law_later_delete_does_not_hide(
    e: EntryView,
    txs: ConcurrentTxStatus,
    snapshot: Snapshot,
    owner: Option<TxId>,
)
    requires
        e is Leaf,
        e->delete_tx != TxId(NON_TRANSACTIONAL_DELETE),
        owner != Some(e->delete_tx),
        txs.state_of(e->delete_tx) matches TxState::Committed(csn) ==> csn.0 > snapshot.csn.0,
    ensures
        model::admits(Reader::At(&txs, snapshot, owner), e) == model::admits(
            Reader::At(&txs, snapshot, owner),
            model::marked(e, TxId(0)),
        ),
{
}

/// A delete hides an entry from the transaction that deleted it, from every snapshot that is not older
/// than its commit, and from everyone if no transaction did it.
pub proof fn law_delete_hides(e: EntryView, txs: ConcurrentTxStatus, snapshot: Snapshot, owner: Option<TxId>)
    requires
        e is Leaf,
        e->delete_tx != TxId(0),
        e->delete_tx == TxId(NON_TRANSACTIONAL_DELETE) || owner == Some(e->delete_tx) || (txs.state_of(
            e->delete_tx,
        ) matches TxState::Committed(csn) && csn.0 <= snapshot.csn.0),
    ensures
        !model::admits(Reader::At(&txs, snapshot, owner), e),
{
}

/// Who reads without a snapshot sees the entries that carry no mark, and no others.
pub proof fn law_live_entries_carry_no_mark(e: EntryView)
    ensures
        model::admits(Reader::Live, e) <==> e is Leaf && e->delete_tx == TxId(0),
        e is Internal ==> forall|reader: Reader| !model::admits(reader, e),
{
}

/// A mark changes who deleted an entry and nothing else about it.
pub proof fn law_mark_changes_the_mark_only(e: EntryView, tx_id: TxId)
    requires
        e is Leaf,
    ensures
        model::marked(e, tx_id) is Leaf,
        model::marked(e, tx_id)->delete_tx == tx_id,
        model::marked(e, tx_id)->create_tx == e->create_tx,
        model::marked(e, tx_id)->logical_key == e->logical_key,
        model::marked(e, tx_id)->row == e->row,
        model::marked(e, tx_id)->physical == e->physical,
{
}

/// Whether one transaction has ended between two points in time and no other: it was under way, and then
/// it had been rolled back or had committed behind a snapshot.
pub open spec fn one_ended_behind(
    before: ConcurrentTxStatus,
    after: ConcurrentTxStatus,
    tx_id: TxId,
    snapshot: Snapshot,
) -> bool {
    &&& before.state_of(tx_id) is InProgress
    &&& match after.state_of(tx_id) {
        TxState::InProgress => true,
        TxState::Aborted => true,
        TxState::Committed(csn) => csn.0 > snapshot.csn.0,
    }
    &&& forall|other: TxId| other != tx_id ==> #[trigger] after.state_of(other) == before.state_of(other)
}

/// What a snapshot sees of an entry does not change when a transaction ends behind it.
pub proof fn law_entries_seen_are_stable(
    before: ConcurrentTxStatus,
    after: ConcurrentTxStatus,
    tx_id: TxId,
    snapshot: Snapshot,
    owner: Option<TxId>,
    e: EntryView,
)
    requires
        one_ended_behind(before, after, tx_id, snapshot),
    ensures
        model::admits(Reader::At(&after, snapshot, owner), e) == model::admits(Reader::At(&before, snapshot, owner), e),
{
    match e {
        EntryView::Leaf { create_tx, delete_tx, .. } => {
            if create_tx != tx_id {
                assert(after.state_of(create_tx) == before.state_of(create_tx));
            }
            if delete_tx != tx_id {
                assert(after.state_of(delete_tx) == before.state_of(delete_tx));
            }
        },
        EntryView::Internal { .. } => {},
    }
}

proof fn lemma_rows_stable(
    es: Seq<EntryView>,
    before: ConcurrentTxStatus,
    after: ConcurrentTxStatus,
    tx_id: TxId,
    snapshot: Snapshot,
    owner: Option<TxId>,
    k: Seq<u8>,
    end: Seq<u8>,
)
    requires
        one_ended_behind(before, after, tx_id, snapshot),
    ensures
        shape::rows_of(es, k, Reader::At(&after, snapshot, owner)) == shape::rows_of(
            es,
            k,
            Reader::At(&before, snapshot, owner),
        ),
        model::rows_between(es, k, end, Reader::At(&after, snapshot, owner)) == model::rows_between(
            es,
            k,
            end,
            Reader::At(&before, snapshot, owner),
        ),
    decreases es.len(),
{
    if es.len() > 0 {
        law_entries_seen_are_stable(before, after, tx_id, snapshot, owner, es.last());
        lemma_rows_stable(es.drop_last(), before, after, tx_id, snapshot, owner, k, end);
    }
}

/// Lookups and range scans under one snapshot find the same rows again after a transaction has ended
/// behind it.
pub proof fn law_snapshot_reads_repeat(
    t: IndexView,
    s: Shape,
    keys: KeySpace,
    before: ConcurrentTxStatus,
    after: ConcurrentTxStatus,
    tx_id: TxId,
    snapshot: Snapshot,
    owner: Option<TxId>,
    k: Seq<u8>,
    end: Seq<u8>,
)
    requires
        shape::linked(t, s, keys),
        keys.contains(k),
        one_ended_behind(before, after, tx_id, snapshot),
    ensures
        t.lookup(k, Reader::At(&after, snapshot, owner)) == t.lookup(k, Reader::At(&before, snapshot, owner)),
        t.range(k, end, Reader::At(&after, snapshot, owner)).1 == t.range(
            k,
            end,
            Reader::At(&before, snapshot, owner),
        ).1,
        t.lookup(k, Reader::At(&after, snapshot, owner)) is Ok,
{
    laws::law_lookup_is_exact(t, s, keys, k, Reader::At(&after, snapshot, owner));
    laws::law_lookup_is_exact(t, s, keys, k, Reader::At(&before, snapshot, owner));
    laws::law_range_is_exact(t, s, keys, k, end, Reader::At(&after, snapshot, owner));
    laws::law_range_is_exact(t, s, keys, k, end, Reader::At(&before, snapshot, owner));
    lemma_rows_stable(shape::contents(t, s.leaves), before, after, tx_id, snapshot, owner, k, end);
}

/// An entry is given up for good exactly if a transaction deleted it that committed before the horizon.
/// No snapshot at or behind the horizon sees such an entry.
pub proof fn law_only_dead_entries_are_given_up(
    e: EntryView,
    txs: ConcurrentTxStatus,
    horizon: Csn,
    snapshot: Snapshot,
    owner: Option<TxId>,
)
    ensures
        e.dead_before(txs, horizon) <==> e is Leaf && e->delete_tx != TxId(0) && (txs.state_of(
            e->delete_tx,
        ) matches TxState::Committed(csn) && csn.0 < horizon.0),
        e.dead_before(txs, horizon) && snapshot.csn.0 >= horizon.0 ==> !model::admits(
            Reader::At(&txs, snapshot, owner),
            e,
        ),
{
}

/// Taking entries out keeps the others, in their order.
pub proof fn law_others_stay(es: Seq<EntryView>, gone: spec_fn(EntryView) -> bool)
    ensures
        model::without(es, gone) == es.filter(|e: EntryView| !gone(e)),
    decreases es.len(),
{
    reveal(Seq::filter);
    if es.len() > 0 {
        law_others_stay(es.drop_last(), gone);
    }
}

} // verus!
