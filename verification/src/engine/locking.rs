//! What holds of row locks from the first one to the end of a transaction.
use crate::engine::lock::{RowKey, RowLockManager};
use crate::engine::state;
use crate::engine::tx::TxnView;
use crate::format::{RelId, RowId, TxId};
use crate::txn::Snapshot;
use vstd::prelude::*;

verus! {

/// A transaction that locks a row has noted it, and every row that it had noted before, and no other.
/// Nothing else about the transaction changes.
pub proof fn law_locked_rows_are_noted(tx: TxnView, row_id: RowId, other: RowId)
    ensures
        tx.with_lock(row_id).row_locks.contains(row_id),
        tx.row_locks.contains(other) ==> tx.with_lock(row_id).row_locks.contains(other),
        tx.with_lock(row_id).row_locks.contains(other) ==> tx.row_locks.contains(other) || other == row_id,
        tx.with_lock(row_id).with_lock(row_id) == tx.with_lock(row_id),
        tx.with_lock(row_id).id == tx.id,
        tx.with_lock(row_id).isolation == tx.isolation,
        tx.with_lock(row_id).snapshot == tx.snapshot,
        tx.with_lock(row_id).pending_schema == tx.pending_schema,
        tx.with_lock(row_id).open == tx.open,
{
    let after = tx.with_lock(row_id).row_locks;
    if !tx.row_locks.contains(row_id) {
        assert(after[tx.row_locks.len() as int] == row_id);
        if tx.row_locks.contains(other) {
            let i = choose|i: int| 0 <= i < tx.row_locks.len() && tx.row_locks[i] == other;
            assert(after[i] == other);
        }
        if after.contains(other) && other != row_id {
            let i = choose|i: int| 0 <= i < after.len() && after[i] == other;
            assert(tx.row_locks[i] == other);
        }
    }
}

/// The transaction after it has locked some rows, one after the other.
pub open spec fn with_locks(tx: TxnView, rows: Seq<RowId>) -> TxnView
    decreases rows.len(),
{
    if rows.len() == 0 {
        tx
    } else {
        with_locks(tx, rows.drop_last()).with_lock(rows.last())
    }
}

/// However many rows a transaction locks, it has noted each of them.
pub proof fn law_all_locked_rows_are_noted(tx: TxnView, rows: Seq<RowId>, i: int)
    requires
        0 <= i < rows.len(),
    ensures
        with_locks(tx, rows).row_locks.contains(rows[i]),
    decreases rows.len(),
{
    let before = with_locks(tx, rows.drop_last());
    law_locked_rows_are_noted(before, rows.last(), rows[i]);
    if i < rows.len() - 1 {
        assert(rows.drop_last()[i] == rows[i]);
        law_all_locked_rows_are_noted(tx, rows.drop_last(), i);
    }
}

/// A transaction that gives back all rows that it has noted holds none of them any more, in the
/// relation that they belong to. Rows of others, and of other relations, stay as they are.
pub proof fn law_noted_rows_are_given_back(
    before: RowLockManager,
    after: RowLockManager,
    rel_id: RelId,
    rows: Seq<RowId>,
    tx_id: TxId,
    key: RowKey,
)
    requires
        state::released(before, after, rel_id, rows, tx_id),
    ensures
        key.rel_id == rel_id && rows.contains(key.row_id) ==> after.owner(key) != Some(tx_id),
        key.rel_id == rel_id && rows.contains(key.row_id) && before.owner(key) == Some(tx_id) ==> after.owner(key) is None,
        before.owner(key) != Some(tx_id) ==> after.owner(key) == before.owner(key),
        key.rel_id != rel_id ==> after.owner(key) == before.owner(key),
        !rows.contains(key.row_id) ==> after.owner(key) == before.owner(key),
{
}

/// A transaction that is over takes no more part: it is closed, has no rows noted, and is otherwise as it
/// was.
pub proof fn law_closed_transaction(tx: TxnView)
    ensures
        !tx.closed().open,
        tx.closed().row_locks.len() == 0,
        tx.closed().id == tx.id,
        tx.closed().isolation == tx.isolation,
        tx.closed().snapshot == tx.snapshot,
        tx.closed().pending_schema == tx.pending_schema,
{
}

/// A snapshot changes for transactions that read what is committed at the time, and for no others.
pub proof fn law_snapshots_stay(tx: TxnView, now: Snapshot)
    ensures
        tx.isolation is ReadCommitted ==> tx.refreshed(now).snapshot == now,
        !(tx.isolation is ReadCommitted) ==> tx.refreshed(now).snapshot == tx.snapshot,
        tx.refreshed(now).id == tx.id,
        tx.refreshed(now).isolation == tx.isolation,
        tx.refreshed(now).row_locks == tx.row_locks,
        tx.refreshed(now).pending_schema == tx.pending_schema,
        tx.refreshed(now).open == tx.open,
{
}

} // verus!
