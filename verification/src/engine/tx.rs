//! A transaction as its owner sees it.
use crate::error::{Error, Result};
use crate::format::{RowId, TxId};
use crate::txn::{Isolation, Snapshot};
use vstd::prelude::*;

verus! {

/// A transaction.
#[derive(Clone, Debug, PartialEq, Eq)]
pub struct Txn {
    id: TxId,
    isolation: Isolation,
    snapshot: Snapshot,
    row_locks: Vec<RowId>,
    pending_schema: Option<u64>,
    open: bool,
}

/// The contents of a transaction. The schema that it will publish is known by its epoch.
#[verifier::ext_equal]
pub struct TxnView {
    pub id: TxId,
    pub isolation: Isolation,
    pub snapshot: Snapshot,
    pub row_locks: Seq<RowId>,
    pub pending_schema: Option<u64>,
    pub open: bool,
}

impl View for Txn {
    type V = TxnView;

    closed spec fn view(&self) -> TxnView {
        TxnView {
            id: self.id,
            isolation: self.isolation,
            snapshot: self.snapshot,
            row_locks: self.row_locks@,
            pending_schema: self.pending_schema,
            open: self.open,
        }
    }
}

impl TxnView {
    /// The transaction once it is over.
    pub open spec fn closed(self) -> TxnView {
        TxnView { row_locks: Seq::empty(), open: false, ..self }
    }

    /// The transaction with a new snapshot, if its isolation level asks for one.
    pub open spec fn refreshed(self, now: Snapshot) -> TxnView {
        if self.isolation == Isolation::ReadCommitted {
            TxnView { snapshot: now, ..self }
        } else {
            self
        }
    }

    /// The transaction with one more row locked.
    pub open spec fn with_lock(self, row_id: RowId) -> TxnView {
        if self.row_locks.contains(row_id) {
            self
        } else {
            TxnView { row_locks: self.row_locks.push(row_id), ..self }
        }
    }
}

impl Txn {
    pub fn new(id: TxId, isolation: Isolation, snapshot: Snapshot) -> (tx: Txn)
        ensures
            tx@ == (TxnView { id, isolation, snapshot, row_locks: Seq::empty(), pending_schema: None, open: true }),
    {
        Txn { id, isolation, snapshot, row_locks: Vec::new(), pending_schema: None, open: true }
    }

    pub fn id(&self) -> (id: TxId)
        ensures
            id == self@.id,
    {
        self.id
    }

    pub fn isolation(&self) -> (isolation: Isolation)
        ensures
            isolation == self@.isolation,
    {
        self.isolation
    }

    pub fn snapshot(&self) -> (snapshot: Snapshot)
        ensures
            snapshot == self@.snapshot,
    {
        self.snapshot
    }

    /// Refuses work for a transaction that is over.
    pub fn ensure_open(&self) -> (r: Result<()>)
        ensures
            r == (if self@.open {
                Ok(())
            } else {
                Err(Error::TransactionClosed)
            }),
    {
        if self.open {
            Ok(())
        } else {
            Err(Error::TransactionClosed)
        }
    }

    pub fn replace_snapshot(&mut self, snapshot: Snapshot)
        ensures
            final(self)@ == (TxnView { snapshot, ..old(self)@ }),
    {
        self.snapshot = snapshot;
    }

    pub fn has_row_lock(&self, row_id: RowId) -> (held: bool)
        ensures
            held == self@.row_locks.contains(row_id),
    {
        for i in 0..self.row_locks.len()
            invariant
                forall|j: int| 0 <= j < i ==> #[trigger] self.row_locks@[j] != row_id,
        {
            if self.row_locks[i] == row_id {
                proof {
                    assert(self.row_locks@[i as int] == row_id);
                }
                return true;
            }
        }
        false
    }

    pub fn push_row_lock(&mut self, row_id: RowId)
        ensures
            final(self)@ == (TxnView { row_locks: old(self)@.row_locks.push(row_id), ..old(self)@ }),
    {
        self.row_locks.push(row_id);
    }

    /// Takes all row locks out.
    pub fn drain_row_locks(&mut self) -> (rows: Vec<RowId>)
        ensures
            rows@ == old(self)@.row_locks,
            final(self)@ == (TxnView { row_locks: Seq::empty(), ..old(self)@ }),
    {
        let mut rows: Vec<RowId> = Vec::new();
        std::mem::swap(&mut rows, &mut self.row_locks);
        rows
    }

    pub fn pending_schema(&self) -> (epoch: Option<u64>)
        ensures
            epoch == self@.pending_schema,
    {
        self.pending_schema
    }

    /// Notes the schema that a commit will publish.
    pub fn set_pending_schema(&mut self, epoch: u64)
        ensures
            final(self)@ == (TxnView { pending_schema: Some(epoch), ..old(self)@ }),
    {
        self.pending_schema = Some(epoch);
    }

    pub fn close(&mut self)
        ensures
            final(self)@ == (TxnView { open: false, ..old(self)@ }),
    {
        self.open = false;
    }
}

} // verus!
