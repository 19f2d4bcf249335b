//! Transaction states, snapshots and what a snapshot sees.
use crate::format::{Csn, TxId};
use vstd::prelude::*;

verus! {

/// Where a transaction stands.
#[derive(Clone, Copy, Debug, PartialEq, Eq, Structural)]
pub enum TxState {
    InProgress,
    Committed(Csn),
    Aborted,
}

/// How a transaction sees the work of others.
#[derive(Clone, Copy, Debug, PartialEq, Eq, Structural)]
pub enum Isolation {
    ReadCommitted,
    Snapshot,
    Serializable,
}

/// The commits up to and including a sequence number.
#[derive(Clone, Copy, Debug, PartialEq, Eq, Structural)]
pub struct Snapshot {
    pub csn: Csn,
}

/// One transaction whose fate is known.
#[derive(Clone, Copy, Debug, PartialEq, Eq, Structural)]
pub struct TxRecord {
    pub tx_id: TxId,
    pub state: TxState,
}

/// The fate of every transaction, and the next numbers to hand out.
#[derive(Clone, Debug, PartialEq, Eq)]
pub struct ConcurrentTxStatus {
    records: Vec<TxRecord>,
    next_tx: u64,
    next_csn: u64,
    published_csn: u64,
    reserved: Vec<u64>,
    active: Vec<ActiveTx>,
}

/// The transactions in numbers.
#[derive(Clone, Copy, Debug, PartialEq, Eq, Structural)]
pub struct TxStatusStats {
    pub next_tx: TxId,
    pub next_csn: Csn,
    pub published_csn: Csn,
    pub committed_states: usize,
    pub active_transactions: usize,
    pub active_snapshots: usize,
}

/// A transaction that has begun and is not over.
#[derive(Clone, Copy, Debug, PartialEq, Eq, Structural)]
pub struct ActiveTx {
    pub tx_id: TxId,
    pub csn: Csn,
}

/// The least of some numbers, or `least` if that is less.
pub open spec fn least_of(numbers: Seq<u64>, least: u64) -> u64
    decreases numbers.len(),
{
    if numbers.len() == 0 {
        least
    } else {
        let rest = least_of(numbers.drop_last(), least);
        if numbers.last() < rest {
            numbers.last()
        } else {
            rest
        }
    }
}

/// The snapshots of transactions.
pub open spec fn active_csns(active: Seq<ActiveTx>) -> Seq<u64> {
    Seq::new(active.len(), |i: int| active[i].csn.0)
}

/// Different numbers beyond the published ones.
pub open spec fn outstanding(reserved: Seq<u64>, published: u64, next: u64) -> bool {
    &&& forall|i: int| 0 <= i < reserved.len() ==> published < #[trigger] reserved[i] < next
    &&& forall|i: int, j: int| 0 <= i < j < reserved.len() ==> #[trigger] reserved[i] != #[trigger] reserved[j]
}

/// No transaction has a snapshot beyond the published numbers.
pub open spec fn seen_at_most(active: Seq<ActiveTx>, published: u64) -> bool {
    forall|i: int| 0 <= i < active.len() ==> (#[trigger] active[i]).csn.0 <= published
}

/// The state that a list of records gives a transaction: that of its last record.
pub open spec fn state_in(records: Seq<TxRecord>, tx_id: TxId) -> TxState
    decreases records.len(),
{
    if records.len() == 0 {
        TxState::InProgress
    } else if records.last().tx_id == tx_id {
        records.last().state
    } else {
        state_in(records.drop_last(), tx_id)
    }
}

/// Whether a transaction in `state` is seen by a snapshot that is not its own.
pub open spec fn committed_by(state: TxState, snapshot: Snapshot) -> bool {
    match state {
        TxState::Committed(csn) => csn.0 <= snapshot.csn.0,
        _ => false,
    }
}

impl ConcurrentTxStatus {
    pub closed spec fn records(self) -> Seq<TxRecord> {
        self.records@
    }

    pub closed spec fn spec_next_tx(self) -> u64 {
        self.next_tx
    }

    pub closed spec fn spec_next_csn(self) -> u64 {
        self.next_csn
    }

    pub closed spec fn spec_published_csn(self) -> u64 {
        self.published_csn
    }

    /// The sequence numbers that are handed out and whose commits are not over.
    pub closed spec fn spec_reserved(self) -> Seq<u64> {
        self.reserved@
    }

    /// The transactions that have begun and are not over.
    pub closed spec fn spec_active(self) -> Seq<ActiveTx> {
        self.active@
    }

    /// What is handed out lies beyond what every snapshot sees.
    pub open spec fn wf(self) -> bool {
        &&& self.spec_published_csn() < self.spec_next_csn() || self.spec_next_csn() == u64::MAX
        &&& outstanding(self.spec_reserved(), self.spec_published_csn(), self.spec_next_csn())
        &&& seen_at_most(self.spec_active(), self.spec_published_csn())
    }

    /// The last sequence number before the first one whose commit is not over.
    pub open spec fn frontier(reserved: Seq<u64>, next_csn: u64) -> u64 {
        (least_of(reserved, next_csn) - 1) as u64
    }

    pub open spec fn state_of(self, tx_id: TxId) -> TxState {
        state_in(self.records(), tx_id)
    }

    /// Whether a snapshot sees what a transaction did. A transaction sees its own work.
    pub open spec fn visible(self, tx_id: TxId, snapshot: Snapshot, owner: Option<TxId>) -> bool {
        owner == Some(tx_id) || committed_by(self.state_of(tx_id), snapshot)
    }

    pub fn new() -> (txs: ConcurrentTxStatus)
        ensures
            txs.records() == Seq::<TxRecord>::empty(),
            txs.spec_next_tx() == 1,
            txs.spec_next_csn() == 1,
            txs.spec_published_csn() == 0,
            txs.spec_reserved() == Seq::<u64>::empty(),
            txs.spec_active() == Seq::<ActiveTx>::empty(),
            txs.wf(),
    {
        ConcurrentTxStatus {
            records: Vec::new(),
            next_tx: 1,
            next_csn: 1,
            published_csn: 0,
            reserved: Vec::new(),
            active: Vec::new(),
        }
    }

    pub fn state(&self, tx_id: TxId) -> (state: TxState)
        ensures
            state == self.state_of(tx_id),
    {
        let mut i: usize = self.records.len();
        proof {
            assert(self.records@.subrange(0, i as int) =~= self.records@);
        }
        while i > 0
            invariant
                i <= self.records@.len(),
                self.state_of(tx_id) == state_in(self.records@.subrange(0, i as int), tx_id),
            decreases i,
        {
            i = i - 1;
            proof {
                assert(self.records@.subrange(0, i + 1).drop_last() =~= self.records@.subrange(0, i as int));
            }
            if self.records[i].tx_id == tx_id {
                return self.records[i].state;
            }
        }
        TxState::InProgress
    }

    pub fn is_tx_visible(&self, tx_id: TxId, snapshot: &Snapshot, owner: Option<TxId>) -> (seen: bool)
        ensures
            seen == self.visible(tx_id, *snapshot, owner),
    {
        if let Some(me) = owner {
            if me == tx_id {
                return true;
            }
        }
        match self.state(tx_id) {
            TxState::Committed(csn) => csn.0 <= snapshot.csn.0,
            _ => false,
        }
    }

    /// Records the fate of a transaction.
    pub fn record(&mut self, tx_id: TxId, state: TxState)
        ensures
            final(self).records() == old(self).records().push(TxRecord { tx_id, state }),
            final(self).state_of(tx_id) == state,
            forall|other: TxId| other != tx_id ==> final(self).state_of(other) == old(self).state_of(other),
            final(self).spec_next_tx() == old(self).spec_next_tx(),
            final(self).spec_next_csn() == old(self).spec_next_csn(),
            final(self).spec_published_csn() == old(self).spec_published_csn(),
            final(self).spec_reserved() == old(self).spec_reserved(),
            final(self).spec_active() == old(self).spec_active(),
    {
        self.records.push(TxRecord { tx_id, state });
        proof {
            assert(self.records@.drop_last() =~= old(self).records@);
        }
    }

    /// The snapshot of now.
    pub fn snapshot(&self) -> (snapshot: Snapshot)
        ensures
            snapshot.csn.0 == self.spec_published_csn(),
    {
        Snapshot { csn: Csn(self.published_csn) }
    }

    pub fn next_tx(&self) -> (next: TxId)
        ensures
            next.0 == self.spec_next_tx(),
    {
        TxId(self.next_tx)
    }

    pub fn next_csn(&self) -> (next: Csn)
        ensures
            next.0 == self.spec_next_csn(),
    {
        Csn(self.next_csn)
    }

    pub fn published_csn(&self) -> (csn: Csn)
        ensures
            csn.0 == self.spec_published_csn(),
    {
        Csn(self.published_csn)
    }

    /// Begins a transaction: it gets the next number and sees what is published now.
    pub fn begin(&mut self) -> (begun: ActiveTx)
        requires
            old(self).wf(),
            old(self).spec_next_tx() < u64::MAX,
        ensures
            final(self).wf(),
            begun == (ActiveTx {
                tx_id: TxId(old(self).spec_next_tx()),
                csn: Csn(old(self).spec_published_csn()),
            }),
            final(self).spec_next_tx() == old(self).spec_next_tx() + 1,
            final(self).spec_active() == old(self).spec_active().push(begun),
            final(self).records() == old(self).records(),
            final(self).spec_next_csn() == old(self).spec_next_csn(),
            final(self).spec_published_csn() == old(self).spec_published_csn(),
            final(self).spec_reserved() == old(self).spec_reserved(),
    {
        let begun = ActiveTx { tx_id: TxId(self.next_tx), csn: Csn(self.published_csn) };
        self.next_tx = self.next_tx + 1;
        self.active.push(begun);
        begun
    }

    /// Hands out the sequence number of a commit.
    pub fn reserve_commit_csn(&mut self) -> (csn: Csn)
        requires
            old(self).wf(),
            old(self).spec_next_csn() < u64::MAX,
        ensures
            final(self).wf(),
            csn.0 == old(self).spec_next_csn(),
            final(self).spec_next_csn() == old(self).spec_next_csn() + 1,
            final(self).spec_reserved() == old(self).spec_reserved().push(csn.0),
            final(self).records() == old(self).records(),
            final(self).spec_next_tx() == old(self).spec_next_tx(),
            final(self).spec_published_csn() == old(self).spec_published_csn(),
            final(self).spec_active() == old(self).spec_active(),
    {
        let csn: u64 = self.next_csn;
        self.next_csn = csn + 1;
        self.reserved.push(csn);
        Csn(csn)
    }

    /// The commit of a sequence number is over: publishes what is now free of gaps.
    fn settle(&mut self, csn: Csn)
        requires
            old(self).wf(),
        ensures
            final(self).wf(),
            final(self).records() == old(self).records(),
            final(self).spec_next_tx() == old(self).spec_next_tx(),
            final(self).spec_next_csn() == old(self).spec_next_csn(),
            final(self).spec_active() == old(self).spec_active(),
            final(self).spec_reserved() == old(self).spec_reserved().filter(|n: u64| n != csn.0),
            final(self).spec_published_csn() == larger(
                old(self).spec_published_csn(),
                ConcurrentTxStatus::frontier(final(self).spec_reserved(), old(self).spec_next_csn()),
            ),
    {
        let ghost keep = |n: u64| n != csn.0;
        let mut left: Vec<u64> = Vec::new();
        let mut least: u64 = self.next_csn;
        for i in 0..self.reserved.len()
            invariant
                self == old(self),
                old(self).wf(),
                keep == (|n: u64| n != csn.0),
                left@ == self.reserved@.take(i as int).filter(keep),
                least == least_of(left@, self.next_csn),
                self.published_csn < least || self.next_csn == u64::MAX,
                0 < least <= self.next_csn,
                forall|j: int| 0 <= j < left@.len() ==> self.published_csn < #[trigger] left@[j] && least <= #[trigger] left@[j] < self.next_csn,
                forall|j: int, k: int| 0 <= j < k < left@.len() ==> #[trigger] left@[j] != #[trigger] left@[k],
                forall|j: int| 0 <= j < left@.len() ==> self.reserved@.take(i as int).contains(#[trigger] left@[j]),
        {
            let n: u64 = self.reserved[i];
            let ghost before = left@;
            proof {
                assert(self.spec_reserved()[i as int] == n);
                assert(self.reserved@.take(i + 1).drop_last() =~= self.reserved@.take(i as int));
                reveal(Seq::filter);
                assert forall|x: u64| self.reserved@.take(i as int).contains(x) implies x != n && self.reserved@.take(
                    i + 1,
                ).contains(x) by {
                    let k = choose|k: int| 0 <= k < i && self.reserved@.take(i as int)[k] == x;
                    assert(self.spec_reserved()[k] == x);
                    assert(self.reserved@.take(i + 1)[k] == x);
                }
                assert(self.reserved@.take(i + 1)[i as int] == n);
            }
            if n != csn.0 {
                left.push(n);
                if n < least {
                    least = n;
                }
                proof {
                    assert(left@.drop_last() =~= before);
                }
            }
        }
        proof {
            assert(self.reserved@.take(self.reserved@.len() as int) =~= self.reserved@);
        }
        self.reserved = left;
        if least - 1 > self.published_csn {
            self.published_csn = least - 1;
        }
    }

    /// Marks a transaction as committed and publishes its sequence number.
    pub fn publish_commit(&mut self, tx_id: TxId, csn: Csn)
        requires
            old(self).wf(),
        ensures
            final(self).wf(),
            final(self).records() == old(self).records().push(TxRecord { tx_id, state: TxState::Committed(csn) }),
            final(self).state_of(tx_id) == TxState::Committed(csn),
            forall|other: TxId| other != tx_id ==> final(self).state_of(other) == old(self).state_of(other),
            final(self).spec_next_tx() == old(self).spec_next_tx(),
            final(self).spec_next_csn() == old(self).spec_next_csn(),
            final(self).spec_active() == without_tx(old(self).spec_active(), tx_id),
            final(self).spec_reserved() == old(self).spec_reserved().filter(|n: u64| n != csn.0),
            final(self).spec_published_csn() == larger(
                old(self).spec_published_csn(),
                ConcurrentTxStatus::frontier(final(self).spec_reserved(), old(self).spec_next_csn()),
            ),
    {
        self.record(tx_id, TxState::Committed(csn));
        self.settle(csn);
        self.leave(tx_id);
    }

    /// Gives a sequence number up: its commit did not happen.
    pub fn cancel_reserved_csn(&mut self, csn: Csn)
        requires
            old(self).wf(),
        ensures
            final(self).wf(),
            final(self).records() == old(self).records(),
            final(self).spec_next_tx() == old(self).spec_next_tx(),
            final(self).spec_next_csn() == old(self).spec_next_csn(),
            final(self).spec_active() == old(self).spec_active(),
            final(self).spec_reserved() == old(self).spec_reserved().filter(|n: u64| n != csn.0),
            final(self).spec_published_csn() == larger(
                old(self).spec_published_csn(),
                ConcurrentTxStatus::frontier(final(self).spec_reserved(), old(self).spec_next_csn()),
            ),
    {
        self.settle(csn);
    }

    /// Marks a transaction as aborted.
    pub fn abort(&mut self, tx_id: TxId)
        requires
            old(self).wf(),
        ensures
            final(self).wf(),
            final(self).records() == old(self).records().push(TxRecord { tx_id, state: TxState::Aborted }),
            final(self).state_of(tx_id) == TxState::Aborted,
            forall|other: TxId| other != tx_id ==> final(self).state_of(other) == old(self).state_of(other),
            final(self).spec_next_tx() == old(self).spec_next_tx(),
            final(self).spec_next_csn() == old(self).spec_next_csn(),
            final(self).spec_published_csn() == old(self).spec_published_csn(),
            final(self).spec_reserved() == old(self).spec_reserved(),
            final(self).spec_active() == without_tx(old(self).spec_active(), tx_id),
    {
        self.record(tx_id, TxState::Aborted);
        self.leave(tx_id);
    }

    /// Forgets the snapshot of a transaction.
    fn leave(&mut self, tx_id: TxId)
        requires
            old(self).wf(),
        ensures
            final(self).wf(),
            final(self).records() == old(self).records(),
            final(self).spec_next_tx() == old(self).spec_next_tx(),
            final(self).spec_next_csn() == old(self).spec_next_csn(),
            final(self).spec_published_csn() == old(self).spec_published_csn(),
            final(self).spec_reserved() == old(self).spec_reserved(),
            final(self).spec_active() == without_tx(old(self).spec_active(), tx_id),
    {
        let mut left: Vec<ActiveTx> = Vec::new();
        for i in 0..self.active.len()
            invariant
                self == old(self),
                old(self).wf(),
                left@ == without_tx(self.active@.take(i as int), tx_id),
                forall|j: int| 0 <= j < left@.len() ==> (#[trigger] left@[j]).csn.0 <= self.published_csn,
        {
            let one = self.active[i];
            proof {
                assert(self.spec_active()[i as int] == one);
                assert(self.active@.take(i + 1).drop_last() =~= self.active@.take(i as int));
                reveal(Seq::filter);
            }
            if one.tx_id != tx_id {
                left.push(one);
            }
        }
        proof {
            assert(self.active@.take(self.active@.len() as int) =~= self.active@);
        }
        self.active = left;
    }

    /// A transaction of which the log says that it committed.
    pub fn publish_recovered_commit(&mut self, tx_id: TxId, csn: Csn)
        requires
            old(self).wf(),
            old(self).spec_reserved().len() == 0,
        ensures
            final(self).wf(),
            final(self).spec_reserved().len() == 0,
            final(self).records() == old(self).records().push(TxRecord { tx_id, state: TxState::Committed(csn) }),
            final(self).state_of(tx_id) == TxState::Committed(csn),
            forall|other: TxId| other != tx_id ==> final(self).state_of(other) == old(self).state_of(other),
            final(self).spec_next_tx() == at_least_after(old(self).spec_next_tx(), tx_id.0),
            final(self).spec_next_csn() == at_least_after(old(self).spec_next_csn(), csn.0),
            final(self).spec_published_csn() == if csn.0 > old(self).spec_published_csn() {
                csn.0
            } else {
                old(self).spec_published_csn()
            },
            final(self).spec_active() == old(self).spec_active(),
    {
        self.record(tx_id, TxState::Committed(csn));
        if tx_id.0 >= self.next_tx {
            self.next_tx = tx_id.0.saturating_add(1);
        }
        if csn.0 >= self.next_csn {
            self.next_csn = csn.0.saturating_add(1);
        }
        if csn.0 > self.published_csn {
            self.published_csn = csn.0;
        }
    }

    /// Takes over the numbers of a checkpoint, where they are further on.
    pub fn restore_frontier(&mut self, next_tx: TxId, next_csn: Csn, published_csn: Csn)
        requires
            old(self).wf(),
            old(self).spec_reserved().len() == 0,
        ensures
            final(self).wf(),
            final(self).records() == old(self).records(),
            final(self).spec_reserved().len() == 0,
            final(self).spec_active() == old(self).spec_active(),
            final(self).spec_next_tx() == larger(old(self).spec_next_tx(), next_tx.0),
            final(self).spec_next_csn() == at_least_after(
                larger(old(self).spec_next_csn(), next_csn.0),
                published_csn.0,
            ),
            final(self).spec_published_csn() == larger(old(self).spec_published_csn(), published_csn.0),
    {
        if next_tx.0 > self.next_tx {
            self.next_tx = next_tx.0;
        }
        if next_csn.0 > self.next_csn {
            self.next_csn = next_csn.0;
        }
        if published_csn.0 >= self.next_csn {
            self.next_csn = published_csn.0.saturating_add(1);
        }
        if published_csn.0 > self.published_csn {
            self.published_csn = published_csn.0;
        }
    }

    /// What every transaction that is not over sees at least.
    pub fn oldest_active_snapshot_csn(&self) -> (csn: Csn)
        ensures
            csn.0 == least_of(active_csns(self.spec_active()), self.spec_published_csn()),
    {
        let mut least: u64 = self.published_csn;
        proof {
            assert(active_csns(self.active@).take(0) =~= Seq::empty());
        }
        for i in 0..self.active.len()
            invariant
                least == least_of(active_csns(self.active@).take(i as int), self.published_csn),
        {
            proof {
                assert(active_csns(self.active@).take(i + 1).drop_last() =~= active_csns(self.active@).take(i as int));
            }
            if self.active[i].csn.0 < least {
                least = self.active[i].csn.0;
            }
        }
        proof {
            assert(active_csns(self.active@).take(self.active@.len() as int) =~= active_csns(self.active@));
        }
        Csn(least)
    }

    /// The transactions in numbers. Each one that is not over has one snapshot.
    pub fn stats(&self) -> (stats: TxStatusStats)
        ensures
            stats.next_tx.0 == self.spec_next_tx(),
            stats.next_csn.0 == self.spec_next_csn(),
            stats.published_csn.0 == self.spec_published_csn(),
            stats.committed_states == committed_in(self.records()).len(),
            stats.active_transactions == self.spec_active().len(),
            stats.active_snapshots == self.spec_active().len(),
    {
        TxStatusStats {
            next_tx: TxId(self.next_tx),
            next_csn: Csn(self.next_csn),
            published_csn: Csn(self.published_csn),
            committed_states: self.committed_states().len(),
            active_transactions: self.active.len(),
            active_snapshots: self.active.len(),
        }
    }

    /// The transactions that have committed, with their sequence numbers, in the order in which
    /// their fate was recorded.
    pub fn committed_states(&self) -> (entries: Vec<(TxId, Csn)>)
        ensures
            entries@ == committed_in(self.records()),
    {
        let mut entries: Vec<(TxId, Csn)> = Vec::new();
        for i in 0..self.records.len()
            invariant
                entries@ == committed_in(self.records@.take(i as int)),
        {
            proof {
                assert(self.records@.take(i + 1).drop_last() =~= self.records@.take(i as int));
            }
            if let TxState::Committed(csn) = self.records[i].state {
                entries.push((self.records[i].tx_id, csn));
            }
        }
        proof {
            assert(self.records@.take(self.records@.len() as int) =~= self.records@);
        }
        entries
    }
}

/// A number, or the one after `seen` if that is larger.
pub open spec fn at_least_after(next: u64, seen: u64) -> u64 {
    if seen < next {
        next
    } else if seen == u64::MAX {
        seen
    } else {
        (seen + 1) as u64
    }
}

pub open spec fn larger(a: u64, b: u64) -> u64 {
    if a > b {
        a
    } else {
        b
    }
}

/// The active transactions but one.
pub open spec fn without_tx(active: Seq<ActiveTx>, tx_id: TxId) -> Seq<ActiveTx> {
    active.filter(|a: ActiveTx| a.tx_id != tx_id)
}

/// The commits among records.
pub open spec fn committed_in(records: Seq<TxRecord>) -> Seq<(TxId, Csn)>
    decreases records.len(),
{
    if records.len() == 0 {
        Seq::empty()
    } else {
        match records.last().state {
            TxState::Committed(csn) => committed_in(records.drop_last()).push((records.last().tx_id, csn)),
            _ => committed_in(records.drop_last()),
        }
    }
}

/// A snapshot does not change: a commit that is published after it was taken is not seen by it,
/// and what it saw it still sees.
pub proof fn law_snapshot_is_stable(
    before: ConcurrentTxStatus,
    after: ConcurrentTxStatus,
    tx_id: TxId,
    csn: Csn,
    snapshot: Snapshot,
    owner: Option<TxId>,
    other: TxId,
)
    requires
        before.wf(),
        before.state_of(tx_id) is InProgress,
        before.spec_reserved().contains(csn.0),
        snapshot.csn.0 <= before.spec_published_csn(),
        after.state_of(tx_id) == TxState::Committed(csn),
        forall|t: TxId| t != tx_id ==> #[trigger] after.state_of(t) == before.state_of(t),
    ensures
        after.visible(other, snapshot, owner) == before.visible(other, snapshot, owner),
{
    let i = choose|i: int| 0 <= i < before.spec_reserved().len() && before.spec_reserved()[i] == csn.0;
    assert(before.spec_published_csn() < before.spec_reserved()[i]);
}

/// Once no commit is under way, a snapshot sees everything that has committed with a number that
/// was handed out.
pub proof fn law_settled_commits_are_seen(txs: ConcurrentTxStatus, tx_id: TxId, csn: Csn)
    requires
        txs.spec_published_csn() >= ConcurrentTxStatus::frontier(txs.spec_reserved(), txs.spec_next_csn()),
        txs.spec_reserved().len() == 0,
        txs.spec_next_csn() > 0,
        csn.0 < txs.spec_next_csn(),
        txs.state_of(tx_id) == TxState::Committed(csn),
    ensures
        txs.visible(tx_id, Snapshot { csn: Csn(txs.spec_published_csn()) }, None),
{
}

proof fn lemma_least(numbers: Seq<u64>, least: u64) -> (k: int)
    ensures
        least_of(numbers, least) <= least,
        forall|i: int| 0 <= i < numbers.len() ==> least_of(numbers, least) <= #[trigger] numbers[i],
        least_of(numbers, least) == least || (0 <= k < numbers.len() && numbers[k] == least_of(numbers, least)),
    decreases numbers.len(),
{
    if numbers.len() == 0 {
        0
    } else {
        let init = numbers.drop_last();
        let k = lemma_least(init, least);
        assert forall|i: int| 0 <= i < numbers.len() implies least_of(numbers, least) <= #[trigger] numbers[i] by {
            if i < init.len() {
                assert(init[i] == numbers[i]);
            }
        }
        if least_of(numbers, least) == least_of(init, least) {
            k
        } else {
            numbers.len() - 1
        }
    }
}

/// The oldest snapshot is not newer than that of any transaction that is not over, nor than one that is
/// taken now, and it is one of these.
pub proof fn law_oldest_snapshot_is_in_use(active: Seq<ActiveTx>, published: u64)
    ensures
        ({
            let oldest = least_of(active_csns(active), published);
            &&& oldest <= published
            &&& forall|i: int| 0 <= i < active.len() ==> oldest <= (#[trigger] active[i]).csn.0
            &&& oldest == published || exists|i: int| 0 <= i < active.len() && (#[trigger] active[i]).csn.0 == oldest
        }),
{
    let oldest = least_of(active_csns(active), published);
    let k = lemma_least(active_csns(active), published);
    assert forall|i: int| 0 <= i < active.len() implies oldest <= (#[trigger] active[i]).csn.0 by {
        assert(active_csns(active)[i] == active[i].csn.0);
    }
    if oldest != published {
        assert(active[k].csn.0 == oldest);
    }
}

/// Commits are published without gaps, and as far as that goes: no commit up to the published number is
/// under way, and the next number is under way or has not been handed out.
pub proof fn law_commits_are_published_without_gaps(published: u64, reserved: Seq<u64>, next_csn: u64)
    requires
        outstanding(reserved, published, next_csn),
        published < next_csn,
    ensures
        ({
            let now = larger(published, ConcurrentTxStatus::frontier(reserved, next_csn));
            &&& published <= now < next_csn
            &&& forall|i: int| 0 <= i < reserved.len() ==> now < #[trigger] reserved[i]
            &&& now + 1 == next_csn || exists|i: int| 0 <= i < reserved.len() && #[trigger] reserved[i] == now + 1
        }),
{
    let k = lemma_least(reserved, next_csn);
    let least = least_of(reserved, next_csn);
    let now = larger(published, ConcurrentTxStatus::frontier(reserved, next_csn));
    if least != next_csn {
        assert(published < reserved[k]);
        assert(reserved[k] == now + 1);
    }
}

/// The state of a transaction is what was recorded of it last; of one of which nothing was recorded, it
/// is that it is under way.
pub proof fn law_last_record_counts(records: Seq<TxRecord>, more: Seq<TxRecord>, record: TxRecord)
    requires
        forall|i: int| 0 <= i < more.len() ==> (#[trigger] more[i]).tx_id != record.tx_id,
    ensures
        state_in(records.push(record) + more, record.tx_id) == record.state,
        state_in(more, record.tx_id) == TxState::InProgress,
    decreases more.len(),
{
    let all = records.push(record) + more;
    if more.len() == 0 {
        assert(all =~= records.push(record));
    } else {
        let init = more.drop_last();
        assert forall|i: int| 0 <= i < init.len() implies (#[trigger] init[i]).tx_id != record.tx_id by {
            assert(init[i] == more[i]);
        }
        law_last_record_counts(records, init, record);
        assert(all.drop_last() =~= records.push(record) + init);
        assert(more[more.len() - 1].tx_id != record.tx_id);
    }
}

/// A transaction that is over is not among those that are not; all others stay.
pub proof fn law_ended_transaction_leaves(active: Seq<ActiveTx>, tx_id: TxId, one: ActiveTx)
    ensures
        without_tx(active, tx_id).contains(one) <==> active.contains(one) && one.tx_id != tx_id,
    decreases active.len(),
{
    reveal(Seq::filter);
    if active.len() > 0 {
        let init = active.drop_last();
        law_ended_transaction_leaves(init, tx_id, one);
        let left = without_tx(init, tx_id);
        assert(init.push(active.last()) =~= active);
        if active.contains(one) {
            let i = choose|i: int| 0 <= i < active.len() && active[i] == one;
            if i < init.len() {
                assert(init[i] == one);
            }
        }
        if init.contains(one) {
            let i = choose|i: int| 0 <= i < init.len() && init[i] == one;
            assert(active[i] == one);
        }
        assert(active[active.len() - 1] == active.last());
        if active.last().tx_id != tx_id {
            let now = left.push(active.last());
            assert(without_tx(active, tx_id) == now);
            assert(now[left.len() as int] == active.last());
            if left.contains(one) {
                let i = choose|i: int| 0 <= i < left.len() && left[i] == one;
                assert(now[i] == one);
            }
            if now.contains(one) {
                let i = choose|i: int| 0 <= i < now.len() && now[i] == one;
                if i < left.len() {
                    assert(left[i] == one);
                }
            }
        }
    }
}

/// The commits among records are all that were recorded, in their order, and no others.
pub proof fn law_commits_are_listed(records: Seq<TxRecord>)
    ensures
        committed_in(records) == records.filter(|r: TxRecord| r.state is Committed).map_values(
            |r: TxRecord| (r.tx_id, r.state->Committed_0),
        ),
    decreases records.len(),
{
    let is_commit = |r: TxRecord| r.state is Committed;
    let commit = |r: TxRecord| (r.tx_id, r.state->Committed_0);
    reveal(Seq::filter);
    if records.len() > 0 {
        law_commits_are_listed(records.drop_last());
        let init = records.drop_last().filter(is_commit);
        if is_commit(records.last()) {
            assert(init.push(records.last()).map_values(commit) =~= init.map_values(commit).push(
                commit(records.last()),
            ));
        }
    } else {
        assert(records.filter(is_commit).map_values(commit) =~= Seq::empty());
    }
}

/// A transaction sees its own work, all that had committed when its snapshot was taken, and nothing
/// else.
pub proof fn law_what_a_snapshot_sees(txs: ConcurrentTxStatus, tx_id: TxId, snapshot: Snapshot, owner: Option<TxId>)
    ensures
        owner == Some(tx_id) ==> txs.visible(tx_id, snapshot, owner),
        txs.state_of(tx_id) matches TxState::Committed(csn) && csn.0 <= snapshot.csn.0 ==> txs.visible(
            tx_id,
            snapshot,
            owner,
        ),
        txs.visible(tx_id, snapshot, owner) && owner != Some(tx_id) ==> (txs.state_of(tx_id) matches TxState::Committed(
            csn,
        ) && csn.0 <= snapshot.csn.0),
{
}

} // verus!
