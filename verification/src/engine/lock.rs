//! Locks on rows.
use crate::error::{Error, Result};
use crate::format::{RelId, RowId, TxId};
use vstd::prelude::*;

verus! {

/// A row of a relation.
#[derive(Clone, Copy, Debug, PartialEq, Eq, Structural)]
pub struct RowKey {
    pub rel_id: RelId,
    pub row_id: RowId,
}

/// Who holds a row.
#[derive(Clone, Copy, Debug, PartialEq, Eq, Structural)]
pub struct RowHold {
    pub key: RowKey,
    pub owner: TxId,
}

/// What became of an attempt to lock a row.
#[derive(Clone, Copy, Debug, PartialEq, Eq, Structural)]
pub enum LockStep {
    /// The row is locked.
    Held,
    /// Someone else holds the row: wait, at most so many microseconds, until one is unlocked.
    Wait(u64),
}

/// The rows that are locked, and by whom. Times are in microseconds.
#[derive(Clone, Debug, PartialEq, Eq)]
pub struct RowLockManager {
    holds: Vec<RowHold>,
    shards: usize,
    timeout_us: u64,
}

/// Who holds a row, by a list of holds.
pub open spec fn owner_in(holds: Seq<RowHold>, key: RowKey) -> Option<TxId>
    decreases holds.len(),
{
    if holds.len() == 0 {
        None
    } else if holds.last().key == key {
        Some(holds.last().owner)
    } else {
        owner_in(holds.drop_last(), key)
    }
}

/// Every row is held once at most.
pub open spec fn held_once(holds: Seq<RowHold>) -> bool {
    forall|i: int, j: int| 0 <= i < j < holds.len() ==> (#[trigger] holds[i]).key != (#[trigger] holds[j]).key
}

proof fn lemma_owner_at(holds: Seq<RowHold>, i: int)
    requires
        held_once(holds),
        0 <= i < holds.len(),
    ensures
        owner_in(holds, holds[i].key) == Some(holds[i].owner),
    decreases holds.len(),
{
    if i < holds.len() - 1 {
        assert(holds[i].key != holds[holds.len() - 1].key);
        assert(holds.drop_last()[i] == holds[i]);
        lemma_owner_at(holds.drop_last(), i);
    }
}

proof fn lemma_no_owner(holds: Seq<RowHold>, key: RowKey)
    requires
        forall|i: int| 0 <= i < holds.len() ==> (#[trigger] holds[i]).key != key,
    ensures
        owner_in(holds, key) is None,
    decreases holds.len(),
{
    if holds.len() > 0 {
        assert forall|i: int| 0 <= i < holds.drop_last().len() implies (#[trigger] holds.drop_last()[i]).key != key by {
            assert(holds.drop_last()[i] == holds[i]);
        }
        lemma_no_owner(holds.drop_last(), key);
    }
}

/// Who holds a row does not depend on the order of the holds.
proof fn lemma_owner_agrees(a: Seq<RowHold>, b: Seq<RowHold>, key: RowKey)
    requires
        held_once(a),
        held_once(b),
        forall|h: RowHold| h.key == key ==> (#[trigger] a.contains(h) <==> b.contains(h)),
    ensures
        owner_in(a, key) == owner_in(b, key),
{
    if exists|i: int| 0 <= i < a.len() && (#[trigger] a[i]).key == key {
        let i = choose|i: int| 0 <= i < a.len() && (#[trigger] a[i]).key == key;
        assert(a.contains(a[i]));
        assert(b.contains(a[i]));
        let j = choose|j: int| 0 <= j < b.len() && b[j] == a[i];
        lemma_owner_at(a, i);
        lemma_owner_at(b, j);
    } else {
        lemma_no_owner(a, key);
        assert forall|j: int| 0 <= j < b.len() implies (#[trigger] b[j]).key != key by {
            if b[j].key == key {
                assert(b.contains(b[j]));
                assert(a.contains(b[j]));
                let i = choose|i: int| 0 <= i < a.len() && a[i] == b[j];
                assert(a[i].key == key);
            }
        }
        lemma_no_owner(b, key);
    }
}

impl RowLockManager {
    pub closed spec fn wf(self) -> bool {
        held_once(self.holds@) && self.shards >= 1
    }

    /// Who holds a row.
    pub closed spec fn owner(self, key: RowKey) -> Option<TxId> {
        owner_in(self.holds@, key)
    }

    pub closed spec fn spec_timeout_us(self) -> u64 {
        self.timeout_us
    }

    pub closed spec fn spec_shards(self) -> usize {
        self.shards
    }

    /// No row is locked.
    pub fn new(shard_count: usize, timeout_us: u64) -> (locks: RowLockManager)
        ensures
            locks.wf(),
            locks.spec_shards() == if shard_count == 0 {
                1
            } else {
                shard_count
            },
            locks.spec_timeout_us() == timeout_us,
            forall|key: RowKey| locks.owner(key) is None,
    {
        let shards: usize = if shard_count == 0 {
            1
        } else {
            shard_count
        };
        RowLockManager { holds: Vec::new(), shards, timeout_us }
    }

    /// How many parts those who wait are spread over.
    pub fn shard_count(&self) -> (count: usize)
        ensures
            count == self.spec_shards(),
    {
        self.shards
    }

    /// Sets how long an attempt to lock waits.
    pub fn set_timeout(&mut self, timeout_us: u64)
        ensures
            old(self).wf() ==> final(self).wf(),
            final(self).spec_timeout_us() == timeout_us,
            final(self).spec_shards() == old(self).spec_shards(),
            forall|key: RowKey| final(self).owner(key) == old(self).owner(key),
    {
        self.timeout_us = timeout_us;
    }

    /// When an attempt that starts now gives up.
    pub fn deadline(&self, now_us: u64) -> (deadline: u64)
        requires
            now_us + self.spec_timeout_us() <= u64::MAX,
        ensures
            deadline == now_us + self.spec_timeout_us(),
    {
        now_us + self.timeout_us
    }

    fn find(&self, key: RowKey) -> (r: Option<usize>)
        requires
            self.wf(),
        ensures
            match r {
                Some(i) => i < self.holds@.len() && self.holds@[i as int].key == key && self.owner(key) == Some(
                    self.holds@[i as int].owner,
                ),
                None => self.owner(key) is None && forall|i: int|
                    0 <= i < self.holds@.len() ==> (#[trigger] self.holds@[i]).key != key,
            },
    {
        for i in 0..self.holds.len()
            invariant
                self.wf(),
                forall|j: int| 0 <= j < i ==> (#[trigger] self.holds@[j]).key != key,
        {
            if self.holds[i].key == key {
                proof {
                    lemma_owner_at(self.holds@, i as int);
                }
                return Some(i);
            }
        }
        proof {
            lemma_no_owner(self.holds@, key);
        }
        None
    }

    /// Tries to lock a row for a transaction, at a time, until a deadline.
    pub fn lock(&mut self, rel_id: RelId, row_id: RowId, tx_id: TxId, now_us: u64, deadline_us: u64) -> (r: Result<
        LockStep,
    >)
        requires
            old(self).wf(),
        ensures
            final(self).wf(),
            final(self).spec_timeout_us() == old(self).spec_timeout_us(),
            final(self).spec_shards() == old(self).spec_shards(),
            ({
                let key = RowKey { rel_id, row_id };
                let free = old(self).owner(key) is None || old(self).owner(key) == Some(tx_id);
                &&& r == (if free {
                    Ok(LockStep::Held)
                } else if now_us >= deadline_us {
                    Err(Error::LockTimeout)
                } else {
                    Ok(LockStep::Wait((deadline_us - now_us) as u64))
                })
                &&& free ==> final(self).owner(key) == Some(tx_id)
                &&& forall|other: RowKey|
                    (other != key || !free) ==> #[trigger] final(self).owner(other) == old(self).owner(other)
            }),
    {
        let key = RowKey { rel_id, row_id };
        match self.find(key) {
            None => {
                let ghost before = self.holds@;
                self.holds.push(RowHold { key, owner: tx_id });
                proof {
                    assert(self.holds@.drop_last() =~= before);
                }
                Ok(LockStep::Held)
            },
            Some(i) => if self.holds[i].owner == tx_id {
                Ok(LockStep::Held)
            } else if now_us >= deadline_us {
                Err(Error::LockTimeout)
            } else {
                Ok(LockStep::Wait(deadline_us - now_us))
            },
        }
    }

    /// Unlocks a row, if the transaction holds it; says whether it did.
    pub fn unlock(&mut self, rel_id: RelId, row_id: RowId, tx_id: TxId) -> (released: bool)
        requires
            old(self).wf(),
        ensures
            final(self).wf(),
            final(self).spec_timeout_us() == old(self).spec_timeout_us(),
            final(self).spec_shards() == old(self).spec_shards(),
            ({
                let key = RowKey { rel_id, row_id };
                &&& released == (old(self).owner(key) == Some(tx_id))
                &&& released ==> final(self).owner(key) is None
                &&& forall|other: RowKey|
                    (other != key || !released) ==> #[trigger] final(self).owner(other) == old(self).owner(other)
            }),
    {
        let key = RowKey { rel_id, row_id };
        match self.find(key) {
            None => false,
            Some(i) => if self.holds[i].owner == tx_id {
                let ghost before = self.holds@;
                self.holds.swap_remove(i);
                proof {
                    lemma_swap_removed(before, i as int, self.holds@);
                    lemma_no_owner(self.holds@, key);
                    assert forall|other: RowKey| other != key implies #[trigger] self.owner(other) == old(self).owner(
                        other,
                    ) by {
                        lemma_owner_agrees(self.holds@, before, other);
                    }
                }
                true
            } else {
                false
            },
        }
    }
}

/// What is left of some holds after one is taken out and the last one put in its place.
proof fn lemma_swap_removed(before: Seq<RowHold>, i: int, after: Seq<RowHold>)
    requires
        held_once(before),
        0 <= i < before.len(),
        after == before.update(i, before.last()).drop_last(),
    ensures
        held_once(after),
        forall|j: int| 0 <= j < after.len() ==> (#[trigger] after[j]).key != before[i].key,
        forall|h: RowHold| h.key != before[i].key ==> (#[trigger] after.contains(h) <==> before.contains(h)),
{
    let n = before.len() - 1;
    assert forall|h: RowHold| h.key != before[i].key implies (#[trigger] after.contains(h) <==> before.contains(h)) by {
        if after.contains(h) {
            let j = choose|j: int| 0 <= j < after.len() && after[j] == h;
            assert(before[if j == i { n } else { j }] == h);
        }
        if before.contains(h) {
            let j = choose|j: int| 0 <= j < before.len() && before[j] == h;
            assert(j != i);
            assert(after[if j == n { i } else { j }] == h);
        }
    }
}

/// How the wait of an attempt to lock ends: one that has run out of time gives up, another one
/// tries again.
pub fn wait_over(timed_out: bool) -> (r: Result<()>)
    ensures
        r == (if timed_out {
            Err(Error::LockTimeout)
        } else {
            Ok(())
        }),
{
    if timed_out {
        Err(Error::LockTimeout)
    } else {
        Ok(())
    }
}

} // verus!
