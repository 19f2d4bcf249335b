//! Reservations of unique keys. A writer reserves the key it is about to insert; another writer of
//! the same key waits until the reservation is released.
use crate::format::bytes;
use crate::format::order;
use vstd::prelude::*;

verus! {

/// A reserved key.
#[derive(Debug)]
struct KeyLock {
    key: Vec<u8>,
    owner: u64,
    depth: usize,
}

/// Who holds a key, and how many times over.
#[derive(Clone, Copy, Debug, PartialEq, Eq, Structural)]
pub struct KeyHold {
    pub owner: u64,
    pub depth: usize,
}

/// The reserved keys, spread over shards.
#[derive(Debug)]
pub struct UniqueKeyLockTable {
    shards: Vec<Vec<KeyLock>>,
}

/// The right to release a reservation.
#[derive(Debug)]
pub struct UniqueKeyGuard {
    shard: usize,
    key: Vec<u8>,
    owner: u64,
}

/// The hash that picks the shard of a key.
pub open spec fn key_hash(key: Seq<u8>) -> nat
    decreases key.len(),
{
    if key.len() == 0 {
        0
    } else {
        (key_hash(key.drop_last()) * 131 + key.last() as nat) % 0x1_0000_0000_0000_0000
    }
}

/// The shard of a key.
pub open spec fn shard_of(key: Seq<u8>, shards: nat) -> int {
    (key_hash(key) as int % (usize::MAX + 1)) % (shards as int)
}

spec fn hold_in(locks: Seq<KeyLock>, key: Seq<u8>) -> Option<KeyHold>
    decreases locks.len(),
{
    if locks.len() == 0 {
        None
    } else if locks.last().key@ == key {
        Some(KeyHold { owner: locks.last().owner, depth: locks.last().depth })
    } else {
        hold_in(locks.drop_last(), key)
    }
}

spec fn keys_distinct(locks: Seq<KeyLock>) -> bool {
    forall|i: int, j: int|
        0 <= i < j < locks.len() ==> (#[trigger] locks[i]).key@ != (#[trigger] locks[j]).key@
}

proof fn lemma_hold_at(locks: Seq<KeyLock>, i: int)
    requires
        0 <= i < locks.len(),
        keys_distinct(locks),
    ensures
        hold_in(locks, locks[i].key@) == Some(KeyHold { owner: locks[i].owner, depth: locks[i].depth }),
    decreases locks.len(),
{
    if i < locks.len() - 1 {
        lemma_hold_at(locks.drop_last(), i);
    }
}

proof fn lemma_hold_none(locks: Seq<KeyLock>, key: Seq<u8>)
    requires
        forall|i: int| 0 <= i < locks.len() ==> (#[trigger] locks[i]).key@ != key,
    ensures
        hold_in(locks, key) is None,
    decreases locks.len(),
{
    if locks.len() > 0 {
        lemma_hold_none(locks.drop_last(), key);
    }
}

/// Taking a lock out does not touch the others.
proof fn lemma_hold_removed(locks: Seq<KeyLock>, i: int, key: Seq<u8>)
    requires
        0 <= i < locks.len(),
        locks[i].key@ != key,
    ensures
        hold_in(locks.remove(i), key) == hold_in(locks, key),
    decreases locks.len(),
{
    if i < locks.len() - 1 {
        lemma_hold_removed(locks.drop_last(), i, key);
        assert(locks.remove(i).drop_last() =~= locks.drop_last().remove(i));
        assert(locks.remove(i).last() == locks.last());
    } else {
        assert(locks.remove(i) =~= locks.drop_last());
    }
}

/// Changing a lock does not touch the others.
proof fn lemma_hold_updated(locks: Seq<KeyLock>, i: int, lock: KeyLock, key: Seq<u8>)
    requires
        0 <= i < locks.len(),
        locks[i].key@ == lock.key@,
        locks[i].key@ != key,
    ensures
        hold_in(locks.update(i, lock), key) == hold_in(locks, key),
    decreases locks.len(),
{
    if i < locks.len() - 1 {
        lemma_hold_updated(locks.drop_last(), i, lock, key);
        assert(locks.update(i, lock).drop_last() =~= locks.drop_last().update(i, lock));
    } else {
        assert(locks.update(i, lock).drop_last() =~= locks.drop_last());
    }
}

impl UniqueKeyGuard {
    pub closed spec fn key(self) -> Seq<u8> {
        self.key@
    }

    pub closed spec fn owner(self) -> u64 {
        self.owner
    }

    closed spec fn shard(self) -> int {
        self.shard as int
    }
}

impl UniqueKeyLockTable {
    closed spec fn shards(self) -> Seq<Vec<KeyLock>> {
        self.shards@
    }

    pub closed spec fn shard_count(self) -> nat {
        self.shards@.len()
    }

    pub closed spec fn wf(self) -> bool {
        &&& self.shards@.len() >= 1
        &&& forall|s: int| 0 <= s < self.shards@.len() ==> keys_distinct((#[trigger] self.shards@[s])@)
    }

    /// Who holds a key.
    pub closed spec fn holder(self, key: Seq<u8>) -> Option<KeyHold> {
        hold_in(self.shards@[shard_of(key, self.shards@.len())]@, key)
    }

    /// Whether a guard was given out by a table of this shape.
    pub closed spec fn issued(self, guard: UniqueKeyGuard) -> bool {
        guard.shard == shard_of(guard.key@, self.shards@.len())
    }

    /// A table without reservations and with at least one shard.
    pub fn new(shards: usize) -> (table: UniqueKeyLockTable)
        ensures
            table.wf(),
            table.shard_count() == (if shards == 0 {
                1
            } else {
                shards as nat
            }),
            forall|key: Seq<u8>| table.holder(key) is None,
    {
        let count: usize = if shards == 0 {
            1
        } else {
            shards
        };
        let mut locks: Vec<Vec<KeyLock>> = Vec::new();
        let mut i: usize = 0;
        while i < count
            invariant
                i <= count,
                locks@.len() == i,
                forall|s: int| 0 <= s < i ==> (#[trigger] locks@[s])@.len() == 0,
            decreases count - i,
        {
            locks.push(Vec::new());
            i = i + 1;
        }
        UniqueKeyLockTable { shards: locks }
    }

    fn shard(&self, key: &[u8]) -> (shard: usize)
        requires
            self.wf(),
        ensures
            shard == shard_of(key@, self.shards@.len()),
            shard < self.shards@.len(),
    {
        let mut hash: u64 = 0;
        let mut i: usize = 0;
        while i < key.len()
            invariant
                i <= key@.len(),
                hash == key_hash(key@.subrange(0, i as int)),
            decreases key@.len() - i,
        {
            proof {
                assert(key@.subrange(0, i + 1).drop_last() =~= key@.subrange(0, i as int));
            }
            hash = ((hash as u128 * 131 + key[i] as u128) % 0x1_0000_0000_0000_0000) as u64;
            i = i + 1;
        }
        proof {
            assert(key@.subrange(0, i as int) =~= key@);
        }
        let word: usize = (hash as u128 % (usize::MAX as u128 + 1)) as usize;
        word % self.shards.len()
    }

    fn position(locks: &Vec<KeyLock>, key: &[u8]) -> (pos: Option<usize>)
        ensures
            match pos {
                Some(i) => i < locks@.len() && locks@[i as int].key@ == key@,
                None => forall|i: int| 0 <= i < locks@.len() ==> (#[trigger] locks@[i]).key@ != key@,
            },
    {
        let mut i: usize = 0;
        while i < locks.len()
            invariant
                i <= locks@.len(),
                forall|j: int| 0 <= j < i ==> (#[trigger] locks@[j]).key@ != key@,
            decreases locks@.len() - i,
        {
            if order::bytes_equal(locks[i].key.as_slice(), key) {
                return Some(i);
            }
            i = i + 1;
        }
        None
    }

    /// Reserves a key. `None` means that another owner holds it and the caller has to wait.
    pub fn lock(&mut self, key: &[u8], owner: u64) -> (r: Option<UniqueKeyGuard>)
        requires
            old(self).wf(),
            old(self).holder(key@) matches Some(hold) ==> hold.depth < usize::MAX,
        ensures
            final(self).wf(),
            final(self).shard_count() == old(self).shard_count(),
            forall|g: UniqueKeyGuard| old(self).issued(g) ==> final(self).issued(g),
            r is None <==> (old(self).holder(key@) matches Some(hold) && hold.owner != owner),
            match r {
                None => forall|k: Seq<u8>| final(self).holder(k) == old(self).holder(k),
                Some(guard) => {
                    &&& guard.key() == key@
                    &&& guard.owner() == owner
                    &&& final(self).issued(guard)
                    &&& final(self).holder(key@) == Some(
                        KeyHold {
                            owner,
                            depth: match old(self).holder(key@) {
                                Some(hold) => (hold.depth + 1) as usize,
                                None => 1,
                            },
                        },
                    )
                    &&& forall|k: Seq<u8>| k != key@ ==> final(self).holder(k) == old(self).holder(k)
                },
            },
    {
        let shard: usize = self.shard(key);
        let ghost before = self.shards@[shard as int]@;
        let guard = UniqueKeyGuard { shard, key: bytes::copy_bytes(key), owner };
        match Self::position(&self.shards[shard], key) {
            Some(i) => {
                proof {
                    lemma_hold_at(before, i as int);
                }
                let current: u64 = self.shards[shard][i].owner;
                if current != owner {
                    return None;
                }
                let depth: usize = self.shards[shard][i].depth;
                let lock = KeyLock { key: bytes::copy_bytes(key), owner, depth: depth + 1 };
                self.shards[shard].set(i, lock);
                proof {
                    let after = self.shards@[shard as int]@;
                    assert(after =~= before.update(i as int, lock));
                    lemma_hold_at(after, i as int);
                    assert forall|k: Seq<u8>| k != key@ implies self.holder(k) == old(self).holder(k) by {
                        lemma_hold_updated(before, i as int, lock, k);
                    }
                }
                Some(guard)
            },
            None => {
                proof {
                    lemma_hold_none(before, key@);
                }
                let lock = KeyLock { key: bytes::copy_bytes(key), owner, depth: 1 };
                self.shards[shard].push(lock);
                proof {
                    let after = self.shards@[shard as int]@;
                    assert(after.drop_last() =~= before);
                    assert(keys_distinct(after));
                    assert forall|k: Seq<u8>| k != key@ implies self.holder(k) == old(self).holder(k) by {}
                }
                Some(guard)
            },
        }
    }

    /// Gives a reservation back. One that was taken several times is free after as many releases.
    pub fn unlock(&mut self, guard: UniqueKeyGuard)
        requires
            old(self).wf(),
            old(self).issued(guard),
        ensures
            final(self).wf(),
            final(self).shard_count() == old(self).shard_count(),
            forall|g: UniqueKeyGuard| old(self).issued(g) ==> final(self).issued(g),
            forall|k: Seq<u8>| k != guard.key() ==> final(self).holder(k) == old(self).holder(k),
            final(self).holder(guard.key()) == (match old(self).holder(guard.key()) {
                Some(hold) => if hold.owner != guard.owner() {
                    Some(hold)
                } else if hold.depth <= 1 {
                    None
                } else {
                    Some(KeyHold { owner: hold.owner, depth: (hold.depth - 1) as usize })
                },
                None => None,
            }),
    {
        let shard: usize = guard.shard;
        let ghost before = self.shards@[shard as int]@;
        proof {
            assert(0 <= shard_of(guard.key@, self.shards@.len()) < self.shards@.len());
        }
        match Self::position(&self.shards[shard], guard.key.as_slice()) {
            Some(i) => {
                proof {
                    lemma_hold_at(before, i as int);
                }
                if self.shards[shard][i].owner == guard.owner {
                    let depth: usize = self.shards[shard][i].depth;
                    if depth <= 1 {
                        let _gone = self.shards[shard].remove(i);
                        proof {
                            let after = self.shards@[shard as int]@;
                            assert(after =~= before.remove(i as int));
                            assert forall|j: int| 0 <= j < after.len() implies (#[trigger] after[j]).key@ != guard.key@ by {
                                if j < i {
                                    assert(after[j] == before[j]);
                                } else {
                                    assert(after[j] == before[j + 1]);
                                }
                            }
                            lemma_hold_none(after, guard.key@);
                            assert forall|k: Seq<u8>| k != guard.key@ implies self.holder(k) == old(self).holder(k) by {
                                lemma_hold_removed(before, i as int, k);
                            }
                        }
                    } else {
                        let lock = KeyLock {
                            key: bytes::copy_bytes(guard.key.as_slice()),
                            owner: guard.owner,
                            depth: depth - 1,
                        };
                        self.shards[shard].set(i, lock);
                        proof {
                            let after = self.shards@[shard as int]@;
                            assert(after =~= before.update(i as int, lock));
                            lemma_hold_at(after, i as int);
                            assert forall|k: Seq<u8>| k != guard.key@ implies self.holder(k) == old(self).holder(k) by {
                                lemma_hold_updated(before, i as int, lock, k);
                            }
                        }
                    }
                }
            },
            None => {
                proof {
                    lemma_hold_none(before, guard.key@);
                }
            },
        }
    }
}

} // verus!
