//! What readers find after a delete, before and after it commits.
use crate::error::Error;
use crate::format::order;
use crate::format::TxId;
use crate::index::cell::{EntryView, NON_TRANSACTIONAL_DELETE};
use crate::index::entries;
use crate::index::inserts;
use crate::index::key;
use crate::index::laws;
use crate::index::model;
use crate::index::model::{IndexView, Reader};
use crate::index::outcomes;
use crate::index::shape;
use crate::index::shape::{KeySpace, Shape};
use crate::index::IndexRowRef;
use crate::txn::{ConcurrentTxStatus, Snapshot, TxState};
use vstd::prelude::*;

verus! {

/// Whether at most one entry stands for a key and row.
pub open spec fn stands_once(es: Seq<EntryView>, logical: Seq<u8>, row: IndexRowRef) -> bool {
    forall|i: int, j: int|
        0 <= i < es.len() && 0 <= j < es.len() && model::is_entry_of(#[trigger] es[i], logical, row)
            && model::is_entry_of(#[trigger] es[j], logical, row) ==> i == j
}

proof fn lemma_row_not_found(es: Seq<EntryView>, logical: Seq<u8>, row: IndexRowRef, reader: Reader)
    requires
        forall|i: int|
            0 <= i < es.len() && model::is_entry_of(#[trigger] es[i], logical, row) ==> !model::admits(reader, es[i]),
    ensures
        !shape::rows_of(es, logical, reader).contains(row),
    decreases es.len(),
{
    if es.len() > 0 {
        let init = es.drop_last();
        assert forall|i: int| 0 <= i < init.len() && model::is_entry_of(#[trigger] init[i], logical, row) implies !model::admits(
            reader,
            init[i],
        ) by {
            assert(init[i] == es[i]);
        }
        lemma_row_not_found(init, logical, row, reader);
        let before = shape::rows_of(init, logical, reader);
        let after = shape::rows_of(es, logical, reader);
        assert(es[es.len() - 1] == es.last());
        if after.contains(row) {
            let k = choose|k: int| 0 <= k < after.len() && after[k] == row;
            if k < before.len() {
                assert(before[k] == row);
            }
        }
    }
}

/// A transaction that deletes a row does not find it any more, whoever else had begun to delete it and
/// was rolled back or has not committed.
pub proof fn law_own_delete_is_seen(
    t: IndexView,
    s: Shape,
    keys: KeySpace,
    tx_id: TxId,
    logical: Seq<u8>,
    row: IndexRowRef,
    txs: ConcurrentTxStatus,
    snapshot: Snapshot,
)
    requires
        shape::linked(t, s, keys),
        shape::pages_fit(t),
        shape::log_takes(t, s, tx_id),
        shape::apart(t, s, key::physical_key(logical, row)),
        keys.contains(logical),
        tx_id != TxId(0),
        stands_once(shape::contents(t, s.leaves), logical, row),
    ensures
        ({
            let own = Reader::At(&txs, snapshot, Some(tx_id));
            let (t2, r) = t.delete_marked(tx_id, logical, row, own);
            &&& r == Ok::<(), Error>(())
            &&& t2.lookup(logical, own) matches Ok(rows) && !rows.contains(row)
        }),
{
    let own = Reader::At(&txs, snapshot, Some(tx_id));
    let t2 = t.delete_marked(tx_id, logical, row, own).0;
    let before = shape::contents(t, s.leaves);
    let after = shape::contents(t2, s.leaves);
    outcomes::law_delete_mark_keeps_order(t, s, keys, tx_id, logical, row, own);
    laws::law_lookup_is_exact(t2, s, keys, logical, own);
    assert forall|i: int| 0 <= i < after.len() && model::is_entry_of(#[trigger] after[i], logical, row) implies !model::admits(
        own,
        after[i],
    ) by {
        if exists|n: int| #[trigger] outcomes::marks_one(before, after, n, tx_id, logical, row, own) {
            let n = choose|n: int| #[trigger] outcomes::marks_one(before, after, n, tx_id, logical, row, own);
            if i != n {
                assert(after[i] == before[i]);
                assert(model::is_entry_of(before[n], logical, row));
            }
        } else if outcomes::all_marked(before, logical, row, own) {
            assert(model::mark_stands(before[i]->delete_tx, own));
        } else {
            let n = choose|n: int|
                0 <= n < before.len() && model::is_entry_of(#[trigger] before[n], logical, row) && model::mark_stands(
                    before[n]->delete_tx,
                    own,
                );
            assert(model::is_entry_of(before[i], logical, row));
            assert(i == n);
        }
    }
    lemma_row_not_found(after, logical, row, own);
}

proof fn lemma_rows_same(a: Seq<EntryView>, b: Seq<EntryView>, k: Seq<u8>, end: Seq<u8>, reader: Reader)
    requires
        a.len() == b.len(),
        forall|i: int|
            0 <= i < a.len() ==> (#[trigger] a[i]) is Leaf && b[i] is Leaf && a[i]->row == b[i]->row && a[i]->logical_key
                == b[i]->logical_key && model::admits(reader, a[i]) == model::admits(reader, b[i]),
    ensures
        shape::rows_of(a, k, reader) == shape::rows_of(b, k, reader),
        model::rows_between(a, k, end, reader) == model::rows_between(b, k, end, reader),
    decreases a.len(),
{
    if a.len() > 0 {
        let a1 = a.drop_last();
        let b1 = b.drop_last();
        assert forall|i: int| 0 <= i < a1.len() implies (#[trigger] a1[i]) is Leaf && b1[i] is Leaf && a1[i]->row
            == b1[i]->row && a1[i]->logical_key == b1[i]->logical_key && model::admits(reader, a1[i]) == model::admits(
            reader,
            b1[i],
        ) by {
            assert(a1[i] == a[i] && b1[i] == b[i]);
        }
        lemma_rows_same(a1, b1, k, end, reader);
        assert(a[a.len() - 1] is Leaf);
    }
}

proof fn lemma_all_leaf(t: IndexView, s: Shape, keys: KeySpace, n: int)
    requires
        shape::linked(t, s, keys),
        0 <= n < shape::contents(t, s.leaves).len(),
    ensures
        shape::contents(t, s.leaves)[n] is Leaf,
{
    let (i, j) = laws::lemma_where_is(t, s.leaves, n);
    assert(shape::leaf_ok(shape::head(t, s.leaves[i]), shape::list(t, s.leaves[i]), s, i, keys));
    assert(shape::leaf_entry_ok(shape::list(t, s.leaves[i])[j], keys));
}

/// A delete is not seen by others until it has committed, nor by snapshots that were taken before that:
/// they find the same rows as before it. Left out is a row that carries a mark already.
pub proof fn law_delete_is_not_seen_before_commit(
    t: IndexView,
    s: Shape,
    keys: KeySpace,
    tx_id: TxId,
    logical: Seq<u8>,
    row: IndexRowRef,
    marker: Reader,
    txs: ConcurrentTxStatus,
    snapshot: Snapshot,
    owner: Option<TxId>,
    k: Seq<u8>,
    end: Seq<u8>,
)
    requires
        shape::linked(t, s, keys),
        shape::pages_fit(t),
        shape::log_takes(t, s, tx_id),
        shape::apart(t, s, key::physical_key(logical, row)),
        keys.contains(k),
        tx_id != TxId(0),
        tx_id != TxId(NON_TRANSACTIONAL_DELETE),
        owner != Some(tx_id),
        txs.state_of(tx_id) matches TxState::Committed(csn) ==> csn.0 > snapshot.csn.0,
        forall|n: int|
            0 <= n < shape::contents(t, s.leaves).len() && model::is_entry_of(
                #[trigger] shape::contents(t, s.leaves)[n],
                logical,
                row,
            ) ==> shape::contents(t, s.leaves)[n]->delete_tx == TxId(0),
    ensures
        ({
            let other = Reader::At(&txs, snapshot, owner);
            let t2 = t.delete_marked(tx_id, logical, row, marker).0;
            &&& t2.lookup(k, other) == t.lookup(k, other)
            &&& t2.range(k, end, other).1 == t.range(k, end, other).1
            &&& t.lookup(k, other) is Ok
        }),
{
    let other = Reader::At(&txs, snapshot, owner);
    let t2 = t.delete_marked(tx_id, logical, row, marker).0;
    let before = shape::contents(t, s.leaves);
    let after = shape::contents(t2, s.leaves);
    outcomes::law_delete_mark_keeps_order(t, s, keys, tx_id, logical, row, marker);
    laws::law_lookup_is_exact(t, s, keys, k, other);
    laws::law_lookup_is_exact(t2, s, keys, k, other);
    laws::law_range_is_exact(t, s, keys, k, end, other);
    laws::law_range_is_exact(t2, s, keys, k, end, other);
    if exists|n: int| #[trigger] outcomes::marks_one(before, after, n, tx_id, logical, row, marker) {
        let n = choose|n: int| #[trigger] outcomes::marks_one(before, after, n, tx_id, logical, row, marker);
        assert forall|i: int| 0 <= i < before.len() implies (#[trigger] before[i]) is Leaf && after[i] is Leaf
            && before[i]->row == after[i]->row && before[i]->logical_key == after[i]->logical_key && model::admits(
            other,
            before[i],
        ) == model::admits(other, after[i]) by {
            lemma_all_leaf(t, s, keys, i);
            if i == n {
                assert(model::is_entry_of(before[n], logical, row));
                assert(before[n]->delete_tx == TxId(0));
            } else {
                assert(after[i] == before[i]);
            }
        }
        lemma_rows_same(before, after, k, end, other);
    }
}

/// In a leaf whose entries are in order, an entry is taken for one that is there already exactly if one
/// with its physical key is.
pub proof fn law_equal_entries_are_found(es: Seq<EntryView>, e: EntryView, keys: KeySpace)
    requires
        shape::leaf_entries_ok(es, keys),
        e is Leaf,
    ensures
        entries::holds_equal(es, e) <==> exists|j: int|
            0 <= j < es.len() && (#[trigger] es[j]).sort_key() == e.sort_key(),
{
    let p = lemma_lower_bound(es, e, keys);
    if exists|j: int| 0 <= j < es.len() && (#[trigger] es[j]).sort_key() == e.sort_key() {
        let j = choose|j: int| 0 <= j < es.len() && (#[trigger] es[j]).sort_key() == e.sort_key();
        order::lemma_lt_irreflexive(e.sort_key());
        assert(shape::leaf_entry_ok(es[j], keys));
        assert(!es[j].before(e));
        assert(p <= j);
        assert(shape::leaf_entry_ok(es[p], keys));
        if p < j {
            assert(order::bytes_le(es[p].sort_key(), es[j].sort_key()));
        }
        order::lemma_not_le(e.sort_key(), es[p].sort_key());
        assert(!e.before(es[p]));
    } else if p < es.len() {
        assert(shape::leaf_entry_ok(es[p], keys));
        assert(es[p].sort_key() != e.sort_key());
        order::lemma_lt_total(es[p].sort_key(), e.sort_key());
        assert(!es[p].before(e));
        assert(e.before(es[p]));
    }
}

proof fn lemma_lower_bound(es: Seq<EntryView>, e: EntryView, keys: KeySpace) -> (p: int)
    requires
        e is Leaf,
    ensures
        p == entries::lower_bound(es, e),
        0 <= p <= es.len(),
        forall|j: int| 0 <= j < p ==> (#[trigger] es[j]).before(e),
        p < es.len() ==> !es[p].before(e),
    decreases es.len(),
{
    if es.len() > 0 && es[0].before(e) {
        let q = lemma_lower_bound(es.drop_first(), e, keys);
        assert forall|j: int| 0 <= j < q + 1 implies (#[trigger] es[j]).before(e) by {
            if j > 0 {
                assert(es.drop_first()[j - 1] == es[j]);
            }
        }
        q + 1
    } else {
        0
    }
}

/// What is taken off a leaf that is compacted: every entry that carries a delete mark, whoever set it,
/// and no other entry of the leaf.
pub proof fn law_compaction_takes_marked_entries(e: EntryView)
    requires
        e is Leaf,
    ensures
        model::dead()(e) <==> e->delete_tx != TxId(0),
{
}

/// A row whose entry is marked deleted is gone from every range that its key lies in, and no other row is:
/// a scan of any other range finds what it found before. Left out are a row that carries a mark already and
/// one of which two entries stand on two leaves.
pub proof fn law_deleted_row_is_gone_from_ranges(
    t: IndexView,
    s: Shape,
    keys: KeySpace,
    tx_id: TxId,
    logical: Seq<u8>,
    row: IndexRowRef,
    start: Seq<u8>,
    end: Seq<u8>,
)
    requires
        shape::linked(t, s, keys),
        shape::pages_fit(t),
        shape::log_takes(t, s, tx_id),
        shape::apart(t, s, key::physical_key(logical, row)),
        tx_id != TxId(0),
        outcomes::holds(shape::contents(t, s.leaves), logical, row),
        forall|n: int|
            0 <= n < shape::contents(t, s.leaves).len() && model::is_entry_of(
                #[trigger] shape::contents(t, s.leaves)[n],
                logical,
                row,
            ) ==> shape::contents(t, s.leaves)[n].live(),
    ensures
        ({
            let t2 = t.delete_marked(tx_id, logical, row, Reader::Live).0;
            let before = t.range(start, end, Reader::Live).1;
            let after = t2.range(start, end, Reader::Live).1;
            &&& before is Ok
            &&& after is Ok
            &&& before->Ok_0.to_multiset() == if order::bytes_le(start, logical) && order::bytes_lt(logical, end) {
                after->Ok_0.to_multiset().insert(row)
            } else {
                after->Ok_0.to_multiset()
            }
        }),
{
    let t2 = t.delete_marked(tx_id, logical, row, Reader::Live).0;
    let before = shape::contents(t, s.leaves);
    let after = shape::contents(t2, s.leaves);
    outcomes::law_delete_mark_keeps_order(t, s, keys, tx_id, logical, row, Reader::Live);
    laws::law_range_is_exact(t, s, keys, start, end, Reader::Live);
    laws::law_range_is_exact(t2, s, keys, start, end, Reader::Live);
    let m = choose|m: int| 0 <= m < before.len() && model::is_entry_of(#[trigger] before[m], logical, row);
    assert(before[m].live());
    assert(!outcomes::all_marked(before, logical, row, Reader::Live));
    assert(exists|n: int| #[trigger] outcomes::marks_one(before, after, n, tx_id, logical, row, Reader::Live));
    let n = choose|n: int| #[trigger] outcomes::marks_one(before, after, n, tx_id, logical, row, Reader::Live);
    assert(before[n].live());
    inserts::lemma_between_without(before, n, start, end, Reader::Live);
    inserts::lemma_between_without(after, n, start, end, Reader::Live);
    assert(after.remove(n) =~= before.remove(n));
    assert(after[n] == model::marked(before[n], tx_id));
    assert(!model::admits(Reader::Live, after[n]));
}

} // verus!
