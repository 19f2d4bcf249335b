//! What readers find after an insert, before and after it commits.
use crate::format::order;
use crate::format::page::MAX_PAGE_SIZE;
use crate::format::TxId;
use crate::index::cell::EntryView;
use crate::index::growth;
use crate::index::key;
use crate::index::laws;
use crate::index::model;
use crate::index::model::{IndexView, Reader};
use crate::index::outcomes;
use crate::index::shape;
use crate::index::shape::{KeySpace, Shape};
use crate::index::IndexRowRef;
use crate::txn::{ConcurrentTxStatus, Snapshot, TxState};
use vstd::prelude::*;
use vstd::seq_lib::*;

verus! {

/// A new entry says what it was made of and who made it, and carries no mark.
pub proof fn law_new_entry_says_who_made_it(logical: Seq<u8>, row: IndexRowRef, tx_id: TxId)
    ensures
        ({
            let e = IndexView::new_entry(logical, row, tx_id);
            &&& e is Leaf
            &&& e->logical_key == logical
            &&& e->row == row
            &&& e->physical == key::physical_key(logical, row)
            &&& e->create_tx == tx_id
            &&& e->delete_tx == TxId(0)
        }),
{
}

/// A transaction finds what it has inserted. Others do not find it before the transaction has committed,
/// nor do snapshots that were taken before that: they find the rows that they found before. Snapshots that
/// are taken later find it.
pub proof fn law_insert_is_seen_once_it_has_committed(
    t: IndexView,
    s: Shape,
    keys: KeySpace,
    tx_id: TxId,
    logical: Seq<u8>,
    row: IndexRowRef,
    txs: ConcurrentTxStatus,
    snapshot: Snapshot,
    owner: Option<TxId>,
)
    requires
        shape::linked(t, s, keys),
        t.pool.page_size <= MAX_PAGE_SIZE,
        keys.contains(logical),
        keys.rows.contains(row),
        tx_id != TxId(0),
        t.inserted(tx_id, logical, row).1 is Ok,
    ensures
        ({
            let t2 = t.inserted(tx_id, logical, row).0;
            let reader = Reader::At(&txs, snapshot, owner);
            let seen = owner == Some(tx_id) || (txs.state_of(tx_id) matches TxState::Committed(csn) && csn.0
                <= snapshot.csn.0);
            &&& t.lookup(logical, reader) is Ok
            &&& t2.lookup(logical, reader) is Ok
            &&& seen ==> t2.lookup(logical, reader)->Ok_0.to_multiset() == t.lookup(
                logical,
                reader,
            )->Ok_0.to_multiset().insert(row)
            &&& !seen ==> t2.lookup(logical, reader)->Ok_0.to_multiset() == t.lookup(
                logical,
                reader,
            )->Ok_0.to_multiset()
        }),
{
    let reader = Reader::At(&txs, snapshot, owner);
    outcomes::law_insert_is_found(t, s, keys, tx_id, logical, row, logical, reader);
}

proof fn lemma_between_last(es: Seq<EntryView>, e: EntryView, start: Seq<u8>, end: Seq<u8>, reader: Reader)
    ensures
        model::rows_between(es.push(e), start, end, reader) == if laws::in_range(e, start, end) && model::admits(
            reader,
            e,
        ) {
            model::rows_between(es, start, end, reader).push(e->row)
        } else {
            model::rows_between(es, start, end, reader)
        },
{
    assert(es.push(e).drop_last() =~= es);
}

pub proof fn lemma_between_without(es: Seq<EntryView>, j: int, start: Seq<u8>, end: Seq<u8>, reader: Reader)
    requires
        0 <= j < es.len(),
    ensures
        model::rows_between(es, start, end, reader).to_multiset() == if laws::in_range(es[j], start, end)
            && model::admits(reader, es[j]) {
            model::rows_between(es.remove(j), start, end, reader).to_multiset().insert(es[j]->row)
        } else {
            model::rows_between(es.remove(j), start, end, reader).to_multiset()
        },
    decreases es.len(),
{
    broadcast use group_to_multiset_ensures;

    let last = es.last();
    let init = es.drop_last();
    assert(init.push(last) =~= es);
    lemma_between_last(init, last, start, end, reader);
    if j == es.len() - 1 {
        assert(es.remove(j) =~= init);
    } else {
        lemma_between_without(init, j, start, end, reader);
        assert(es.remove(j) =~= init.remove(j).push(last));
        lemma_between_last(init.remove(j), last, start, end, reader);
        let a = model::rows_between(init, start, end, reader);
        let b = model::rows_between(init.remove(j), start, end, reader);
        if laws::in_range(last, start, end) && model::admits(reader, last) {
            assert(a.push(last->row).to_multiset() =~= a.to_multiset().insert(last->row));
            assert(b.push(last->row).to_multiset() =~= b.to_multiset().insert(last->row));
            assert(b.to_multiset().insert(es[j]->row).insert(last->row) =~= b.to_multiset().insert(last->row).insert(
                es[j]->row,
            ));
        }
    }
}

proof fn lemma_between_permute(a: Seq<EntryView>, b: Seq<EntryView>, start: Seq<u8>, end: Seq<u8>, reader: Reader)
    requires
        a.to_multiset() == b.to_multiset(),
    ensures
        model::rows_between(a, start, end, reader).to_multiset() == model::rows_between(b, start, end, reader).to_multiset(),
    decreases a.len(),
{
    broadcast use group_to_multiset_ensures;

    assert(a.len() == a.to_multiset().len());
    assert(b.len() == b.to_multiset().len());
    if a.len() > 0 {
        let e = a.last();
        let n = a.len() - 1;
        assert(a.contains(a[n]));
        assert(a.to_multiset().count(e) > 0);
        assert(b.contains(e));
        let j = choose|j: int| 0 <= j < b.len() && b[j] == e;
        assert(a.remove(n) =~= a.drop_last());
        assert(a.remove(n).to_multiset() =~= b.remove(j).to_multiset());
        lemma_between_permute(a.remove(n), b.remove(j), start, end, reader);
        lemma_between_without(a, n, start, end, reader);
        lemma_between_without(b, j, start, end, reader);
    } else {
        assert(a =~= b);
    }
}

/// After an insert that succeeded, a range scan finds the rows that it found before and, if the key lies
/// in the range and the reader admits the new entry, the row that was inserted, as it was inserted.
pub proof fn law_insert_is_found_in_its_range(
    t: IndexView,
    s: Shape,
    keys: KeySpace,
    tx_id: TxId,
    logical: Seq<u8>,
    row: IndexRowRef,
    start: Seq<u8>,
    end: Seq<u8>,
    reader: Reader,
)
    requires
        shape::linked(t, s, keys),
        t.pool.page_size <= MAX_PAGE_SIZE,
        keys.contains(logical),
        keys.rows.contains(row),
        t.inserted(tx_id, logical, row).1 is Ok,
    ensures
        ({
            let t2 = t.inserted(tx_id, logical, row).0;
            let e = IndexView::new_entry(logical, row, tx_id);
            let before = t.range(start, end, reader).1;
            let after = t2.range(start, end, reader).1;
            &&& before is Ok
            &&& after is Ok
            &&& after->Ok_0.to_multiset() == if order::bytes_le(start, logical) && order::bytes_lt(logical, end)
                && model::admits(reader, e) {
                before->Ok_0.to_multiset().insert(row)
            } else {
                before->Ok_0.to_multiset()
            }
        }),
{
    broadcast use group_to_multiset_ensures;

    let e = IndexView::new_entry(logical, row, tx_id);
    let t2 = t.inserted(tx_id, logical, row).0;
    let s2 = growth::law_insert_keeps_order(t, s, keys, tx_id, logical, row);
    laws::law_range_is_exact(t, s, keys, start, end, reader);
    laws::law_range_is_exact(t2, s2, keys, start, end, reader);
    let before = shape::contents(t, s.leaves);
    let after = shape::contents(t2, s2.leaves);
    assert(before.push(e).to_multiset() =~= after.to_multiset());
    lemma_between_permute(after, before.push(e), start, end, reader);
    lemma_between_last(before, e, start, end, reader);
}

} // verus!
