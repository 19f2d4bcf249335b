//! Laws of ordered indexes: what the operations find, keep and change.
use crate::error::Error;
use crate::format::order;
use crate::format::{PageId, TxId};
use crate::index::cell::EntryView;
use crate::index::key;
use crate::index::model;
use crate::index::model::{FoundView, IndexView, Reader};
use crate::index::shape;
use crate::index::shape::{KeySpace, Shape};
use crate::index::IndexRowRef;
use vstd::prelude::*;

verus! {

/// Physical keys of different logical keys are ordered as the logical keys.
pub proof fn lemma_key_order(keys: KeySpace, a: Seq<u8>, ra: IndexRowRef, b: Seq<u8>, rb: IndexRowRef)
    requires
        keys.ordered(),
        keys.contains(a),
        keys.contains(b),
        keys.rows.contains(ra),
        keys.rows.contains(rb),
        a != b,
    ensures
        order::bytes_lt(a, b) <==> order::bytes_lt(key::physical_key(a, ra), key::physical_key(b, rb)),
        order::bytes_lt(a, b) <==> order::bytes_lt(key::physical_key(a, ra), b),
        order::bytes_lt(a, b) <==> order::bytes_lt(a, key::physical_key(b, rb)),
        order::bytes_lt(a, b) || order::bytes_lt(b, a),
        !(order::bytes_lt(a, b) && order::bytes_lt(b, a)),
{
    order::lemma_lt_total(a, b);
    if order::bytes_lt(a, b) {
        lemma_key_order_directed(keys, a, ra, b, rb);
    } else {
        lemma_key_order_directed(keys, b, rb, a, ra);
    }
}

proof fn lemma_key_order_directed(keys: KeySpace, a: Seq<u8>, ra: IndexRowRef, b: Seq<u8>, rb: IndexRowRef)
    requires
        keys.ordered(),
        keys.contains(a),
        keys.contains(b),
        keys.rows.contains(ra),
        order::bytes_lt(a, b),
    ensures
        ({
            let pa = key::physical_key(a, ra);
            let pb = key::physical_key(b, rb);
            &&& order::bytes_lt(pa, pb) && !order::bytes_lt(pb, pa)
            &&& order::bytes_lt(pa, b) && !order::bytes_lt(b, pa)
            &&& order::bytes_lt(a, pb) && !order::bytes_lt(pb, a)
            &&& !order::bytes_lt(b, a)
        }),
{
    let pa = key::physical_key(a, ra);
    let pb = key::physical_key(b, rb);
    key::lemma_row_suffix_len(rb);
    order::lemma_prefix_first(b, key::row_suffix(rb));
    assert(keys.keys.contains(a) && keys.keys.contains(b) && keys.rows.contains(ra));
    order::lemma_le_transitive(pa, b, pb);
    order::lemma_le_transitive(a, b, pb);
    order::lemma_lt_asymmetric(pa, pb);
    order::lemma_lt_asymmetric(pa, b);
    order::lemma_lt_asymmetric(a, pb);
    order::lemma_lt_asymmetric(a, b);
}

pub proof fn lemma_contents_add(t: IndexView, a: Seq<PageId>, b: Seq<PageId>)
    ensures
        shape::contents(t, a + b) == shape::contents(t, a) + shape::contents(t, b),
    decreases b.len(),
{
    if b.len() == 0 {
        assert(a + b =~= a);
        assert(shape::contents(t, a) + Seq::<EntryView>::empty() =~= shape::contents(t, a));
    } else {
        assert((a + b).drop_last() =~= a + b.drop_last());
        lemma_contents_add(t, a, b.drop_last());
        assert(shape::contents(t, a + b) =~= shape::contents(t, a) + shape::contents(t, b));
    }
}

/// The contents from leaf `i` on are those of leaf `i` and those from `i + 1` on.
pub proof fn lemma_contents_from(t: IndexView, leaves: Seq<PageId>, i: int)
    requires
        0 <= i < leaves.len(),
    ensures
        shape::contents(t, leaves.subrange(i, leaves.len() as int)) == shape::list(t, leaves[i]) + shape::contents(
            t,
            leaves.subrange(i + 1, leaves.len() as int),
        ),
{
    let n = leaves.len() as int;
    let one = seq![leaves[i]];
    assert(leaves.subrange(i, n) =~= one + leaves.subrange(i + 1, n));
    lemma_contents_add(t, one, leaves.subrange(i + 1, n));
    assert(one.drop_last() =~= Seq::empty());
    reveal_with_fuel(shape::contents, 2);
    assert(shape::contents(t, one) =~= shape::list(t, leaves[i]));
}

pub proof fn lemma_rows_add(a: Seq<EntryView>, b: Seq<EntryView>, k: Seq<u8>, reader: Reader)
    ensures
        shape::rows_of(a + b, k, reader) == shape::rows_of(a, k, reader) + shape::rows_of(b, k, reader),
    decreases b.len(),
{
    if b.len() == 0 {
        assert(a + b =~= a);
        assert(shape::rows_of(a, k, reader) + Seq::<IndexRowRef>::empty() =~= shape::rows_of(a, k, reader));
    } else {
        assert((a + b).drop_last() =~= a + b.drop_last());
        lemma_rows_add(a, b.drop_last(), k, reader);
        assert(shape::rows_of(a + b, k, reader) =~= shape::rows_of(a, k, reader) + shape::rows_of(b, k, reader));
    }
}

proof fn lemma_rows_none(es: Seq<EntryView>, k: Seq<u8>, reader: Reader)
    requires
        forall|j: int| 0 <= j < es.len() ==> !model::has_key(#[trigger] es[j], k),
    ensures
        shape::rows_of(es, k, reader) == Seq::<IndexRowRef>::empty(),
    decreases es.len(),
{
    if es.len() > 0 {
        assert(!model::has_key(es[es.len() - 1], k));
        lemma_rows_none(es.drop_last(), k, reader);
    }
}

proof fn lemma_rows_none_in(t: IndexView, leaves: Seq<PageId>, k: Seq<u8>, reader: Reader)
    requires
        forall|i: int, j: int|
            0 <= i < leaves.len() && 0 <= j < shape::list(t, leaves[i]).len() ==> !model::has_key(
                #[trigger] shape::list(t, leaves[i])[j],
                k,
            ),
    ensures
        shape::rows_of(shape::contents(t, leaves), k, reader) == Seq::<IndexRowRef>::empty(),
    decreases leaves.len(),
{
    if leaves.len() > 0 {
        let init = leaves.drop_last();
        assert forall|i: int, j: int|
            0 <= i < init.len() && 0 <= j < shape::list(t, init[i]).len() implies !model::has_key(
            #[trigger] shape::list(t, init[i])[j],
            k,
        ) by {
            assert(init[i] == leaves[i]);
            assert(!model::has_key(shape::list(t, leaves[i])[j], k));
        }
        lemma_rows_none_in(t, init, k, reader);
        let last = shape::list(t, leaves.last());
        assert forall|j: int| 0 <= j < last.len() implies !model::has_key(#[trigger] last[j], k) by {
            assert(!model::has_key(shape::list(t, leaves[leaves.len() - 1])[j], k));
        }
        lemma_rows_none(last, k, reader);
        lemma_rows_add(shape::contents(t, init), last, k, reader);
    }
}

/// In an ordered list, scanning for a key and stopping behind the run finds all of it.
proof fn lemma_matching_rows(es: Seq<EntryView>, keys: KeySpace, k: Seq<u8>, reader: Reader, matched: bool, r: IndexRowRef)
    requires
        keys.ordered(),
        shape::leaf_entries_ok(es, keys),
        keys.contains(k),
        matched ==> keys.rows.contains(r) && shape::at_or_behind(es, key::physical_key(k, r)),
    ensures
        model::matching_rows(es, k, reader, matched) == shape::rows_of(es, k, reader),
    decreases es.len(),
{
    if es.len() > 0 {
        let e = es[0];
        let rest = es.drop_first();
        assert(shape::leaf_entry_ok(es[0], keys));
        assert forall|j: int| 0 <= j < rest.len() implies shape::leaf_entry_ok(#[trigger] rest[j], keys) by {
            assert(rest[j] == es[j + 1]);
        }
        assert forall|j: int, l: int| 0 <= j < l < rest.len() implies order::bytes_le(
            (#[trigger] rest[j]).sort_key(),
            (#[trigger] rest[l]).sort_key(),
        ) by {
            assert(rest[j] == es[j + 1] && rest[l] == es[l + 1]);
        }
        assert(matched ==> shape::at_or_behind(rest, key::physical_key(k, r))) by {
            if matched {
                assert forall|j: int| 0 <= j < rest.len() implies order::bytes_le(
                    key::physical_key(k, r),
                    (#[trigger] rest[j]).sort_key(),
                ) by {
                    assert(rest[j] == es[j + 1]);
                }
            }
        }
        let one = seq![e];
        assert(es =~= one + rest);
        lemma_rows_add(one, rest, k, reader);
        assert(one.drop_last() =~= Seq::empty());
        reveal_with_fuel(shape::rows_of, 2);
        assert(shape::rows_of(one, k, reader) =~= if model::has_key(e, k) && model::admits(reader, e) {
            seq![e->row]
        } else {
            Seq::empty()
        });
        if !model::admits(reader, e) {
            lemma_matching_rows(rest, keys, k, reader, matched, r);
            assert(Seq::<IndexRowRef>::empty() + shape::rows_of(rest, k, reader) =~= shape::rows_of(rest, k, reader));
        } else if e->logical_key == k {
            assert forall|j: int| 0 <= j < rest.len() implies order::bytes_le(
                key::physical_key(k, e->row),
                (#[trigger] rest[j]).sort_key(),
            ) by {
                assert(rest[j] == es[j + 1]);
                assert(order::bytes_le(es[0].sort_key(), es[j + 1].sort_key()));
            }
            lemma_matching_rows(rest, keys, k, reader, true, e->row);
        } else if matched {
            assert forall|j: int| 0 <= j < es.len() implies !model::has_key(#[trigger] es[j], k) by {
                if model::has_key(es[j], k) {
                    assert(shape::leaf_entry_ok(es[j], keys));
                    lemma_key_order(keys, e->logical_key, e->row, k, r);
                    lemma_key_order(keys, k, es[j]->row, e->logical_key, e->row);
                    assert(order::bytes_le(key::physical_key(k, r), es[0].sort_key()));
                    assert(j > 0);
                    assert(order::bytes_le(es[0].sort_key(), es[j].sort_key()));
                    order::lemma_not_le(e.sort_key(), key::physical_key(k, r));
                    order::lemma_not_le(es[j].sort_key(), e.sort_key());
                }
            }
            lemma_rows_none(es, k, reader);
        } else {
            lemma_matching_rows(rest, keys, k, reader, matched, r);
            assert(Seq::<IndexRowRef>::empty() + shape::rows_of(rest, k, reader) =~= shape::rows_of(rest, k, reader));
        }
    }
}

/// A leaf that starts behind a key has nothing of the key, and no leaf after it has.
proof fn lemma_past(t: IndexView, s: Shape, keys: KeySpace, k: Seq<u8>, i: int, j: int, n: int)
    requires
        shape::linked(t, s, keys),
        keys.contains(k),
        0 <= i <= j < s.leaves.len(),
        shape::list(t, s.leaves[i]).len() > 0,
        order::bytes_lt(k, shape::list(t, s.leaves[i])[0].logical()),
        0 <= n < shape::list(t, s.leaves[j]).len(),
    ensures
        !model::has_key(shape::list(t, s.leaves[j])[n], k),
{
    let first = shape::list(t, s.leaves[i])[0];
    let e = shape::list(t, s.leaves[j])[n];
    assert(shape::leaf_ok(shape::head(t, s.leaves[i]), shape::list(t, s.leaves[i]), s, i, keys));
    assert(shape::leaf_ok(shape::head(t, s.leaves[j]), shape::list(t, s.leaves[j]), s, j, keys));
    assert(shape::leaf_entry_ok(first, keys));
    assert(shape::leaf_entry_ok(e, keys));
    if model::has_key(e, k) {
        order::lemma_lt_irreflexive(k);
        lemma_key_order(keys, k, e->row, first->logical_key, first->row);
        assert(order::bytes_lt(e.sort_key(), first.sort_key()));
        order::lemma_lt_asymmetric(e.sort_key(), first.sort_key());
        if i == j {
            if n > 0 {
                assert(order::bytes_le(
                    shape::list(t, s.leaves[i])[0].sort_key(),
                    shape::list(t, s.leaves[i])[n].sort_key(),
                ));
            }
            order::lemma_not_le(e.sort_key(), first.sort_key());
        } else {
            shape::lemma_fences_ascend(t, s, keys, i + 1, j);
            let low = s.low[s.leaves[j]];
            assert(order::bytes_le(first.sort_key(), s.low[s.leaves[i + 1]]));
            order::lemma_le_transitive(first.sort_key(), s.low[s.leaves[i + 1]], low);
            order::lemma_le_transitive(first.sort_key(), low, e.sort_key());
            order::lemma_not_le(e.sort_key(), first.sort_key());
        }
    }
}

proof fn lemma_starts_past(es: Seq<EntryView>, keys: KeySpace, k: Seq<u8>)
    requires
        shape::leaf_entries_ok(es, keys),
    ensures
        model::starts_past(es, k) == (es.len() > 0 && order::bytes_lt(k, es[0].logical())),
{
    if es.len() > 0 {
        assert(shape::leaf_entry_ok(es[0], keys));
    }
}

/// Looking a key up from a leaf on finds what the leaves from there on hold of it.
proof fn lemma_lookup_from(t: IndexView, s: Shape, keys: KeySpace, k: Seq<u8>, reader: Reader, i: int, limit: nat)
    requires
        shape::linked(t, s, keys),
        keys.contains(k),
        0 <= i < s.leaves.len(),
        (s.rank)(s.leaves[i]) < limit,
    ensures
        t.lookup_from(s.leaves[i], k, reader, limit) == Ok::<Seq<IndexRowRef>, Error>(
            shape::rows_of(
                shape::contents(t, s.leaves.subrange(i, s.leaves.len() as int)),
                k,
                reader,
            ),
        ),
    decreases s.leaves.len() - i,
{
    let n = s.leaves.len() as int;
    let id = s.leaves[i];
    let es = shape::list(t, id);
    assert(shape::readable(t, s, id));
    assert(shape::leaf_ok(shape::head(t, id), es, s, i, keys));
    let any = IndexRowRef { row_id: crate::format::RowId(0), tuple: crate::format::TuplePtr {
        page_id: PageId(0),
        slot: 0,
        generation: crate::format::PageGeneration(0),
    } };
    lemma_matching_rows(es, keys, k, reader, false, any);
    lemma_starts_past(es, keys, k);
    lemma_contents_from(t, s.leaves, i);
    let rest = s.leaves.subrange(i + 1, n);
    lemma_rows_add(es, shape::contents(t, rest), k, reader);
    if model::starts_past(es, k) || i + 1 == n {
        assert forall|a: int, b: int|
            0 <= a < rest.len() && 0 <= b < shape::list(t, rest[a]).len() implies !model::has_key(
            #[trigger] shape::list(t, rest[a])[b],
            k,
        ) by {
            assert(rest[a] == s.leaves[i + 1 + a]);
            lemma_past(t, s, keys, k, i, i + 1 + a, b);
        }
        lemma_rows_none_in(t, rest, k, reader);
        assert(shape::rows_of(es, k, reader) + Seq::<IndexRowRef>::empty() =~= shape::rows_of(es, k, reader));
    } else {
        let next = s.leaves[i + 1];
        assert(shape::readable(t, s, next));
        lemma_lookup_from(t, s, keys, k, reader, i + 1, (limit - 1) as nat);
    }
}

/// Nothing of a key stands before the leaf that a search for it ends at.
proof fn lemma_nothing_before(t: IndexView, s: Shape, keys: KeySpace, k: Seq<u8>, reader: Reader, i: int)
    requires
        shape::linked(t, s, keys),
        shape::home(s, i, k),
    ensures
        shape::rows_of(shape::contents(t, s.leaves.subrange(0, i)), k, reader) == Seq::<IndexRowRef>::empty(),
{
    let before = s.leaves.subrange(0, i);
    assert forall|a: int, b: int|
        0 <= a < before.len() && 0 <= b < shape::list(t, before[a]).len() implies !model::has_key(
        #[trigger] shape::list(t, before[a])[b],
        k,
    ) by {
        let e = shape::list(t, s.leaves[a])[b];
        assert(before[a] == s.leaves[a]);
        assert(shape::leaf_ok(shape::head(t, s.leaves[a]), shape::list(t, s.leaves[a]), s, a, keys));
        assert(shape::leaf_entry_ok(e, keys));
        if model::has_key(e, k) {
            shape::lemma_fences_ascend(t, s, keys, a + 1, i);
            assert(order::bytes_le(e.sort_key(), s.low[s.leaves[a + 1]]));
            order::lemma_le_transitive(e.sort_key(), s.low[s.leaves[a + 1]], s.low[s.leaves[i]]);
            order::lemma_le_transitive(e.sort_key(), s.low[s.leaves[i]], k);
            key::lemma_row_suffix_len(e->row);
            order::lemma_prefix_first(k, key::row_suffix(e->row));
            order::lemma_not_le(k, e.sort_key());
        }
    }
    lemma_rows_none_in(t, before, k, reader);
}

/// A point lookup in an ordered index succeeds and returns exactly the rows of the entries of the
/// key that the reader admits, in order.
pub proof fn law_lookup_is_exact(t: IndexView, s: Shape, keys: KeySpace, k: Seq<u8>, reader: Reader)
    requires
        shape::linked(t, s, keys),
        keys.contains(k),
    ensures
        t.lookup(k, reader) == Ok::<Seq<IndexRowRef>, Error>(
            shape::rows_of(shape::contents(t, s.leaves), k, reader),
        ),
{
    let n = s.leaves.len() as int;
    let i = shape::lemma_path(t, s, keys, k);
    assert(shape::readable(t, s, s.leaves[i]));
    lemma_lookup_from(t, s, keys, k, reader, i, t.walk_limit());
    lemma_nothing_before(t, s, keys, k, reader, i);
    assert(s.leaves.subrange(0, i) + s.leaves.subrange(i, n) =~= s.leaves);
    lemma_contents_add(t, s.leaves.subrange(0, i), s.leaves.subrange(i, n));
    lemma_rows_add(
        shape::contents(t, s.leaves.subrange(0, i)),
        shape::contents(t, s.leaves.subrange(i, n)),
        k,
        reader,
    );
    let rows = shape::rows_of(shape::contents(t, s.leaves.subrange(i, n)), k, reader);
    assert(Seq::<IndexRowRef>::empty() + rows =~= rows);
}

proof fn lemma_between_add(a: Seq<EntryView>, b: Seq<EntryView>, start: Seq<u8>, end: Seq<u8>, reader: Reader)
    ensures
        model::rows_between(a + b, start, end, reader) == model::rows_between(a, start, end, reader)
            + model::rows_between(b, start, end, reader),
    decreases b.len(),
{
    if b.len() == 0 {
        assert(a + b =~= a);
        assert(model::rows_between(a, start, end, reader) + Seq::<IndexRowRef>::empty() =~= model::rows_between(
            a,
            start,
            end,
            reader,
        ));
    } else {
        assert((a + b).drop_last() =~= a + b.drop_last());
        lemma_between_add(a, b.drop_last(), start, end, reader);
        assert(model::rows_between(a + b, start, end, reader) =~= model::rows_between(a, start, end, reader)
            + model::rows_between(b, start, end, reader));
    }
}

/// An entry with a key from `start` up to `end`.
pub open spec fn in_range(e: EntryView, start: Seq<u8>, end: Seq<u8>) -> bool {
    e is Leaf && order::bytes_le(start, e->logical_key) && order::bytes_lt(e->logical_key, end)
}

proof fn lemma_between_none(es: Seq<EntryView>, start: Seq<u8>, end: Seq<u8>, reader: Reader)
    requires
        forall|j: int| 0 <= j < es.len() ==> !in_range(#[trigger] es[j], start, end),
    ensures
        model::rows_between(es, start, end, reader) == Seq::<IndexRowRef>::empty(),
    decreases es.len(),
{
    if es.len() > 0 {
        assert(!in_range(es[es.len() - 1], start, end));
        lemma_between_none(es.drop_last(), start, end, reader);
    }
}

proof fn lemma_between_none_in(t: IndexView, leaves: Seq<PageId>, start: Seq<u8>, end: Seq<u8>, reader: Reader)
    requires
        forall|i: int, j: int|
            0 <= i < leaves.len() && 0 <= j < shape::list(t, leaves[i]).len() ==> !in_range(
                #[trigger] shape::list(t, leaves[i])[j],
                start,
                end,
            ),
    ensures
        model::rows_between(shape::contents(t, leaves), start, end, reader) == Seq::<IndexRowRef>::empty(),
    decreases leaves.len(),
{
    if leaves.len() > 0 {
        let init = leaves.drop_last();
        assert forall|i: int, j: int|
            0 <= i < init.len() && 0 <= j < shape::list(t, init[i]).len() implies !in_range(
            #[trigger] shape::list(t, init[i])[j],
            start,
            end,
        ) by {
            assert(init[i] == leaves[i]);
            assert(!in_range(shape::list(t, leaves[i])[j], start, end));
        }
        lemma_between_none_in(t, init, start, end, reader);
        let last = shape::list(t, leaves.last());
        assert forall|j: int| 0 <= j < last.len() implies !in_range(#[trigger] last[j], start, end) by {
            assert(!in_range(shape::list(t, leaves[leaves.len() - 1])[j], start, end));
        }
        lemma_between_none(last, start, end, reader);
        lemma_between_add(shape::contents(t, init), last, start, end, reader);
    }
}

proof fn lemma_ends_past(es: Seq<EntryView>, end: Seq<u8>, reader: Reader) -> (j: int)
    requires
        model::ends_past(es, end, reader),
    ensures
        0 <= j < es.len(),
        es[j] is Leaf,
        order::bytes_le(end, es[j].logical()),
    decreases es.len(),
{
    match es.last() {
        EntryView::Leaf { .. } if model::admits(reader, es.last()) => es.len() - 1,
        _ => lemma_ends_past(es.drop_last(), end, reader),
    }
}

/// A logical key of a leaf is not behind those of later leaves.
proof fn lemma_later_keys(t: IndexView, s: Shape, keys: KeySpace, end: Seq<u8>, i: int, j: int, c: int, b: int)
    requires
        shape::linked(t, s, keys),
        0 <= i < c < s.leaves.len(),
        0 <= j < shape::list(t, s.leaves[i]).len(),
        0 <= b < shape::list(t, s.leaves[c]).len(),
        order::bytes_le(end, shape::list(t, s.leaves[i])[j].logical()),
    ensures
        shape::list(t, s.leaves[c])[b] is Leaf,
        order::bytes_le(end, shape::list(t, s.leaves[c])[b].logical()),
{
    let m = shape::list(t, s.leaves[i])[j];
    let e = shape::list(t, s.leaves[c])[b];
    assert(shape::leaf_ok(shape::head(t, s.leaves[i]), shape::list(t, s.leaves[i]), s, i, keys));
    assert(shape::leaf_ok(shape::head(t, s.leaves[c]), shape::list(t, s.leaves[c]), s, c, keys));
    assert(shape::leaf_entry_ok(m, keys));
    assert(shape::leaf_entry_ok(e, keys));
    assert(order::bytes_le(m.sort_key(), s.low[s.leaves[i + 1]]));
    shape::lemma_fences_ascend(t, s, keys, i + 1, c);
    order::lemma_le_transitive(m.sort_key(), s.low[s.leaves[i + 1]], s.low[s.leaves[c]]);
    order::lemma_le_transitive(m.sort_key(), s.low[s.leaves[c]], e.sort_key());
    if e->logical_key != m->logical_key {
        lemma_key_order(keys, e->logical_key, e->row, m->logical_key, m->row);
        order::lemma_not_le(e.sort_key(), m.sort_key());
        order::lemma_le_transitive(end, m->logical_key, e->logical_key);
    }
}

/// Behind a leaf that ends behind the range nothing is in the range.
proof fn lemma_range_rest(
    t: IndexView,
    s: Shape,
    keys: KeySpace,
    start: Seq<u8>,
    end: Seq<u8>,
    reader: Reader,
    i: int,
)
    requires
        shape::linked(t, s, keys),
        0 <= i < s.leaves.len() - 1,
        model::ends_past(shape::list(t, s.leaves[i]), end, reader),
    ensures
        ({
            let rest = s.leaves.subrange(i + 1, s.leaves.len() as int);
            forall|a: int, b: int|
                0 <= a < rest.len() && 0 <= b < shape::list(t, rest[a]).len() ==> !in_range(
                    #[trigger] shape::list(t, rest[a])[b],
                    start,
                    end,
                )
        }),
{
    let rest = s.leaves.subrange(i + 1, s.leaves.len() as int);
    let j = lemma_ends_past(shape::list(t, s.leaves[i]), end, reader);
    assert forall|a: int, b: int|
        0 <= a < rest.len() && 0 <= b < shape::list(t, rest[a]).len() implies !in_range(
        #[trigger] shape::list(t, rest[a])[b],
        start,
        end,
    ) by {
        assert(rest[a] == s.leaves[i + 1 + a]);
        lemma_later_keys(t, s, keys, end, i, j, i + 1 + a, b);
        order::lemma_not_le(shape::list(t, rest[a])[b]->logical_key, end);
    }
}

/// Whether a scan of so many leaves, from one leaf on, ends where it should: at the first leaf that ends
/// behind the range, or at the last leaf.
pub open spec fn leaves_to_end(t: IndexView, s: Shape, end: Seq<u8>, reader: Reader, i: int, visited: int) -> bool {
    &&& forall|j: int|
        i <= j < i + visited - 1 ==> !model::ends_past(shape::list(t, #[trigger] s.leaves[j]), end, reader)
    &&& i + visited == s.leaves.len() || model::ends_past(shape::list(t, s.leaves[i + visited - 1]), end, reader)
}

proof fn lemma_range_from(
    t: IndexView,
    s: Shape,
    keys: KeySpace,
    start: Seq<u8>,
    end: Seq<u8>,
    reader: Reader,
    i: int,
    limit: nat,
)
    requires
        shape::linked(t, s, keys),
        0 <= i < s.leaves.len(),
        (s.rank)(s.leaves[i]) < limit,
    ensures
        t.range_from(s.leaves[i], start, end, reader, limit).1 == Ok::<Seq<IndexRowRef>, Error>(
            model::rows_between(
                shape::contents(t, s.leaves.subrange(i, s.leaves.len() as int)),
                start,
                end,
                reader,
            ),
        ),
        1 <= t.range_from(s.leaves[i], start, end, reader, limit).0 <= s.leaves.len() - i,
        leaves_to_end(t, s, end, reader, i, t.range_from(s.leaves[i], start, end, reader, limit).0 as int),
    decreases s.leaves.len() - i,
{
    let n = s.leaves.len() as int;
    let id = s.leaves[i];
    let es = shape::list(t, id);
    assert(shape::readable(t, s, id));
    assert(shape::leaf_ok(shape::head(t, id), es, s, i, keys));
    lemma_contents_from(t, s.leaves, i);
    let rest = s.leaves.subrange(i + 1, n);
    lemma_between_add(es, shape::contents(t, rest), start, end, reader);
    let here = model::rows_between(es, start, end, reader);
    if model::ends_past(es, end, reader) || i + 1 == n {
        if i + 1 < n {
            lemma_range_rest(t, s, keys, start, end, reader, i);
        }
        lemma_between_none_in(t, rest, start, end, reader);
        assert(here + Seq::<IndexRowRef>::empty() =~= here);
    } else {
        assert(shape::readable(t, s, s.leaves[i + 1]));
        lemma_range_from(t, s, keys, start, end, reader, i + 1, (limit - 1) as nat);
    }
}

/// A range scan in an ordered index succeeds and returns exactly the rows of the admitted entries
/// with a key from `start` up to but not including `end`, in order, whatever leaves it skips. It visits the
/// leaf that `start` belongs on and those behind it, up to the first that ends behind the range.
pub proof fn law_range_is_exact(
    t: IndexView,
    s: Shape,
    keys: KeySpace,
    start: Seq<u8>,
    end: Seq<u8>,
    reader: Reader,
)
    requires
        shape::linked(t, s, keys),
    ensures
        t.range(start, end, reader).1 == Ok::<Seq<IndexRowRef>, Error>(
            model::rows_between(shape::contents(t, s.leaves), start, end, reader),
        ),
        1 <= t.range(start, end, reader).0 <= s.leaves.len(),
        exists|i: int|
            0 <= i < s.leaves.len() && #[trigger] shape::home(s, i, start) && leaves_to_end(
                t,
                s,
                end,
                reader,
                i,
                t.range(start, end, reader).0 as int,
            ),
{
    let n = s.leaves.len() as int;
    let i = shape::lemma_path(t, s, keys, start);
    assert(shape::readable(t, s, s.leaves[i]));
    lemma_range_from(t, s, keys, start, end, reader, i, t.walk_limit());
    let before = s.leaves.subrange(0, i);
    assert forall|a: int, b: int|
        0 <= a < before.len() && 0 <= b < shape::list(t, before[a]).len() implies !in_range(
        #[trigger] shape::list(t, before[a])[b],
        start,
        end,
    ) by {
        let e = shape::list(t, s.leaves[a])[b];
        assert(before[a] == s.leaves[a]);
        assert(shape::leaf_ok(shape::head(t, s.leaves[a]), shape::list(t, s.leaves[a]), s, a, keys));
        assert(shape::leaf_entry_ok(e, keys));
        shape::lemma_fences_ascend(t, s, keys, a + 1, i);
        assert(order::bytes_le(e.sort_key(), s.low[s.leaves[a + 1]]));
        order::lemma_le_transitive(e.sort_key(), s.low[s.leaves[a + 1]], s.low[s.leaves[i]]);
        order::lemma_le_transitive(e.sort_key(), s.low[s.leaves[i]], start);
        key::lemma_row_suffix_len(e->row);
        order::lemma_prefix_first(e->logical_key, key::row_suffix(e->row));
        order::lemma_le_transitive(e->logical_key, e.sort_key(), start);
        order::lemma_not_le(e->logical_key, start);
    }
    lemma_between_none_in(t, before, start, end, reader);
    assert(before + s.leaves.subrange(i, n) =~= s.leaves);
    lemma_contents_add(t, before, s.leaves.subrange(i, n));
    lemma_between_add(
        shape::contents(t, before),
        shape::contents(t, s.leaves.subrange(i, n)),
        start,
        end,
        reader,
    );
    let rows = model::rows_between(shape::contents(t, s.leaves.subrange(i, n)), start, end, reader);
    assert(Seq::<IndexRowRef>::empty() + rows =~= rows);
}

/// The rows of a range are those of the admitted entries with a key in the range, as they were inserted
/// and in the order of the entries.
pub proof fn law_range_rows_are_those_inserted(es: Seq<EntryView>, start: Seq<u8>, end: Seq<u8>, reader: Reader)
    ensures
        model::rows_between(es, start, end, reader) == es.filter(
            |e: EntryView| in_range(e, start, end) && model::admits(reader, e),
        ).map_values(|e: EntryView| e->row),
    decreases es.len(),
{
    let picked = |e: EntryView| in_range(e, start, end) && model::admits(reader, e);
    let row = |e: EntryView| e->row;
    reveal(Seq::filter);
    if es.len() > 0 {
        law_range_rows_are_those_inserted(es.drop_last(), start, end, reader);
        let init = es.drop_last().filter(picked);
        if picked(es.last()) {
            assert(init.push(es.last()).map_values(row) =~= init.map_values(row).push(es.last()->row));
        }
    } else {
        assert(es.filter(picked).map_values(row) =~= Seq::empty());
    }
}

/// The rows of a key are those of its admitted entries, as they were inserted and in the order of the
/// entries.
pub proof fn law_key_rows_are_those_inserted(es: Seq<EntryView>, k: Seq<u8>, reader: Reader)
    ensures
        shape::rows_of(es, k, reader) == es.filter(
            |e: EntryView| e is Leaf && e->logical_key == k && model::admits(reader, e),
        ).map_values(|e: EntryView| e->row),
    decreases es.len(),
{
    let picked = |e: EntryView| e is Leaf && e->logical_key == k && model::admits(reader, e);
    let row = |e: EntryView| e->row;
    reveal(Seq::filter);
    if es.len() > 0 {
        law_key_rows_are_those_inserted(es.drop_last(), k, reader);
        let init = es.drop_last().filter(picked);
        if picked(es.last()) {
            assert(init.push(es.last()).map_values(row) =~= init.map_values(row).push(es.last()->row));
        }
    } else {
        assert(es.filter(picked).map_values(row) =~= Seq::empty());
    }
}

proof fn lemma_one_key(es: Seq<EntryView>, k: Seq<u8>, reader: Reader)
    ensures
        model::rows_between(es, k, k.push(0), reader) == shape::rows_of(es, k, reader),
    decreases es.len(),
{
    if es.len() > 0 {
        lemma_one_key(es.drop_last(), k, reader);
        order::lemma_next_string(k, es.last().logical());
    }
}

/// A range scan over a single key finds what a point lookup of the key finds.
pub proof fn law_range_of_one_key_is_lookup(t: IndexView, s: Shape, keys: KeySpace, k: Seq<u8>, reader: Reader)
    requires
        shape::linked(t, s, keys),
        keys.contains(k),
    ensures
        t.range(k, k.push(0), reader).1 == t.lookup(k, reader),
        t.lookup(k, reader) is Ok,
{
    law_range_is_exact(t, s, keys, k, k.push(0), reader);
    law_lookup_is_exact(t, s, keys, k, reader);
    lemma_one_key(shape::contents(t, s.leaves), k, reader);
}

/// Whether the keys of some entries go up.
spec fn keys_ascend(es: Seq<EntryView>) -> bool {
    &&& forall|j: int| 0 <= j < es.len() ==> (#[trigger] es[j]) is Leaf
    &&& forall|j: int, k: int|
        0 <= j < k < es.len() ==> order::bytes_le((#[trigger] es[j]).logical(), (#[trigger] es[k]).logical())
}

proof fn lemma_leaf_keys_ascend(es: Seq<EntryView>, keys: KeySpace)
    requires
        keys.ordered(),
        shape::leaf_entries_ok(es, keys),
    ensures
        keys_ascend(es),
{
    assert forall|j: int| 0 <= j < es.len() implies (#[trigger] es[j]) is Leaf by {
        assert(shape::leaf_entry_ok(es[j], keys));
    }
    assert forall|j: int, k: int| 0 <= j < k < es.len() implies order::bytes_le(
        (#[trigger] es[j]).logical(),
        (#[trigger] es[k]).logical(),
    ) by {
        assert(shape::leaf_entry_ok(es[j], keys) && shape::leaf_entry_ok(es[k], keys));
        assert(order::bytes_le(es[j].sort_key(), es[k].sort_key()));
        if es[j]->logical_key != es[k]->logical_key {
            lemma_key_order(keys, es[k]->logical_key, es[k]->row, es[j]->logical_key, es[j]->row);
            order::lemma_not_le(es[k].sort_key(), es[j].sort_key());
        }
    }
}

pub proof fn lemma_where_is(t: IndexView, leaves: Seq<PageId>, n: int) -> (at: (int, int))
    requires
        0 <= n < shape::contents(t, leaves).len(),
    ensures
        0 <= at.0 < leaves.len(),
        0 <= at.1 < shape::list(t, leaves[at.0]).len(),
        shape::list(t, leaves[at.0])[at.1] == shape::contents(t, leaves)[n],
    decreases leaves.len(),
{
    let init = shape::contents(t, leaves.drop_last());
    if n < init.len() {
        lemma_where_is(t, leaves.drop_last(), n)
    } else {
        (leaves.len() - 1, n - init.len())
    }
}

proof fn lemma_contents_ascend(t: IndexView, s: Shape, keys: KeySpace, n: int)
    requires
        shape::linked(t, s, keys),
        0 <= n <= s.leaves.len(),
    ensures
        keys_ascend(shape::contents(t, s.leaves.take(n))),
    decreases n,
{
    if n > 0 {
        let m = n - 1;
        lemma_contents_ascend(t, s, keys, m);
        let front = s.leaves.take(m);
        assert(s.leaves.take(n).drop_last() =~= front);
        let a = shape::contents(t, front);
        let b = shape::list(t, s.leaves[m]);
        let all = shape::contents(t, s.leaves.take(n));
        assert(all =~= a + b);
        assert(shape::leaf_ok(shape::head(t, s.leaves[m]), b, s, m, keys));
        lemma_leaf_keys_ascend(b, keys);
        assert forall|j: int| 0 <= j < all.len() implies (#[trigger] all[j]) is Leaf by {
            if j >= a.len() {
                assert(all[j] == b[j - a.len()]);
            } else {
                assert(all[j] == a[j]);
            }
        }
        assert forall|j: int, k: int| 0 <= j < k < all.len() implies order::bytes_le(
            (#[trigger] all[j]).logical(),
            (#[trigger] all[k]).logical(),
        ) by {
            if k < a.len() {
                assert(all[j] == a[j] && all[k] == a[k]);
            } else if j >= a.len() {
                assert(all[j] == b[j - a.len()] && all[k] == b[k - a.len()]);
            } else {
                assert(all[j] == a[j] && all[k] == b[k - a.len()]);
                let (i, x) = lemma_where_is(t, front, j);
                assert(front[i] == s.leaves[i]);
                lemma_later_keys(t, s, keys, a[j].logical(), i, x, m, k - a.len());
            }
        }
    } else {
        assert(s.leaves.take(0) =~= Seq::empty());
    }
}

proof fn lemma_ranges_join(es: Seq<EntryView>, a: Seq<u8>, b: Seq<u8>, c: Seq<u8>, reader: Reader)
    requires
        keys_ascend(es),
        order::bytes_le(a, b),
        order::bytes_le(b, c),
    ensures
        model::rows_between(es, a, c, reader) == model::rows_between(es, a, b, reader) + model::rows_between(
            es,
            b,
            c,
            reader,
        ),
    decreases es.len(),
{
    if es.len() == 0 {
        assert(model::rows_between(es, a, c, reader) =~= model::rows_between(es, a, b, reader) + model::rows_between(
            es,
            b,
            c,
            reader,
        ));
    } else {
        let init = es.drop_last();
        let last = es.last();
        let k = last.logical();
        assert(es[es.len() - 1] is Leaf);
        assert forall|j: int| 0 <= j < init.len() implies (#[trigger] init[j]) is Leaf by {
            assert(init[j] == es[j]);
        }
        assert forall|j: int, m: int| 0 <= j < m < init.len() implies order::bytes_le(
            (#[trigger] init[j]).logical(),
            (#[trigger] init[m]).logical(),
        ) by {
            assert(init[j] == es[j] && init[m] == es[m]);
        }
        lemma_ranges_join(init, a, b, c, reader);
        order::lemma_not_le(k, b);
        if order::bytes_lt(k, b) {
            order::lemma_le_transitive(k, b, c);
            assert forall|j: int| 0 <= j < es.len() implies !in_range(#[trigger] es[j], b, c) by {
                if j < es.len() - 1 {
                    assert(order::bytes_le(es[j].logical(), es[es.len() - 1].logical()));
                    order::lemma_le_transitive(es[j].logical(), k, b);
                }
                order::lemma_not_le(es[j].logical(), b);
            }
            lemma_between_none(es, b, c, reader);
            assert forall|j: int| 0 <= j < init.len() implies !in_range(#[trigger] init[j], b, c) by {
                assert(init[j] == es[j]);
            }
            lemma_between_none(init, b, c, reader);
        } else {
            order::lemma_le_transitive(a, b, k);
        }
        assert(model::rows_between(es, a, c, reader) =~= model::rows_between(es, a, b, reader) + model::rows_between(
            es,
            b,
            c,
            reader,
        ));
    }
}

/// Two ranges that meet find together what the range over both finds, one behind the other: no row is
/// found twice or lost where they meet, and rows come in the order of their keys.
pub proof fn law_ranges_join(
    t: IndexView,
    s: Shape,
    keys: KeySpace,
    a: Seq<u8>,
    b: Seq<u8>,
    c: Seq<u8>,
    reader: Reader,
)
    requires
        shape::linked(t, s, keys),
        order::bytes_le(a, b),
        order::bytes_le(b, c),
    ensures
        t.range(a, b, reader).1 is Ok,
        t.range(b, c, reader).1 is Ok,
        t.range(a, c, reader).1 == Ok::<Seq<IndexRowRef>, Error>(
            t.range(a, b, reader).1->Ok_0 + t.range(b, c, reader).1->Ok_0,
        ),
{
    law_range_is_exact(t, s, keys, a, b, reader);
    law_range_is_exact(t, s, keys, b, c, reader);
    law_range_is_exact(t, s, keys, a, c, reader);
    lemma_contents_ascend(t, s, keys, s.leaves.len() as int);
    assert(s.leaves.take(s.leaves.len() as int) =~= s.leaves);
    lemma_ranges_join(shape::contents(t, s.leaves), a, b, c, reader);
}

/// The entries listed for a leaf are its live entries, with their keys and rows as they were inserted,
/// in their order, and with the leaf they stand on.
pub proof fn law_listed_entries_are_those_inserted(es: Seq<EntryView>, at: PageId)
    ensures
        model::live_found(es, at) == es.filter(|e: EntryView| e is Leaf && e->delete_tx == TxId(0)).map_values(
            |e: EntryView| FoundView { logical_key: e->logical_key, row: e->row, leaf_page_id: at },
        ),
    decreases es.len(),
{
    let picked = |e: EntryView| e is Leaf && e->delete_tx == TxId(0);
    let found = |e: EntryView| FoundView { logical_key: e->logical_key, row: e->row, leaf_page_id: at };
    reveal(Seq::filter);
    if es.len() > 0 {
        law_listed_entries_are_those_inserted(es.drop_last(), at);
        let init = es.drop_last().filter(picked);
        if picked(es.last()) {
            assert(init.push(es.last()).map_values(found) =~= init.map_values(found).push(found(es.last())));
        }
    } else {
        assert(es.filter(picked).map_values(found) =~= Seq::empty());
    }
}

proof fn lemma_found_add(t: IndexView, a: Seq<PageId>, b: Seq<PageId>)
    ensures
        shape::found_in(t, a + b) == shape::found_in(t, a) + shape::found_in(t, b),
    decreases b.len(),
{
    if b.len() == 0 {
        assert(a + b =~= a);
        assert(shape::found_in(t, a) + Seq::<FoundView>::empty() =~= shape::found_in(t, a));
    } else {
        assert((a + b).drop_last() =~= a + b.drop_last());
        lemma_found_add(t, a, b.drop_last());
        assert(shape::found_in(t, a + b) =~= shape::found_in(t, a) + shape::found_in(t, b));
    }
}

proof fn lemma_all_from(t: IndexView, s: Shape, keys: KeySpace, i: int, limit: nat)
    requires
        shape::linked(t, s, keys),
        0 <= i < s.leaves.len(),
        (s.rank)(s.leaves[i]) < limit,
    ensures
        t.all_from(s.leaves[i], limit) == Ok::<Seq<FoundView>, Error>(
            shape::found_in(t, s.leaves.subrange(i, s.leaves.len() as int)),
        ),
    decreases s.leaves.len() - i,
{
    let n = s.leaves.len() as int;
    let id = s.leaves[i];
    assert(shape::readable(t, s, id));
    assert(shape::leaf_ok(shape::head(t, id), shape::list(t, id), s, i, keys));
    let one = seq![id];
    let rest = s.leaves.subrange(i + 1, n);
    assert(s.leaves.subrange(i, n) =~= one + rest);
    lemma_found_add(t, one, rest);
    reveal_with_fuel(shape::found_in, 2);
    assert(one.drop_last() =~= Seq::empty());
    let here = model::live_found(shape::list(t, id), id);
    assert(shape::found_in(t, one) =~= here);
    if i + 1 < n {
        assert(shape::readable(t, s, s.leaves[i + 1]));
        lemma_all_from(t, s, keys, i + 1, (limit - 1) as nat);
    } else {
        assert(rest =~= Seq::empty());
        assert(here + Seq::<FoundView>::empty() =~= here);
    }
}

/// Following leftmost children leads to the first leaf.
proof fn lemma_leftmost(t: IndexView, s: Shape, keys: KeySpace, id: PageId, limit: nat)
    requires
        shape::linked(t, s, keys),
        s.low.dom().contains(id),
        s.low[id] == Seq::<u8>::empty(),
        (s.rank)(id) < limit,
    ensures
        t.leftmost(id, limit) == Ok::<PageId, Error>(s.leaves[0]),
    decreases limit,
{
    assert(shape::readable(t, s, id));
    if s.leaves.contains(id) {
        let i = choose|i: int| 0 <= i < s.leaves.len() && s.leaves[i] == id;
        assert(shape::leaf_ok(shape::head(t, id), shape::list(t, id), s, i, keys));
        if i > 0 {
            let before = s.leaves[i - 1];
            assert(shape::leaf_ok(shape::head(t, before), shape::list(t, before), s, i - 1, keys));
        }
    } else {
        let h = shape::head(t, id);
        assert(shape::internal_ok(h, shape::list(t, id), s, id));
        assert(shape::readable(t, s, h.left->0));
        lemma_leftmost(t, s, keys, h.left->0, (limit - 1) as nat);
    }
}

/// Listing all entries of an ordered index succeeds and gives the live entries of all leaves, from
/// the first leaf to the last.
pub proof fn law_all_entries_are_listed(t: IndexView, s: Shape, keys: KeySpace)
    requires
        shape::linked(t, s, keys),
    ensures
        t.all_entries() == Ok::<Seq<FoundView>, Error>(shape::found_in(t, s.leaves)),
{
    assert(shape::readable(t, s, shape::root(t)));
    lemma_leftmost(t, s, keys, shape::root(t), t.walk_limit());
    assert(shape::readable(t, s, s.leaves[0]));
    lemma_all_from(t, s, keys, 0, t.walk_limit());
    assert(s.leaves.subrange(0, s.leaves.len() as int) =~= s.leaves);
}

} // verus!
