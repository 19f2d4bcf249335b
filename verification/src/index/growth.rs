//! Inserts keep an ordered index ordered and add exactly the new entry.
use crate::error::Error;
use crate::format::order;
use crate::format::page::{PageKind, PageView, MAX_PAGE_SIZE};
use crate::format::{PageId, TxId};
use crate::index::cell;
use crate::index::cell::EntryView;
use crate::index::entries;
use crate::index::key;
use crate::index::laws;
use crate::index::model;
use crate::index::model::IndexView;
use crate::index::node;
use crate::index::node::{HeaderView, MetaHeader, INDEX_SPECIAL_LEN, NO_PAGE, PAGE_INTERNAL_KIND, PAGE_LEAF_KIND};
use crate::index::shape;
use crate::index::shape::{KeySpace, Shape};
use crate::index::{IndexId, IndexRowRef};
use vstd::prelude::*;
use vstd::seq_lib::*;

verus! {

/// Every entry is of one kind.
pub open spec fn all_of_kind(es: Seq<EntryView>, leaf: bool) -> bool {
    forall|j: int| 0 <= j < es.len() ==> ((#[trigger] es[j]) is Leaf) == leaf
}

proof fn lemma_filled(page: PageView, cells: Seq<Seq<u8>>)
    requires
        node::filled(page, cells).1 is Ok,
    ensures
        node::filled(page, cells).0 == (PageView { cells: page.cells + cells, ..page }),
        forall|i: int| 0 <= i < cells.len() ==> (#[trigger] cells[i]).len() < page.size,
    decreases cells.len(),
{
    if cells.len() == 0 {
        assert(page.cells + cells =~= page.cells);
    } else {
        let init = cells.drop_last();
        lemma_filled(page, init);
        assert((page.cells + init).push(cells.last()) =~= page.cells + cells);
        assert forall|i: int| 0 <= i < cells.len() implies (#[trigger] cells[i]).len() < page.size by {
            if i < init.len() {
                assert(init[i] == cells[i]);
            }
        }
    }
}

proof fn lemma_cells_of(es: Seq<EntryView>, leaf: bool)
    requires
        all_of_kind(es, leaf),
    ensures
        node::cells_of(es, leaf).len() == es.len(),
        forall|i: int| 0 <= i < es.len() ==> #[trigger] node::cells_of(es, leaf)[i] == es[i].cell(),
    decreases es.len(),
{
    if es.len() > 0 {
        let init = es.drop_last();
        assert forall|j: int| 0 <= j < init.len() implies ((#[trigger] init[j]) is Leaf) == leaf by {
            assert(init[j] == es[j]);
        }
        lemma_cells_of(init, leaf);
        assert((es[es.len() - 1] is Leaf) == leaf);
        assert forall|i: int| 0 <= i < es.len() implies #[trigger] node::cells_of(es, leaf)[i] == es[i].cell() by {
            if i < init.len() {
                assert(node::cells_of(init, leaf)[i] == init[i].cell());
            }
        }
    }
}

proof fn lemma_parse_entries(kind: PageKind, cells: Seq<Seq<u8>>, es: Seq<EntryView>)
    requires
        cells.len() == es.len(),
        forall|i: int| 0 <= i < es.len() ==> node::parse_cell(kind, #[trigger] cells[i]) == Ok::<EntryView, Error>(es[i]),
    ensures
        node::parse_entries(kind, cells) == Ok::<Seq<EntryView>, Error>(es),
    decreases cells.len(),
{
    if cells.len() == 0 {
        assert(es =~= Seq::empty());
    } else {
        let init = cells.drop_last();
        assert forall|i: int| 0 <= i < es.drop_last().len() implies node::parse_cell(kind, #[trigger] init[i]) == Ok::<
            EntryView,
            Error,
        >(es.drop_last()[i]) by {
            assert(init[i] == cells[i]);
        }
        lemma_parse_entries(kind, init, es.drop_last());
        assert(node::parse_cell(kind, cells[cells.len() - 1]) == Ok::<EntryView, Error>(es[es.len() - 1]));
        assert(es.drop_last().push(es.last()) =~= es);
    }
}

/// A node that was written without an error is read back as it was written.
pub proof fn law_node_round_trips(page: PageView, leaf: bool, h: HeaderView, es: Seq<EntryView>)
    requires
        page.size <= MAX_PAGE_SIZE,
        all_of_kind(es, leaf),
        h.left != Some(PageId(NO_PAGE)),
        h.right != Some(PageId(NO_PAGE)),
        node::rewritten(page, leaf, h, es).1 is Ok,
    ensures
        ({
            let after = node::rewritten(page, leaf, h, es).0;
            &&& node::header_of(after) == Ok::<HeaderView, Error>(h)
            &&& node::entries_of(after) == Ok::<Seq<EntryView>, Error>(es)
            &&& after.size == page.size
            &&& after.special.len() == INDEX_SPECIAL_LEN
        }),
{
    let after = node::rewritten(page, leaf, h, es).0;
    let blank = page.blank(
        node::node_page_kind(leaf),
        page.page_id,
        page.rel_id,
        crate::format::PageGeneration(1),
        node::INDEX_SPECIAL_LEN as nat,
    );
    let headed = PageView { special: h.special(), ..blank };
    let cells = node::cells_of(es, leaf);
    lemma_filled(headed, cells);
    lemma_cells_of(es, leaf);
    assert(Seq::<Seq<u8>>::empty() + cells =~= cells);
    assert(after.cells == cells);
    node::law_header_round_trips(h);
    assert forall|i: int| 0 <= i < es.len() implies node::parse_cell(after.kind, #[trigger] cells[i]) == Ok::<
        EntryView,
        Error,
    >(es[i]) by {
        let e = es[i];
        assert((es[i] is Leaf) == leaf);
        assert(cells[i] == e.cell());
        cell::lemma_cell_len(e);
        assert(e.encodable());
        cell::law_cell_round_trips(e);
    }
    lemma_parse_entries(after.kind, cells, es);
}

/// The same page stands under `id`.
pub open spec fn agree(a: IndexView, b: IndexView, id: PageId) -> bool {
    b.pool.page(id) == a.pool.page(id)
}

/// Noting a change does not change what pages say.
pub proof fn lemma_recorded(t: IndexView, at: PageId, tx_id: TxId)
    requires
        t.pool.has(at),
    ensures
        ({
            let after = t.recorded(at, tx_id);
            &&& after.pool.frames.len() == t.pool.frames.len()
            &&& after.meta_page_id == t.meta_page_id
            &&& after.desc == t.desc
            &&& forall|id: PageId| #[trigger] agree(t, after, id)
        }),
{
    let after = t.recorded(at, tx_id);
    assert forall|id: PageId| #[trigger] agree(t, after, id) by {
        if t.pool.has(id) && id != at {
            assert(after.pool.frames[id.0 - 1] == t.pool.frames[id.0 - 1]);
        }
    }
}

/// Writing a node changes its page and no other.
pub proof fn lemma_rewrite(t: IndexView, at: PageId, leaf: bool, h: HeaderView, es: Seq<EntryView>)
    requires
        t.pool.has(at),
        t.pool.frames[at.0 - 1].page.size <= MAX_PAGE_SIZE,
        all_of_kind(es, leaf),
        h.left != Some(PageId(NO_PAGE)),
        h.right != Some(PageId(NO_PAGE)),
        t.rewrite(at, leaf, h, es).1 is Ok,
    ensures
        ({
            let after = t.rewrite(at, leaf, h, es).0;
            &&& after.pool.frames.len() == t.pool.frames.len()
            &&& after.meta_page_id == t.meta_page_id
            &&& after.desc == t.desc
            &&& after.header(at) == Ok::<HeaderView, Error>(h)
            &&& after.entries(at) == Ok::<Seq<EntryView>, Error>(es)
            &&& after.pool.frames[at.0 - 1].page.size == t.pool.frames[at.0 - 1].page.size
            &&& after.pool.frames[at.0 - 1].page.special.len() == INDEX_SPECIAL_LEN
            &&& forall|id: PageId| id != at ==> #[trigger] agree(t, after, id)
        }),
{
    let page = t.pool.frames[at.0 - 1].page;
    law_node_round_trips(page, leaf, h, es);
    let after = t.rewrite(at, leaf, h, es).0;
    assert forall|id: PageId| id != at implies #[trigger] agree(t, after, id) by {
        if t.pool.has(id) {
            assert(after.pool.frames[id.0 - 1] == t.pool.frames[id.0 - 1]);
        }
    }
}

/// Growing the file keeps the pages that are there.
pub proof fn lemma_grown(t: IndexView, kind: PageKind)
    requires
        t.pool.can_grow(),
        t.pool.page_size <= MAX_PAGE_SIZE,
    ensures
        ({
            let after = t.with_pool(t.pool.grown(kind, t.desc.rel_id));
            let id = t.pool.next_id();
            &&& after.pool.frames.len() == t.pool.frames.len() + 1
            &&& id.0 == t.pool.frames.len() + 1
            &&& after.pool.has(id)
            &&& !t.pool.has(id)
            &&& id.0 != NO_PAGE
            &&& after.pool.frames[id.0 - 1].page.size <= MAX_PAGE_SIZE
            &&& after.pool.page_size == t.pool.page_size
            &&& forall|other: PageId| t.pool.has(other) ==> #[trigger] agree(t, after, other)
        }),
{
    let after = t.with_pool(t.pool.grown(kind, t.desc.rel_id));
    assert forall|other: PageId| t.pool.has(other) implies #[trigger] agree(t, after, other) by {
        assert(after.pool.frames[other.0 - 1] == t.pool.frames[other.0 - 1]);
    }
}

/// Putting an entry in its place keeps all entries and adds it.
proof fn lemma_insert_behind_members(es: Seq<EntryView>, e: EntryView)
    ensures
        entries::insert_behind(es, e).to_multiset() == es.to_multiset().insert(e),
        entries::insert_behind(es, e).len() == es.len() + 1,
    decreases es.len(),
{
    broadcast use group_to_multiset_ensures;

    if es.len() > 0 && e.before(es.last()) {
        lemma_insert_behind_members(es.drop_last(), e);
        assert(es.drop_last().push(es.last()) =~= es);
        assert(es.to_multiset().insert(e) =~= es.drop_last().to_multiset().insert(e).insert(es.last()));
    }
}

/// Sorting keeps all entries.
pub proof fn lemma_sorted_members(es: Seq<EntryView>)
    ensures
        entries::stable_sorted(es).to_multiset() == es.to_multiset(),
        entries::stable_sorted(es).len() == es.len(),
        forall|e: EntryView| entries::stable_sorted(es).contains(e) <==> es.contains(e),
    decreases es.len(),
{
    broadcast use group_to_multiset_ensures;

    if es.len() > 0 {
        lemma_sorted_members(es.drop_last());
        lemma_insert_behind_members(entries::stable_sorted(es.drop_last()), es.last());
        assert(es.drop_last().push(es.last()) =~= es);
    } else {
        assert(es =~= Seq::empty());
    }
    assert forall|e: EntryView| entries::stable_sorted(es).contains(e) <==> es.contains(e) by {
        assert(entries::stable_sorted(es).to_multiset().count(e) == es.to_multiset().count(e));
    }
}

/// Putting a leaf entry in its place keeps the order.
proof fn lemma_insert_behind_order(es: Seq<EntryView>, e: EntryView, keys: KeySpace)
    requires
        shape::leaf_entries_ok(es, keys),
        shape::leaf_entry_ok(e, keys),
    ensures
        shape::leaf_entries_ok(entries::insert_behind(es, e), keys),
    decreases es.len(),
{
    broadcast use group_to_multiset_ensures;

    let after = entries::insert_behind(es, e);
    lemma_insert_behind_members(es, e);
    if es.len() > 0 {
        assert(shape::leaf_entry_ok(es[es.len() - 1], keys));
    }
    if es.len() > 0 && e.before(es.last()) {
        let init = es.drop_last();
        assert(shape::leaf_entries_ok(init, keys)) by {
            assert forall|j: int| 0 <= j < init.len() implies shape::leaf_entry_ok(#[trigger] init[j], keys) by {
                assert(init[j] == es[j]);
            }
            assert forall|j: int, k: int| 0 <= j < k < init.len() implies order::bytes_le(
                (#[trigger] init[j]).sort_key(),
                (#[trigger] init[k]).sort_key(),
            ) by {
                assert(init[j] == es[j] && init[k] == es[k]);
            }
        }
        lemma_insert_behind_order(init, e, keys);
        lemma_insert_behind_members(init, e);
        let front = entries::insert_behind(init, e);
        assert forall|j: int| 0 <= j < after.len() implies shape::leaf_entry_ok(#[trigger] after[j], keys) by {
            if j < front.len() {
                assert(after[j] == front[j]);
            }
        }
        assert forall|j: int, k: int| 0 <= j < k < after.len() implies order::bytes_le(
            (#[trigger] after[j]).sort_key(),
            (#[trigger] after[k]).sort_key(),
        ) by {
            assert(after[j] == front[j]);
            if k < front.len() {
                assert(after[k] == front[k]);
            } else {
                assert(after[k] == es.last());
                assert(front.contains(front[j]));
                assert(front.to_multiset().count(front[j]) > 0);
                if front[j] != e {
                    assert(init.to_multiset().count(front[j]) > 0);
                    assert(init.contains(front[j]));
                    let m = choose|m: int| 0 <= m < init.len() && init[m] == front[j];
                    assert(es[m] == front[j]);
                    assert(order::bytes_le(es[m].sort_key(), es[es.len() - 1].sort_key()));
                }
            }
        }
    } else {
        assert(after =~= es.push(e));
        assert forall|j: int| 0 <= j < after.len() implies shape::leaf_entry_ok(#[trigger] after[j], keys) by {
            if j < es.len() {
                assert(after[j] == es[j]);
            }
        }
        assert forall|j: int, k: int| 0 <= j < k < after.len() implies order::bytes_le(
            (#[trigger] after[j]).sort_key(),
            (#[trigger] after[k]).sort_key(),
        ) by {
            assert(after[j] == es[j]);
            if k < es.len() {
                assert(after[k] == es[k]);
            } else {
                let last = es[es.len() - 1];
                order::lemma_not_le(e.sort_key(), last.sort_key());
                if j < es.len() - 1 {
                    assert(order::bytes_le(es[j].sort_key(), es[es.len() - 1].sort_key()));
                }
                order::lemma_le_transitive(es[j].sort_key(), last.sort_key(), e.sort_key());
            }
        }
    }
}

/// Sorted leaf entries are in order.
proof fn lemma_sorted_order(es: Seq<EntryView>, keys: KeySpace)
    requires
        forall|j: int| 0 <= j < es.len() ==> shape::leaf_entry_ok(#[trigger] es[j], keys),
    ensures
        shape::leaf_entries_ok(entries::stable_sorted(es), keys),
    decreases es.len(),
{
    if es.len() > 0 {
        let init = es.drop_last();
        assert forall|j: int| 0 <= j < init.len() implies shape::leaf_entry_ok(#[trigger] init[j], keys) by {
            assert(init[j] == es[j]);
        }
        lemma_sorted_order(init, keys);
        assert(shape::leaf_entry_ok(es[es.len() - 1], keys));
        lemma_insert_behind_order(entries::stable_sorted(init), es.last(), keys);
    }
}

/// What stands before the lower bound sorts before the entry, what stands there does not.
proof fn lemma_lower_bound(es: Seq<EntryView>, e: EntryView)
    ensures
        0 <= entries::lower_bound(es, e) <= es.len(),
        forall|j: int| 0 <= j < entries::lower_bound(es, e) ==> (#[trigger] es[j]).before(e),
        entries::lower_bound(es, e) < es.len() ==> !es[entries::lower_bound(es, e)].before(e),
    decreases es.len(),
{
    if es.len() > 0 && es[0].before(e) {
        let rest = es.drop_first();
        lemma_lower_bound(rest, e);
        assert forall|j: int| 0 <= j < entries::lower_bound(es, e) implies (#[trigger] es[j]).before(e) by {
            if j > 0 {
                assert(es[j] == rest[j - 1]);
            }
        }
    }
}

/// An entry inserted at its lower bound keeps the order.
pub proof fn lemma_placed_order(es: Seq<EntryView>, e: EntryView, keys: KeySpace)
    requires
        shape::leaf_entries_ok(es, keys),
        shape::leaf_entry_ok(e, keys),
    ensures
        0 <= entries::lower_bound(es, e) <= es.len(),
        shape::leaf_entries_ok(es.insert(entries::lower_bound(es, e), e), keys),
        es.insert(entries::lower_bound(es, e), e).to_multiset() == es.to_multiset().insert(e),
{
    broadcast use group_to_multiset_ensures;

    lemma_lower_bound(es, e);
    let pos = entries::lower_bound(es, e);
    let after = es.insert(pos, e);
    assert(after.remove(pos) =~= es);
    assert(after[pos] == e);
    assert(es.to_multiset() == after.to_multiset().remove(e));
    assert(after.contains(e));
    assert(after.to_multiset() =~= es.to_multiset().insert(e));
    assert forall|j: int| 0 <= j < after.len() implies shape::leaf_entry_ok(#[trigger] after[j], keys) by {
        if j < pos {
            assert(after[j] == es[j]);
        } else if j > pos {
            assert(after[j] == es[j - 1]);
        }
    }
    assert forall|j: int, k: int| 0 <= j < k < after.len() implies order::bytes_le(
        (#[trigger] after[j]).sort_key(),
        (#[trigger] after[k]).sort_key(),
    ) by {
        if k < pos {
            assert(after[j] == es[j] && after[k] == es[k]);
        } else if k == pos {
            assert(after[j] == es[j]);
            assert(shape::leaf_entry_ok(es[j], keys));
        } else if j < pos {
            assert(after[j] == es[j] && after[k] == es[k - 1]);
        } else if j == pos {
            assert(after[k] == es[k - 1]);
            assert(shape::leaf_entry_ok(es[pos], keys));
            order::lemma_not_le(es[pos].sort_key(), e.sort_key());
            if k - 1 > pos {
                assert(order::bytes_le(es[pos].sort_key(), es[k - 1].sort_key()));
            }
            order::lemma_le_transitive(e.sort_key(), es[pos].sort_key(), es[k - 1].sort_key());
        } else {
            assert(after[j] == es[j - 1] && after[k] == es[k - 1]);
        }
    }
}

/// Pages on which two indexes agree are read the same way.
proof fn lemma_agree(a: IndexView, b: IndexView, s: Shape, id: PageId)
    requires
        agree(a, b, id),
        shape::readable(a, s, id),
        b.meta_page_id == a.meta_page_id,
        b.pool.frames.len() >= a.pool.frames.len(),
    ensures
        shape::readable(b, s, id),
        b.header(id) == a.header(id),
        b.entries(id) == a.entries(id),
        shape::head(b, id) == shape::head(a, id),
        shape::list(b, id) == shape::list(a, id),
{
}

/// The contents of leaves on which two indexes agree are the same.
proof fn lemma_contents_agree(a: IndexView, b: IndexView, leaves: Seq<PageId>)
    requires
        forall|j: int| 0 <= j < leaves.len() ==> shape::list(b, #[trigger] leaves[j]) == shape::list(a, leaves[j]),
    ensures
        shape::contents(b, leaves) == shape::contents(a, leaves),
    decreases leaves.len(),
{
    if leaves.len() > 0 {
        let init = leaves.drop_last();
        assert forall|j: int| 0 <= j < init.len() implies shape::list(b, #[trigger] init[j]) == shape::list(a, init[j]) by {
            assert(init[j] == leaves[j]);
        }
        lemma_contents_agree(a, b, init);
        assert(shape::list(b, leaves[leaves.len() - 1]) == shape::list(a, leaves[leaves.len() - 1]));
    }
}

/// The contents around the `i`th leaf.
pub proof fn lemma_contents_around(t: IndexView, leaves: Seq<PageId>, i: int)
    requires
        0 <= i < leaves.len(),
    ensures
        shape::contents(t, leaves) == shape::contents(t, leaves.subrange(0, i)) + shape::list(t, leaves[i])
            + shape::contents(t, leaves.subrange(i + 1, leaves.len() as int)),
{
    let n = leaves.len() as int;
    assert(leaves =~= leaves.subrange(0, i) + leaves.subrange(i, n));
    laws::lemma_contents_add(t, leaves.subrange(0, i), leaves.subrange(i, n));
    laws::lemma_contents_from(t, leaves, i);
    let a = shape::contents(t, leaves.subrange(0, i));
    let b = shape::list(t, leaves[i]);
    let c = shape::contents(t, leaves.subrange(i + 1, n));
    assert(a + (b + c) =~= a + b + c);
}

/// Replacing the entries of one leaf by others in its range keeps the tree ordered.
pub proof fn lemma_leaf_replaced(t: IndexView, t2: IndexView, s: Shape, keys: KeySpace, i: int)
    requires
        shape::linked(t, s, keys),
        0 <= i < s.leaves.len(),
        t2.pool.frames.len() == t.pool.frames.len(),
        t2.meta_page_id == t.meta_page_id,
        forall|x: PageId| x != s.leaves[i] ==> #[trigger] agree(t, t2, x),
        t2.pool.frames[s.leaves[i].0 - 1].page.size <= MAX_PAGE_SIZE,
        t2.pool.frames[s.leaves[i].0 - 1].page.special.len() == INDEX_SPECIAL_LEN,
        t2.header(s.leaves[i]) is Ok,
        t2.entries(s.leaves[i]) is Ok,
        shape::leaf_ok(shape::head(t2, s.leaves[i]), shape::list(t2, s.leaves[i]), s, i, keys),
    ensures
        shape::linked(t2, s, keys),
        shape::contents(t2, s.leaves) == shape::contents(t, s.leaves.subrange(0, i)) + shape::list(t2, s.leaves[i])
            + shape::contents(t, s.leaves.subrange(i + 1, s.leaves.len() as int)),
        forall|j: int|
            0 <= j < s.leaves.len() && j != i ==> shape::list(t2, #[trigger] s.leaves[j]) == shape::list(t, s.leaves[j]),
{
    let id = s.leaves[i];
    let n = s.leaves.len() as int;
    assert(shape::readable(t, s, id));
    assert(agree(t, t2, t.meta_page_id));
    assert forall|x: PageId| s.low.dom().contains(x) implies #[trigger] shape::readable(t2, s, x) by {
        assert(shape::readable(t, s, x));
        if x != id {
            assert(agree(t, t2, x));
            lemma_agree(t, t2, s, x);
        }
    }
    assert forall|j: int| 0 <= j < n && j != i implies shape::list(t2, #[trigger] s.leaves[j]) == shape::list(
        t,
        s.leaves[j],
    ) && shape::head(t2, s.leaves[j]) == shape::head(t, s.leaves[j]) by {
        assert(s.leaves[j] != s.leaves[i]);
        assert(shape::readable(t, s, s.leaves[j]));
        assert(agree(t, t2, s.leaves[j]));
        lemma_agree(t, t2, s, s.leaves[j]);
    }
    assert forall|j: int| 0 <= j < n implies #[trigger] shape::leaf_ok(
        shape::head(t2, s.leaves[j]),
        shape::list(t2, s.leaves[j]),
        s,
        j,
        keys,
    ) by {
        assert(shape::leaf_ok(shape::head(t, s.leaves[j]), shape::list(t, s.leaves[j]), s, j, keys));
    }
    assert forall|x: PageId| s.low.dom().contains(x) && !s.leaves.contains(x) implies #[trigger] shape::internal_ok(
        shape::head(t2, x),
        shape::list(t2, x),
        s,
        x,
    ) by {
        assert(shape::readable(t, s, x));
        assert(s.leaves.contains(id));
        assert(agree(t, t2, x));
        lemma_agree(t, t2, s, x);
        assert(shape::internal_ok(shape::head(t, x), shape::list(t, x), s, x));
    }
    lemma_contents_around(t2, s.leaves, i);
    let a = s.leaves.subrange(0, i);
    let c = s.leaves.subrange(i + 1, n);
    assert forall|j: int| 0 <= j < a.len() implies shape::list(t2, #[trigger] a[j]) == shape::list(t, a[j]) by {
        assert(a[j] == s.leaves[j]);
    }
    assert forall|j: int| 0 <= j < c.len() implies shape::list(t2, #[trigger] c[j]) == shape::list(t, c[j]) by {
        assert(c[j] == s.leaves[i + 1 + j]);
    }
    lemma_contents_agree(t, t2, a);
    lemma_contents_agree(t, t2, c);
}

/// The `i`th leaf with other entries out of its range.
pub proof fn lemma_leaf_ok_entries(t: IndexView, s: Shape, keys: KeySpace, i: int, h2: HeaderView, es2: Seq<EntryView>)
    requires
        shape::linked(t, s, keys),
        0 <= i < s.leaves.len(),
        h2.kind == PAGE_LEAF_KIND,
        h2.right == shape::head(t, s.leaves[i]).right,
        h2.high_key == shape::head(t, s.leaves[i]).high_key,
        shape::leaf_entries_ok(es2, keys),
        shape::at_or_behind(es2, s.low[s.leaves[i]]),
        i + 1 < s.leaves.len() ==> shape::at_or_before(es2, s.low[s.leaves[i + 1]]),
    ensures
        shape::leaf_ok(h2, es2, s, i, keys),
{
    assert(shape::leaf_ok(shape::head(t, s.leaves[i]), shape::list(t, s.leaves[i]), s, i, keys));
}

/// An entry that is one of a list or the new one lies in the range of its leaf.
proof fn lemma_members_in_range(
    es: Seq<EntryView>,
    e: EntryView,
    all: Seq<EntryView>,
    low: Seq<u8>,
    high: Option<Seq<u8>>,
)
    requires
        all.to_multiset() == es.to_multiset().insert(e),
        shape::at_or_behind(es, low),
        order::bytes_le(low, e.sort_key()),
        high matches Some(h) ==> shape::at_or_before(es, h) && order::bytes_lt(e.sort_key(), h),
    ensures
        shape::at_or_behind(all, low),
        high matches Some(h) ==> shape::at_or_before(all, h),
{
    broadcast use group_to_multiset_ensures;

    assert forall|j: int| 0 <= j < all.len() implies order::bytes_le(low, (#[trigger] all[j]).sort_key()) && (high matches Some(
        h,
    ) ==> order::bytes_le(all[j].sort_key(), h)) by {
        assert(all.contains(all[j]));
        assert(all.to_multiset().count(all[j]) > 0);
        if all[j] != e {
            assert(es.to_multiset().count(all[j]) > 0);
            assert(es.contains(all[j]));
            let m = choose|m: int| 0 <= m < es.len() && es[m] == all[j];
            assert(order::bytes_le(low, es[m].sort_key()));
        }
    }
}

/// The shape after page `id` is put right behind page `at`: it takes the rank of `at`, and `at`
/// and everything above moves up by one.
pub open spec fn grown_shape(s: Shape, at: PageId, id: PageId, low: Seq<u8>, leaves: Seq<PageId>) -> Shape {
    Shape {
        leaves,
        low: s.low.insert(id, low),
        rank: |x: PageId|
            if x == id {
                (s.rank)(at)
            } else if (s.rank)(x) >= (s.rank)(at) {
                (s.rank)(x) + 1
            } else {
                (s.rank)(x)
            },
    }
}

/// Links between the pages of the old shape are links of the new one.
proof fn lemma_link_transfer(s: Shape, at: PageId, id: PageId, low: Seq<u8>, leaves: Seq<PageId>, from: PageId, to: PageId, fence: Seq<u8>)
    requires
        !s.low.dom().contains(id),
        s.low.dom().contains(from),
        shape::link_ok(s, from, to, fence),
    ensures
        shape::link_ok(grown_shape(s, at, id, low, leaves), from, to, fence),
        to != id,
        grown_shape(s, at, id, low, leaves).low[to] == s.low[to],
{
}

/// An internal page of the old shape is one of the new shape.
proof fn lemma_internal_transfer(
    h: HeaderView,
    es: Seq<EntryView>,
    s: Shape,
    at: PageId,
    id: PageId,
    low: Seq<u8>,
    leaves: Seq<PageId>,
    x: PageId,
)
    requires
        !s.low.dom().contains(id),
        s.low.dom().contains(x),
        shape::internal_ok(h, es, s, x),
    ensures
        shape::internal_ok(h, es, grown_shape(s, at, id, low, leaves), x),
{
    let s2 = grown_shape(s, at, id, low, leaves);
    lemma_link_transfer(s, at, id, low, leaves, x, h.left->0, s.low[x]);
    assert forall|j: int| 0 <= j < es.len() implies shape::child_entry_ok(#[trigger] es[j], s2, x) by {
        assert(shape::child_entry_ok(es[j], s, x));
        lemma_link_transfer(s, at, id, low, leaves, x, es[j]->child, es[j]->separator);
    }
    if h.high_key.len() > 0 {
        lemma_link_transfer(s, at, id, low, leaves, x, h.right->0, h.high_key);
    }
}

/// What a leaf split leaves behind.
pub open spec fn leaf_was_split(
    t: IndexView,
    t2: IndexView,
    s: Shape,
    keys: KeySpace,
    i: int,
    id: PageId,
    separator: Seq<u8>,
) -> bool {
    let at = s.leaves[i];
    let old_head = shape::head(t, at);
    &&& 0 <= i < s.leaves.len()
    &&& t2.pool.frames.len() == t.pool.frames.len() + 1
    &&& t2.meta_page_id == t.meta_page_id
    &&& !t.pool.has(id)
    &&& t2.pool.has(id)
    &&& forall|x: PageId| t.pool.has(x) && x != at ==> #[trigger] agree(t, t2, x)
    &&& t2.pool.frames[at.0 - 1].page.size <= MAX_PAGE_SIZE
    &&& t2.pool.frames[id.0 - 1].page.size <= MAX_PAGE_SIZE
    &&& t2.pool.frames[at.0 - 1].page.special.len() == INDEX_SPECIAL_LEN
    &&& t2.pool.frames[id.0 - 1].page.special.len() == INDEX_SPECIAL_LEN
    &&& t2.header(at) is Ok && t2.entries(at) is Ok && t2.header(id) is Ok && t2.entries(id) is Ok
    &&& shape::head(t2, at).kind == PAGE_LEAF_KIND
    &&& shape::head(t2, at).level == 0
    &&& shape::head(t2, at).index_id == t.desc.index_id
    &&& shape::head(t2, at).right == Some(id)
    &&& shape::head(t2, at).high_key == separator
    &&& shape::head(t2, id).kind == PAGE_LEAF_KIND
    &&& shape::head(t2, id).level == 0
    &&& shape::head(t2, id).index_id == t.desc.index_id
    &&& shape::head(t2, id).right == old_head.right
    &&& shape::head(t2, id).high_key == old_head.high_key
    &&& shape::leaf_entries_ok(shape::list(t2, at), keys)
    &&& shape::leaf_entries_ok(shape::list(t2, id), keys)
    &&& shape::at_or_behind(shape::list(t2, at), s.low[at])
    &&& shape::at_or_before(shape::list(t2, at), separator)
    &&& shape::at_or_behind(shape::list(t2, id), separator)
    &&& separator.len() > 0
    &&& order::bytes_le(s.low[at], separator)
    &&& i + 1 < s.leaves.len() ==> {
        &&& shape::at_or_before(shape::list(t2, id), s.low[s.leaves[i + 1]])
        &&& order::bytes_le(separator, s.low[s.leaves[i + 1]])
    }
}

/// A leaf split keeps the tree ordered.
#[verifier::spinoff_prover]
pub proof fn lemma_leaf_split(
    t: IndexView,
    t2: IndexView,
    s: Shape,
    keys: KeySpace,
    i: int,
    id: PageId,
    separator: Seq<u8>,
)
    requires
        shape::linked(t, s, keys),
        leaf_was_split(t, t2, s, keys, i, id, separator),
    ensures
        shape::linked(t2, grown_shape(s, s.leaves[i], id, separator, s.leaves.insert(i + 1, id)), keys),
{
    let at = s.leaves[i];
    let n = s.leaves.len() as int;
    let leaves2 = s.leaves.insert(i + 1, id);
    let s2 = grown_shape(s, at, id, separator, leaves2);
    assert(shape::readable(t, s, at));
    assert(!s.low.dom().contains(id)) by {
        if s.low.dom().contains(id) {
            assert(shape::readable(t, s, id));
        }
    }
    assert(agree(t, t2, t.meta_page_id));
    assert(shape::readable(t, s, shape::root(t)));
    assert forall|x: PageId| s2.low.dom().contains(x) implies #[trigger] shape::readable(t2, s2, x) by {
        if x != id {
            assert(shape::readable(t, s, x));
            if x != at {
                assert(agree(t, t2, x));
            }
        }
    }
    assert forall|j: int| 0 <= j < leaves2.len() implies s2.low.dom().contains(#[trigger] leaves2[j]) by {
        if j <= i {
            assert(leaves2[j] == s.leaves[j]);
        } else if j > i + 1 {
            assert(leaves2[j] == s.leaves[j - 1]);
        }
    }
    assert(leaves2.no_duplicates()) by {
        assert forall|a: int, b: int| 0 <= a < b < leaves2.len() implies leaves2[a] != leaves2[b] by {
            let pa = if a <= i {
                a
            } else {
                a - 1
            };
            let pb = if b <= i {
                b
            } else {
                b - 1
            };
            if a != i + 1 {
                assert(leaves2[a] == s.leaves[pa]);
            }
            if b != i + 1 {
                assert(leaves2[b] == s.leaves[pb]);
            }
            if a != i + 1 && b != i + 1 {
                assert(pa != pb);
            }
        }
    }
    assert forall|j: int| 0 <= j < leaves2.len() implies #[trigger] shape::leaf_ok(
        shape::head(t2, leaves2[j]),
        shape::list(t2, leaves2[j]),
        s2,
        j,
        keys,
    ) by {
        lemma_leaf_split_at(t, t2, s, keys, i, id, separator, j);
    }
    assert forall|x: PageId| s2.low.dom().contains(x) && !leaves2.contains(x) implies #[trigger] shape::internal_ok(
        shape::head(t2, x),
        shape::list(t2, x),
        s2,
        x,
    ) by {
        assert(leaves2[i + 1] == id);
        assert(x != id);
        assert(leaves2[i] == at);
        assert(x != at);
        if s.leaves.contains(x) {
            let j = choose|j: int| 0 <= j < n && s.leaves[j] == x;
            if j <= i {
                assert(leaves2[j] == x);
            } else {
                assert(leaves2[j + 1] == x);
            }
        }
        assert(shape::readable(t, s, x));
        assert(agree(t, t2, x));
        lemma_agree(t, t2, s, x);
        assert(shape::internal_ok(shape::head(t, x), shape::list(t, x), s, x));
        lemma_internal_transfer(shape::head(t, x), shape::list(t, x), s, at, id, separator, leaves2, x);
    }
}

proof fn lemma_leaf_split_at(
    t: IndexView,
    t2: IndexView,
    s: Shape,
    keys: KeySpace,
    i: int,
    id: PageId,
    separator: Seq<u8>,
    j: int,
)
    requires
        shape::linked(t, s, keys),
        leaf_was_split(t, t2, s, keys, i, id, separator),
        !s.low.dom().contains(id),
        0 <= j < s.leaves.len() + 1,
    ensures
        ({
            let leaves2 = s.leaves.insert(i + 1, id);
            shape::leaf_ok(
                shape::head(t2, leaves2[j]),
                shape::list(t2, leaves2[j]),
                grown_shape(s, s.leaves[i], id, separator, leaves2),
                j,
                keys,
            )
        }),
{
    let at = s.leaves[i];
    let n = s.leaves.len() as int;
    let leaves2 = s.leaves.insert(i + 1, id);
    let s2 = grown_shape(s, at, id, separator, leaves2);
    assert(leaves2[i] == at);
    assert(leaves2[i + 1] == id);
    assert(shape::leaf_ok(shape::head(t, at), shape::list(t, at), s, i, keys));
    if j == i {
    } else if j == i + 1 {
        if i + 1 < n {
            assert(leaves2[i + 2] == s.leaves[i + 1]);
        }
    } else {
        let p = if j < i {
            j
        } else {
            j - 1
        };
        let x = s.leaves[p];
        assert(leaves2[j] == x);
        assert(s.leaves[p] != s.leaves[i]);
        assert(shape::readable(t, s, x));
        assert(agree(t, t2, x));
        lemma_agree(t, t2, s, x);
        assert(shape::leaf_ok(shape::head(t, x), shape::list(t, x), s, p, keys));
        if p + 1 < n {
            assert(leaves2[j + 1] == s.leaves[p + 1]);
        }
    }
}

/// A part of a list of leaf entries.
pub proof fn lemma_part_ok(all: Seq<EntryView>, keys: KeySpace, a: int, b: int)
    requires
        shape::leaf_entries_ok(all, keys),
        0 <= a <= b <= all.len(),
    ensures
        shape::leaf_entries_ok(all.subrange(a, b), keys),
{
    let part = all.subrange(a, b);
    assert forall|j: int| 0 <= j < part.len() implies shape::leaf_entry_ok(#[trigger] part[j], keys) by {
        assert(part[j] == all[a + j]);
    }
    assert forall|j: int, k: int| 0 <= j < k < part.len() implies order::bytes_le(
        (#[trigger] part[j]).sort_key(),
        (#[trigger] part[k]).sort_key(),
    ) by {
        assert(part[j] == all[a + j] && part[k] == all[a + k]);
    }
}

/// The separator of a leaf split parts the entries: the left ones are before it, the right ones are
/// not.
pub proof fn lemma_separator_parts(all: Seq<EntryView>, keys: KeySpace, low: Seq<u8>, high: Option<Seq<u8>>)
    requires
        keys.ordered(),
        shape::leaf_entries_ok(all, keys),
        all.len() >= 2,
        shape::at_or_behind(all, low),
        high matches Some(h) ==> shape::at_or_before(all, h),
    ensures
        ({
            let split = entries::leaf_split(all);
            let left = all.subrange(0, split);
            let right = all.subrange(split, all.len() as int);
            let separator = model::leaf_separator(left, right);
            &&& 0 < split < all.len()
            &&& shape::leaf_entries_ok(left, keys)
            &&& shape::leaf_entries_ok(right, keys)
            &&& shape::at_or_behind(left, low)
            &&& shape::at_or_before(left, separator)
            &&& shape::at_or_behind(right, separator)
            &&& separator.len() > 0
            &&& order::bytes_le(low, separator)
            &&& high matches Some(h) ==> shape::at_or_before(right, h) && order::bytes_le(separator, h)
            &&& entries::key_starts(all, split) ==> keys.contains(separator) && separator == right[0].logical()
        }),
{
    entries::law_leaf_split(all);
    let n = all.len() as int;
    let split = entries::leaf_split(all);
    let left = all.subrange(0, split);
    let right = all.subrange(split, n);
    let separator = model::leaf_separator(left, right);
    lemma_part_ok(all, keys, 0, split);
    lemma_part_ok(all, keys, split, n);
    let last = all[split - 1];
    let first = all[split];
    assert(left.last() == last);
    assert(right[0] == first);
    assert(shape::leaf_entry_ok(last, keys));
    assert(shape::leaf_entry_ok(first, keys));
    order::lemma_prefix_first(first->logical_key, key::row_suffix(first->row));
    assert(order::bytes_le(separator, first.sort_key()));
    assert(separator.len() > 0) by {
        key::lemma_row_suffix_len(first->row);
        if entries::key_starts(all, split) && separator.len() == 0 {
            assert(separator =~= Seq::<u8>::empty());
            order::lemma_empty_first(last->logical_key);
            laws::lemma_key_order(keys, first->logical_key, first->row, last->logical_key, last->row);
            assert(order::bytes_le(all[split - 1].sort_key(), all[split].sort_key()));
            order::lemma_not_le(first.sort_key(), last.sort_key());
        }
    }
    assert(order::bytes_le(last.sort_key(), separator)) by {
        assert(order::bytes_le(all[split - 1].sort_key(), all[split].sort_key()));
        if entries::key_starts(all, split) {
            assert(order::bytes_le(all[split - 1].sort_key(), all[split].sort_key()));
            laws::lemma_key_order(keys, last->logical_key, last->row, first->logical_key, first->row);
            laws::lemma_key_order(keys, first->logical_key, first->row, last->logical_key, last->row);
            order::lemma_not_le(first.sort_key(), last.sort_key());
        }
    }
    assert forall|j: int| 0 <= j < left.len() implies order::bytes_le((#[trigger] left[j]).sort_key(), separator)
        && order::bytes_le(low, left[j].sort_key()) by {
        assert(left[j] == all[j]);
        if j < split - 1 {
            assert(order::bytes_le(all[j].sort_key(), all[split - 1].sort_key()));
            order::lemma_le_transitive(all[j].sort_key(), last.sort_key(), separator);
        }
    }
    assert forall|j: int| 0 <= j < right.len() implies order::bytes_le(separator, (#[trigger] right[j]).sort_key()) by {
        assert(right[j] == all[split + j]);
        if j > 0 {
            assert(order::bytes_le(all[split].sort_key(), all[split + j].sort_key()));
            order::lemma_le_transitive(separator, first.sort_key(), all[split + j].sort_key());
        }
    }
    assert(order::bytes_le(low, left[0].sort_key()));
    order::lemma_le_transitive(low, left[0].sort_key(), separator);
    if high is Some {
        let h = high->0;
        assert forall|j: int| 0 <= j < right.len() implies order::bytes_le((#[trigger] right[j]).sort_key(), h) by {
            assert(right[j] == all[split + j]);
        }
        assert(order::bytes_le(all[split].sort_key(), h));
        order::lemma_le_transitive(separator, first.sort_key(), h);
    }
}

/// What fits on a page is no larger than the page's room.
proof fn lemma_fits(page: PageView, leaf: bool, h: HeaderView, es: Seq<EntryView>)
    requires
        all_of_kind(es, leaf),
        node::rewritten(page, leaf, h, es).1 is Ok,
    ensures
        entries::required_len(es) <= IndexView::capacity(page),
{
    let blank = page.blank(
        node::node_page_kind(leaf),
        page.page_id,
        page.rel_id,
        crate::format::PageGeneration(1),
        node::INDEX_SPECIAL_LEN as nat,
    );
    let headed = PageView { special: h.special(), ..blank };
    node::lemma_special_len(h);
    lemma_filled_used(headed, node::cells_of(es, leaf));
    lemma_required_len(es, leaf);
}

proof fn lemma_filled_used(page: PageView, cells: Seq<Seq<u8>>)
    requires
        node::filled(page, cells).1 is Ok,
        page.used() <= page.size,
        page.cells.len() == 0,
    ensures
        node::filled(page, cells).0.cells == cells,
        node::filled(page, cells).0.size == page.size,
        node::filled(page, cells).0.special == page.special,
        page.used() + crate::format::page::cells_len(cells) <= page.size,
    decreases cells.len(),
{
    if cells.len() == 0 {
        assert(page.cells =~= cells);
    } else {
        lemma_filled_used(page, cells.drop_last());
        assert(cells.drop_last().push(cells.last()) =~= cells);
        assert(crate::format::page::cells_len(page.cells) == 0);
    }
}

pub proof fn lemma_required_len(es: Seq<EntryView>, leaf: bool)
    requires
        all_of_kind(es, leaf),
    ensures
        entries::required_len(es) == crate::format::page::cells_len(node::cells_of(es, leaf)),
    decreases es.len(),
{
    if es.len() > 0 {
        let init = es.drop_last();
        assert forall|j: int| 0 <= j < init.len() implies ((#[trigger] init[j]) is Leaf) == leaf by {
            assert(init[j] == es[j]);
        }
        lemma_required_len(init, leaf);
        assert((es[es.len() - 1] is Leaf) == leaf);
        cell::lemma_cell_len(es.last());
        let cells = node::cells_of(es, leaf);
        assert(cells.drop_last() =~= node::cells_of(init, leaf));
    }
}

/// A shape with the same leaves and more internal pages, in which all old links still hold.
pub open spec fn extends(s: Shape, s2: Shape) -> bool {
    &&& s2.leaves == s.leaves
    &&& forall|x: PageId| #[trigger] s.low.dom().contains(x) ==> s2.low.dom().contains(x) && s2.low[x] == s.low[x]
    &&& forall|x: PageId, y: PageId|
        #![trigger s.low.dom().contains(x), s.low.dom().contains(y)]
        s.low.dom().contains(x) && s.low.dom().contains(y) && (s.rank)(x) < (s.rank)(y) ==> (s2.rank)(x) < (s2.rank)(y)
}

/// The leaves say the same in two indexes.
pub open spec fn same_leaves(t: IndexView, t2: IndexView, s: Shape) -> bool {
    forall|j: int| 0 <= j < s.leaves.len() ==> shape::list(t2, #[trigger] s.leaves[j]) == shape::list(t, s.leaves[j])
}

/// Changing internal pages keeps the tree ordered if their links hold.
#[verifier::spinoff_prover]
proof fn lemma_internal_change(t: IndexView, t2: IndexView, s: Shape, s2: Shape, keys: KeySpace, changed: Set<PageId>)
    requires
        shape::linked(t, s, keys),
        extends(s, s2),
        t2.meta_page_id == t.meta_page_id,
        t2.pool.frames.len() >= t.pool.frames.len(),
        t2.meta() is Ok,
        s2.low.dom().contains(shape::root(t2)),
        s2.low[shape::root(t2)] == Seq::<u8>::empty(),
        forall|x: PageId| #[trigger] s2.low.dom().contains(x) ==> s.low.dom().contains(x) || changed.contains(x),
        forall|x: PageId| #[trigger] s2.low.dom().contains(x) ==> 0 <= (s2.rank)(x) < t2.pool.frames.len(),
        forall|x: PageId| #[trigger]
            changed.contains(x) ==> {
                &&& s2.low.dom().contains(x)
                &&& !s.leaves.contains(x)
                &&& shape::readable(t2, s2, x)
                &&& shape::internal_ok(shape::head(t2, x), shape::list(t2, x), s2, x)
            },
        forall|x: PageId| s.low.dom().contains(x) && !changed.contains(x) ==> #[trigger] agree(t, t2, x),
    ensures
        shape::linked(t2, s2, keys),
        same_leaves(t, t2, s),
{
    assert forall|x: PageId| s2.low.dom().contains(x) implies #[trigger] shape::readable(t2, s2, x) by {
        if !changed.contains(x) {
            assert(shape::readable(t, s, x));
            assert(agree(t, t2, x));
        }
    }
    assert forall|j: int| 0 <= j < s.leaves.len() implies #[trigger] shape::leaf_ok(
        shape::head(t2, s2.leaves[j]),
        shape::list(t2, s2.leaves[j]),
        s2,
        j,
        keys,
    ) by {
        let x = s.leaves[j];
        assert(s.low.dom().contains(x));
        assert(shape::readable(t, s, x));
        assert(s.leaves.contains(x));
        assert(agree(t, t2, x));
        lemma_agree(t, t2, s, x);
        assert(shape::leaf_ok(shape::head(t, x), shape::list(t, x), s, j, keys));
        if j + 1 < s.leaves.len() {
            assert(s.low.dom().contains(s.leaves[j + 1]));
        }
    }
    assert forall|j: int| 0 <= j < s.leaves.len() implies shape::list(t2, #[trigger] s.leaves[j]) == shape::list(
        t,
        s.leaves[j],
    ) by {
        let x = s.leaves[j];
        assert(s.low.dom().contains(x));
        assert(shape::readable(t, s, x));
        assert(s.leaves.contains(x));
        assert(agree(t, t2, x));
        lemma_agree(t, t2, s, x);
    }
    assert forall|x: PageId| s2.low.dom().contains(x) && !s2.leaves.contains(x) implies #[trigger] shape::internal_ok(
        shape::head(t2, x),
        shape::list(t2, x),
        s2,
        x,
    ) by {
        if !changed.contains(x) {
            assert(shape::readable(t, s, x));
            assert(agree(t, t2, x));
            lemma_agree(t, t2, s, x);
            let h = shape::head(t, x);
            let es = shape::list(t, x);
            assert(shape::internal_ok(h, es, s, x));
            assert(s.low.dom().contains(h.left->0));
            assert forall|j: int| 0 <= j < es.len() implies shape::child_entry_ok(#[trigger] es[j], s2, x) by {
                assert(shape::child_entry_ok(es[j], s, x));
                assert(s.low.dom().contains(es[j]->child));
            }
            if h.high_key.len() > 0 {
                assert(s.low.dom().contains(h.right->0));
            }
        }
    }
}

/// A header that was read names no page by the code for "no page".
pub proof fn lemma_header_links(t: IndexView, id: PageId)
    requires
        t.header(id) is Ok,
    ensures
        shape::head(t, id).left != Some(PageId(NO_PAGE)),
        shape::head(t, id).right != Some(PageId(NO_PAGE)),
{
}

/// Pointing the meta page to another root changes no other page.
pub proof fn lemma_set_root(t: IndexView, root: PageId, level: u16, tx_id: TxId)
    requires
        t.meta() is Ok,
        t.set_root(root, level, tx_id).1 is Ok,
    ensures
        ({
            let after = t.set_root(root, level, tx_id).0;
            &&& after.pool.frames.len() == t.pool.frames.len()
            &&& after.pool.page_size == t.pool.page_size
            &&& after.meta_page_id == t.meta_page_id
            &&& after.desc == t.desc
            &&& after.meta() is Ok
            &&& shape::root(after) == root
            &&& after.meta()->Ok_0.root_level == level
            &&& after.meta()->Ok_0.index_id == t.meta()->Ok_0.index_id
            &&& forall|id: PageId| id != t.meta_page_id ==> #[trigger] agree(t, after, id)
        }),
{
    let meta = t.meta()->Ok_0;
    let page = t.pool.frames[t.meta_page_id.0 - 1].page;
    let next = MetaHeader { root_page_id: root, root_level: level, ..meta };
    node::law_meta_round_trips(next, page.special.len() as int);
    let written = t.with_pool(
        t.pool.put(t.meta_page_id, PageView { special: next.special(page.special.len() as int), ..page }),
    );
    lemma_recorded(written, t.meta_page_id, tx_id);
    let after = t.set_root(root, level, tx_id).0;
    assert(agree(written, after, t.meta_page_id));
    assert forall|id: PageId| id != t.meta_page_id implies #[trigger] agree(t, after, id) by {
        assert(agree(written, after, id));
        if t.pool.has(id) {
            assert(written.pool.frames[id.0 - 1] == t.pool.frames[id.0 - 1]);
        }
    }
}

/// The shape with a new root on top.
spec fn topped(s: Shape, id: PageId, count: int) -> Shape {
    Shape {
        leaves: s.leaves,
        low: s.low.insert(id, Seq::empty()),
        rank: |x: PageId|
            if x == id {
                count
            } else {
                (s.rank)(x)
            },
    }
}

/// A new root above two pages keeps the tree ordered.
proof fn lemma_new_root(
    t: IndexView,
    s: Shape,
    keys: KeySpace,
    index_id: IndexId,
    left: PageId,
    right: PageId,
    separator: Seq<u8>,
    level: u16,
    tx_id: TxId,
) -> (s2: Shape)
    requires
        shape::linked(t, s, keys),
        t.pool.page_size <= MAX_PAGE_SIZE,
        s.low.dom().contains(left),
        s.low[left] == Seq::<u8>::empty(),
        s.low.dom().contains(right),
        order::bytes_le(s.low[right], separator),
        t.new_root(index_id, left, right, separator, level, tx_id).1 is Ok,
    ensures
        ({
            let t2 = t.new_root(index_id, left, right, separator, level, tx_id).0;
            &&& shape::linked(t2, s2, keys)
            &&& extends(s, s2)
            &&& same_leaves(t, t2, s)
            &&& t2.pool.page_size == t.pool.page_size
            &&& t2.meta_page_id == t.meta_page_id
            &&& t2.desc == t.desc
        }),
{
    let id = t.pool.next_id();
    let g = t.with_pool(t.pool.grown(PageKind::BtreeInternal, t.desc.rel_id));
    lemma_grown(t, PageKind::BtreeInternal);
    let h = HeaderView {
        kind: PAGE_INTERNAL_KIND,
        level,
        index_id,
        left: Some(left),
        right: None,
        high_key: Seq::empty(),
    };
    let es = seq![EntryView::Internal { separator, child: right }];
    assert(shape::readable(t, s, left));
    assert(shape::readable(t, s, right));
    assert(left.0 != NO_PAGE);
    let w = g.rewrite(id, false, h, es).0;
    lemma_rewrite(g, id, false, h, es);
    let r = w.recorded(id, tx_id);
    lemma_recorded(w, id, tx_id);
    let t2 = r.set_root(id, level, tx_id).0;
    assert(agree(t, g, t.meta_page_id));
    assert(agree(g, w, t.meta_page_id));
    assert(agree(w, r, t.meta_page_id));
    assert(agree(w, r, id));
    lemma_set_root(r, id, level, tx_id);
    assert(agree(r, t2, id));
    let s2 = topped(s, id, t.pool.frames.len() as int);
    assert(!s.low.dom().contains(id)) by {
        if s.low.dom().contains(id) {
            assert(shape::readable(t, s, id));
        }
    }
    assert forall|x: PageId| #[trigger] s2.low.dom().contains(x) implies 0 <= (s2.rank)(x) < t2.pool.frames.len() by {
        if x != id {
            assert(shape::readable(t, s, x));
        }
    }
    assert(shape::child_entry_ok(es[0], s2, id));
    assert(shape::internal_ok(shape::head(t2, id), shape::list(t2, id), s2, id));
    assert(!s.leaves.contains(id));
    let changed = set![id];
    assert forall|x: PageId| s.low.dom().contains(x) && !changed.contains(x) implies #[trigger] agree(t, t2, x) by {
        assert(shape::readable(t, s, x));
        assert(agree(t, g, x));
        assert(agree(g, w, x));
        assert(agree(w, r, x));
        assert(agree(r, t2, x));
    }
    assert(extends(s, s2)) by {
        assert forall|x: PageId, y: PageId|
            #![trigger s.low.dom().contains(x), s.low.dom().contains(y)]
            s.low.dom().contains(x) && s.low.dom().contains(y) && (s.rank)(x) < (s.rank)(y) implies (s2.rank)(x) < (
        s2.rank)(y) by {
            assert(x != id && y != id);
        }
    }
    lemma_internal_change(t, t2, s, s2, keys, changed);
    s2
}

/// The entries of an internal page with one more link.
proof fn lemma_more_children(es: Seq<EntryView>, s: Shape, parent: PageId, separator: Seq<u8>, right: PageId)
    requires
        forall|j: int| 0 <= j < es.len() ==> shape::child_entry_ok(#[trigger] es[j], s, parent),
        shape::link_ok(s, parent, right, separator),
    ensures
        ({
            let all = entries::stable_sorted(es.push(EntryView::Internal { separator, child: right }));
            &&& all_of_kind(all, false)
            &&& forall|j: int| 0 <= j < all.len() ==> shape::child_entry_ok(#[trigger] all[j], s, parent)
        }),
{
    let more = es.push(EntryView::Internal { separator, child: right });
    let all = entries::stable_sorted(more);
    lemma_sorted_members(more);
    assert forall|j: int| 0 <= j < all.len() implies shape::child_entry_ok(#[trigger] all[j], s, parent) by {
        assert(all.contains(all[j]));
        assert(more.contains(all[j]));
        let m = choose|m: int| 0 <= m < more.len() && more[m] == all[j];
        if m < es.len() {
            assert(shape::child_entry_ok(es[m], s, parent));
        }
    }
    assert forall|j: int| 0 <= j < all.len() implies ((#[trigger] all[j]) is Leaf) == false by {
        assert(shape::child_entry_ok(all[j], s, parent));
    }
}

/// An ordered index stays ordered when the file grows.
proof fn lemma_grown_linked(t: IndexView, s: Shape, keys: KeySpace, kind: PageKind)
    requires
        shape::linked(t, s, keys),
        t.pool.can_grow(),
        t.pool.page_size <= MAX_PAGE_SIZE,
    ensures
        shape::linked(t.with_pool(t.pool.grown(kind, t.desc.rel_id)), s, keys),
        same_leaves(t, t.with_pool(t.pool.grown(kind, t.desc.rel_id)), s),
{
    let g = t.with_pool(t.pool.grown(kind, t.desc.rel_id));
    lemma_grown(t, kind);
    assert(agree(t, g, t.meta_page_id));
    assert forall|x: PageId| s.low.dom().contains(x) && !Set::<PageId>::empty().contains(x) implies #[trigger] agree(
        t,
        g,
        x,
    ) by {
        assert(shape::readable(t, s, x));
    }
    assert forall|x: PageId| #[trigger] s.low.dom().contains(x) implies 0 <= (s.rank)(x) < g.pool.frames.len() by {
        assert(shape::readable(t, s, x));
    }
    lemma_internal_change(t, g, s, s, keys, Set::empty());
}

/// Splitting an internal page keeps the tree ordered, and the new page starts at or before its
/// separator.
#[verifier::spinoff_prover]
#[verifier::rlimit(40)]
proof fn lemma_split_internal(
    t: IndexView,
    s: Shape,
    keys: KeySpace,
    index_id: IndexId,
    parent: PageId,
    all: Seq<EntryView>,
    tx_id: TxId,
) -> (s2: Shape)
    requires
        shape::linked(t, s, keys),
        t.pool.page_size <= MAX_PAGE_SIZE,
        s.low.dom().contains(parent),
        !s.leaves.contains(parent),
        all_of_kind(all, false),
        forall|j: int| 0 <= j < all.len() ==> shape::child_entry_ok(#[trigger] all[j], s, parent),
        t.split_internal(index_id, parent, shape::head(t, parent), all, tx_id).1 is Ok,
    ensures
        ({
            let (t2, r) = t.split_internal(index_id, parent, shape::head(t, parent), all, tx_id);
            let (id, separator) = r->Ok_0;
            &&& shape::linked(t2, s2, keys)
            &&& s2.low == s.low.insert(id, s.low[all[all.len() as int / 2]->child])
            &&& extends(s, s2)
            &&& same_leaves(t, t2, s)
            &&& s2.low.dom().contains(id)
            &&& order::bytes_le(s2.low[id], separator)
            &&& (s2.rank)(id) < (s2.rank)(parent)
            &&& t2.pool.page_size == t.pool.page_size
            &&& t2.meta_page_id == t.meta_page_id
            &&& t2.desc == t.desc
        }),
{
    let h = shape::head(t, parent);
    let n = all.len() as int;
    let split = n / 2;
    let left = all.subrange(0, split);
    let right = all.subrange(split, n);
    let id = t.pool.next_id();
    let g = t.with_pool(t.pool.grown(PageKind::BtreeInternal, t.desc.rel_id));
    lemma_grown(t, PageKind::BtreeInternal);
    lemma_grown_linked(t, s, keys, PageKind::BtreeInternal);
    assert(shape::readable(t, s, parent));
    assert(shape::internal_ok(h, shape::list(t, parent), s, parent));
    lemma_header_links(t, parent);
    assert(agree(t, g, parent));
    let child = right[0]->child;
    assert(right[0] == all[split]);
    assert(shape::child_entry_ok(all[split], s, parent));
    assert(shape::readable(t, s, child));
    let separator = right[0]->separator;
    let h1 = HeaderView { index_id, right: Some(id), high_key: separator, ..h };
    let h2 = HeaderView { index_id, left: Some(child), ..h };
    assert(child.0 != NO_PAGE);
    assert(all_of_kind(left, false)) by {
        assert forall|j: int| 0 <= j < left.len() implies ((#[trigger] left[j]) is Leaf) == false by {
            assert(left[j] == all[j]);
        }
    }
    assert(all_of_kind(right, false)) by {
        assert forall|j: int| 0 <= j < right.len() implies ((#[trigger] right[j]) is Leaf) == false by {
            assert(right[j] == all[split + j]);
        }
    }
    let one = g.rewrite(parent, false, h1, left).0;
    lemma_rewrite(g, parent, false, h1, left);
    assert(agree(g, one, id));
    let two = one.rewrite(id, false, h2, right).0;
    lemma_rewrite(one, id, false, h2, right);
    assert(agree(one, two, parent));
    let three = two.recorded(parent, tx_id);
    lemma_recorded(two, parent, tx_id);
    let t2 = three.recorded(id, tx_id);
    lemma_recorded(three, id, tx_id);
    assert(agree(two, three, parent) && agree(three, t2, parent));
    assert(agree(two, three, id) && agree(three, t2, id));
    let s2 = grown_shape(s, parent, id, s.low[child], s.leaves);
    assert(!s.low.dom().contains(id)) by {
        if s.low.dom().contains(id) {
            assert(shape::readable(t, s, id));
        }
    }
    assert(extends(s, s2));
    assert(shape::internal_ok(h1, left, s2, parent)) by {
        lemma_link_transfer(s, parent, id, s.low[child], s.leaves, parent, h.left->0, s.low[parent]);
        assert forall|j: int| 0 <= j < left.len() implies shape::child_entry_ok(#[trigger] left[j], s2, parent) by {
            assert(left[j] == all[j]);
            assert(shape::child_entry_ok(all[j], s, parent));
            lemma_link_transfer(s, parent, id, s.low[child], s.leaves, parent, all[j]->child, all[j]->separator);
        }
    }
    assert(shape::internal_ok(h2, right, s2, id)) by {
        assert forall|j: int| 0 <= j < right.len() implies shape::child_entry_ok(#[trigger] right[j], s2, id) by {
            assert(right[j] == all[split + j]);
            assert(shape::child_entry_ok(all[split + j], s, parent));
        }
    }
    let changed = set![parent, id];
    assert forall|x: PageId| s.low.dom().contains(x) && !changed.contains(x) implies #[trigger] agree(t, t2, x) by {
        assert(shape::readable(t, s, x));
        assert(agree(t, g, x) && agree(g, one, x) && agree(one, two, x) && agree(two, three, x) && agree(three, t2, x));
    }
    assert(agree(t, t2, t.meta_page_id)) by {
        let x = t.meta_page_id;
        assert(agree(t, g, x) && agree(g, one, x) && agree(one, two, x) && agree(two, three, x) && agree(three, t2, x));
    }
    assert(shape::readable(t, s, shape::root(t)));
    assert forall|x: PageId| #[trigger] s2.low.dom().contains(x) implies 0 <= (s2.rank)(x) < t2.pool.frames.len() by {
        if x != id {
            assert(shape::readable(t, s, x));
        }
    }
    assert(!s.leaves.contains(id));
    lemma_internal_change(t, t2, s, s2, keys, changed);
    s2
}

/// Telling the ancestors about a new page keeps the tree ordered and its entries as they are.
#[verifier::spinoff_prover]
pub proof fn lemma_propagated(
    t: IndexView,
    s: Shape,
    keys: KeySpace,
    index_id: IndexId,
    ancestors: Seq<PageId>,
    left: PageId,
    right: PageId,
    separator: Seq<u8>,
    level: u16,
    tx_id: TxId,
) -> (s2: Shape)
    requires
        shape::linked(t, s, keys),
        t.pool.page_size <= MAX_PAGE_SIZE,
        shape::path_ok(s, ancestors.push(left)),
        s.low[ancestors.push(left)[0]] == Seq::<u8>::empty(),
        s.low.dom().contains(right),
        order::bytes_le(s.low[right], separator),
        (s.rank)(right) < (s.rank)(left),
        t.propagated(index_id, ancestors, left, right, separator, level, tx_id).1 is Ok,
    ensures
        ({
            let t2 = t.propagated(index_id, ancestors, left, right, separator, level, tx_id).0;
            &&& shape::linked(t2, s2, keys)
            &&& extends(s, s2)
            &&& same_leaves(t, t2, s)
            &&& t2.pool.page_size == t.pool.page_size
            &&& t2.meta_page_id == t.meta_page_id
            &&& t2.desc == t.desc
        }),
    decreases ancestors.len(),
{
    let path = ancestors.push(left);
    assert(s.low.dom().contains(path[ancestors.len() as int]));
    if ancestors.len() == 0 {
        lemma_new_root(t, s, keys, index_id, left, right, separator, level, tx_id)
    } else {
        let parent = ancestors.last();
        let m = ancestors.len() - 1;
        assert(path[m] == parent && path[m + 1] == left);
        assert(s.low.dom().contains(path[m]));
        assert((s.rank)(path[m + 1]) < (s.rank)(path[m]));
        assert(shape::readable(t, s, parent));
        let h = shape::head(t, parent);
        let es = shape::list(t, parent);
        if s.leaves.contains(parent) {
            let i = choose|i: int| 0 <= i < s.leaves.len() && s.leaves[i] == parent;
            assert(shape::leaf_ok(shape::head(t, s.leaves[i]), shape::list(t, s.leaves[i]), s, i, keys));
        }
        assert(shape::internal_ok(h, es, s, parent));
        lemma_more_children(es, s, parent, separator, right);
        let all = entries::stable_sorted(es.push(EntryView::Internal { separator, child: right }));
        if entries::required_len(all) <= IndexView::capacity(t.pool.frames[parent.0 - 1].page) {
            let h1 = HeaderView { index_id, ..h };
            lemma_header_links(t, parent);
            let w = t.rewrite(parent, false, h1, all).0;
            lemma_rewrite(t, parent, false, h1, all);
            let t2 = w.recorded(parent, tx_id);
            lemma_recorded(w, parent, tx_id);
            assert(agree(w, t2, parent));
            let changed = set![parent];
            assert forall|x: PageId| s.low.dom().contains(x) && !changed.contains(x) implies #[trigger] agree(
                t,
                t2,
                x,
            ) by {
                assert(agree(t, w, x) && agree(w, t2, x));
            }
            assert(agree(t, w, t.meta_page_id) && agree(w, t2, t.meta_page_id));
            assert forall|x: PageId| #[trigger] s.low.dom().contains(x) implies 0 <= (s.rank)(x) < t2.pool.frames.len() by {
                assert(shape::readable(t, s, x));
            }
            lemma_internal_change(t, t2, s, s, keys, changed);
            s
        } else {
            let s1 = lemma_split_internal(t, s, keys, index_id, parent, all, tx_id);
            let (t1, r) = t.split_internal(index_id, parent, h, all, tx_id);
            let (id, next) = r->Ok_0;
            let rest = ancestors.drop_last();
            let path1 = rest.push(parent);
            assert(path1 =~= ancestors);
            assert(shape::path_ok(s1, path1)) by {
                assert forall|j: int| 0 <= j < path1.len() implies s1.low.dom().contains(#[trigger] path1[j]) by {
                    assert(path[j] == path1[j]);
                    assert(s.low.dom().contains(path[j]));
                }
                assert forall|j: int, k: int| 0 <= j < k < path1.len() implies (s1.rank)(#[trigger] path1[k]) < (
                s1.rank)(#[trigger] path1[j]) by {
                    assert(path[j] == path1[j] && path[k] == path1[k]);
                    assert(s.low.dom().contains(path[j]) && s.low.dom().contains(path[k]));
                    assert((s.rank)(path[k]) < (s.rank)(path[j]));
                }
            }
            assert(path1[0] == path[0]);
            assert(s.low.dom().contains(path[0]));
            lemma_propagated(
                t1,
                s1,
                keys,
                index_id,
                rest,
                parent,
                id,
                next,
                if h.level == u16::MAX {
                    h.level
                } else {
                    (h.level + 1) as u16
                },
                tx_id,
            )
        }
    }
}

/// The leaf that an entry belongs on.
pub open spec fn target(t: IndexView, e: EntryView) -> PageId {
    t.path(e.sort_key())->Ok_0.last()
}

/// Whether the leaf of an entry has room for it.
pub open spec fn has_room(t: IndexView, e: EntryView) -> bool {
    let es = shape::list(t, target(t, e));
    entries::required_len(es.insert(entries::lower_bound(es, e), e)) <= IndexView::capacity(
        t.pool.frames[target(t, e).0 - 1].page,
    )
}

/// Whether the leaf of an entry holds an entry of another key.
pub open spec fn among_other_keys(t: IndexView, e: EntryView) -> bool {
    let es = shape::list(t, target(t, e));
    exists|j: int| 0 <= j < es.len() && (#[trigger] es[j]).logical() != e.logical()
}

/// Whether a full leaf can be split for an entry so that everything on the left sorts before
/// everything on the right: the leaf holds two keys, or one key with different rows only.
pub open spec fn can_part(t: IndexView, e: EntryView) -> bool {
    ||| has_room(t, e)
    ||| among_other_keys(t, e)
    ||| no_twins(shape::list(t, target(t, e)).push(e))
}

/// No two entries have the same physical key.
pub open spec fn no_twins(es: Seq<EntryView>) -> bool {
    forall|j: int, k: int| 0 <= j < k < es.len() ==> (#[trigger] es[j]).sort_key() != (#[trigger] es[k]).sort_key()
}

/// Without a place where a key starts, all entries have the same key.
proof fn lemma_one_run(es: Seq<EntryView>, j: int)
    requires
        forall|p: int| !entries::key_starts(es, p),
        0 <= j < es.len(),
    ensures
        es[j].logical() == es[0].logical(),
    decreases j,
{
    if j > 0 {
        lemma_one_run(es, j - 1);
        assert(!entries::key_starts(es, j));
    }
}

/// Entries of two keys have a place between them where a key starts.
proof fn lemma_key_starts_somewhere(es: Seq<EntryView>, a: int, b: int)
    requires
        0 <= a < es.len(),
        0 <= b < es.len(),
        es[a].logical() != es[b].logical(),
    ensures
        exists|p: int| entries::key_starts(es, p),
{
    if forall|p: int| !entries::key_starts(es, p) {
        lemma_one_run(es, a);
        lemma_one_run(es, b);
    }
}

/// The multiset of a list between two others.
proof fn lemma_middle_multiset(a: Seq<EntryView>, es: Seq<EntryView>, all: Seq<EntryView>, c: Seq<EntryView>, e: EntryView)
    requires
        all.to_multiset() == es.to_multiset().insert(e),
    ensures
        (a + all + c).to_multiset() == (a + es + c).to_multiset().insert(e),
{
    lemma_multiset_commutative(a + all, c);
    lemma_multiset_commutative(a, all);
    lemma_multiset_commutative(a + es, c);
    lemma_multiset_commutative(a, es);
    assert((a + all + c).to_multiset() =~= (a + es + c).to_multiset().insert(e));
}

/// A list with one more entry is before a fence if the list and the entry are.
proof fn lemma_members_before(es: Seq<EntryView>, e: EntryView, all: Seq<EntryView>, high: Seq<u8>)
    requires
        all.to_multiset() == es.to_multiset().insert(e),
        shape::strictly_before(es, high),
        order::bytes_lt(e.sort_key(), high),
    ensures
        shape::strictly_before(all, high),
{
    broadcast use group_to_multiset_ensures;

    assert forall|j: int| 0 <= j < all.len() implies order::bytes_lt((#[trigger] all[j]).sort_key(), high) by {
        assert(all.contains(all[j]));
        assert(all.to_multiset().count(all[j]) > 0);
        if all[j] != e {
            assert(es.to_multiset().count(all[j]) > 0);
            assert(es.contains(all[j]));
            let m = choose|m: int| 0 <= m < es.len() && es[m] == all[j];
            assert(order::bytes_lt(es[m].sort_key(), high));
        }
    }
}

/// An entry inserted on a leaf with room.
proof fn lemma_insert_fits(
    t: IndexView,
    s: Shape,
    keys: KeySpace,
    tx_id: TxId,
    logical: Seq<u8>,
    row: IndexRowRef,
    i: int,
)
    requires
        shape::linked(t, s, keys),
        keys.contains(logical),
        keys.rows.contains(row),
        t.inserted(tx_id, logical, row).1 is Ok,
        has_room(t, IndexView::new_entry(logical, row, tx_id)),
        shape::home(s, i, key::physical_key(logical, row)),
        t.path(key::physical_key(logical, row)) is Ok,
        target(t, IndexView::new_entry(logical, row, tx_id)) == s.leaves[i],
    ensures
        ({
            let t2 = t.inserted(tx_id, logical, row).0;
            &&& shape::linked(t2, s, keys)
            &&& shape::parted(t, s) ==> shape::parted(t2, s)
            &&& shape::contents(t2, s.leaves).to_multiset() == shape::contents(t, s.leaves).to_multiset().insert(
                IndexView::new_entry(logical, row, tx_id),
            )
            &&& t2.pool.page_size == t.pool.page_size
        }),
{
    let e = IndexView::new_entry(logical, row, tx_id);
    let id = s.leaves[i];
    let h = shape::head(t, id);
    let es = shape::list(t, id);
    assert(shape::readable(t, s, id));
    assert(shape::leaf_ok(h, es, s, i, keys));
    assert(shape::leaf_entry_ok(e, keys));
    lemma_placed_order(es, e, keys);
    let all = es.insert(entries::lower_bound(es, e), e);
    let high = if i + 1 < s.leaves.len() {
        Some(s.low[s.leaves[i + 1]])
    } else {
        None
    };
    lemma_members_in_range(es, e, all, s.low[id], high);
    let h2 = HeaderView { kind: PAGE_LEAF_KIND, level: 0, index_id: t.desc.index_id, ..h };
    lemma_leaf_ok_entries(t, s, keys, i, h2, all);
    lemma_header_links(t, id);
    assert(all_of_kind(all, true)) by {
        assert forall|j: int| 0 <= j < all.len() implies ((#[trigger] all[j]) is Leaf) == true by {
            assert(shape::leaf_entry_ok(all[j], keys));
        }
    }
    let w = t.rewrite(id, true, h2, all).0;
    lemma_rewrite(t, id, true, h2, all);
    let t2 = w.recorded(id, tx_id);
    lemma_recorded(w, id, tx_id);
    assert(agree(w, t2, id));
    assert forall|x: PageId| x != id implies #[trigger] agree(t, t2, x) by {
        assert(agree(t, w, x) && agree(w, t2, x));
    }
    lemma_leaf_replaced(t, t2, s, keys, i);
    lemma_contents_around(t, s.leaves, i);
    lemma_middle_multiset(
        shape::contents(t, s.leaves.subrange(0, i)),
        es,
        all,
        shape::contents(t, s.leaves.subrange(i + 1, s.leaves.len() as int)),
        e,
    );
    if shape::parted(t, s) {
        assert forall|j: int| 0 <= j < s.leaves.len() - 1 implies shape::strictly_before(
            shape::list(t2, #[trigger] s.leaves[j]),
            s.low[s.leaves[j + 1]],
        ) by {
            assert(shape::strictly_before(shape::list(t, s.leaves[j]), s.low[s.leaves[j + 1]]));
            if j == i {
                lemma_members_before(es, e, all, s.low[s.leaves[j + 1]]);
            }
        }
    }
}

/// A list made of entries of one key starts and ends with that key.
proof fn lemma_same_key_throughout(es: Seq<EntryView>, e: EntryView, all: Seq<EntryView>)
    requires
        all.to_multiset() == es.to_multiset().insert(e),
        forall|j: int| 0 <= j < es.len() ==> (#[trigger] es[j]).logical() == e.logical(),
    ensures
        all.len() > 0,
        forall|j: int| 0 <= j < all.len() ==> (#[trigger] all[j]).logical() == e.logical(),
{
    broadcast use group_to_multiset_ensures;

    assert(all.to_multiset().count(e) > 0);
    assert(all.contains(e));
    assert forall|j: int| 0 <= j < all.len() implies (#[trigger] all[j]).logical() == e.logical() by {
        assert(all.contains(all[j]));
        assert(all.to_multiset().count(all[j]) > 0);
        if all[j] != e {
            assert(es.to_multiset().count(all[j]) > 0);
            assert(es.contains(all[j]));
            let m = choose|m: int| 0 <= m < es.len() && es[m] == all[j];
            assert(es[m].logical() == e.logical());
        }
    }
}

/// Sorting entries without twins gives strictly ascending physical keys.
proof fn lemma_sorted_no_twins(es: Seq<EntryView>, keys: KeySpace, j: int)
    requires
        no_twins(es),
        shape::leaf_entries_ok(entries::stable_sorted(es), keys),
        0 <= j,
        j + 1 < es.len(),
    ensures
        entries::stable_sorted(es).len() == es.len(),
        order::bytes_lt(entries::stable_sorted(es)[j].sort_key(), entries::stable_sorted(es)[j + 1].sort_key()),
{
    broadcast use group_to_multiset_ensures;

    lemma_sorted_members(es);
    let all = entries::stable_sorted(es);
    assert(order::bytes_le(all[j].sort_key(), all[j + 1].sort_key()));
    if all[j].sort_key() == all[j + 1].sort_key() {
        assert(all.contains(all[j]) && all.contains(all[j + 1]));
        assert(es.contains(all[j]) && es.contains(all[j + 1]));
        let a = choose|m: int| 0 <= m < es.len() && es[m] == all[j];
        let b = choose|m: int| 0 <= m < es.len() && es[m] == all[j + 1];
        if a != b {
            let lo = if a < b {
                a
            } else {
                b
            };
            let hi = if a < b {
                b
            } else {
                a
            };
            assert(es[lo].sort_key() != es[hi].sort_key());
        } else {
            let e = es[a];
            assert(all[j] == e && all[j + 1] == e);
            lemma_twice(all, j, e);
            lemma_once(es, a);
        }
    }
}

proof fn lemma_twice(all: Seq<EntryView>, j: int, e: EntryView)
    requires
        0 <= j,
        j + 1 < all.len(),
        all[j] == e,
        all[j + 1] == e,
    ensures
        all.to_multiset().count(e) >= 2,
{
    broadcast use group_to_multiset_ensures;

    let rest = all.remove(j);
    assert(rest[j] == e);
    assert(rest.contains(e));
    assert(rest.to_multiset().count(e) > 0);
    assert(all.contains(all[j]));
    assert(rest.to_multiset() == all.to_multiset().remove(e));
}

proof fn lemma_once(es: Seq<EntryView>, a: int)
    requires
        no_twins(es),
        0 <= a < es.len(),
    ensures
        es.to_multiset().count(es[a]) <= 1,
{
    broadcast use group_to_multiset_ensures;

    let rest = es.remove(a);
    assert(es.contains(es[a]));
    assert(rest.to_multiset() == es.to_multiset().remove(es[a]));
    if es.to_multiset().count(es[a]) > 1 {
        assert(rest.to_multiset().count(es[a]) > 0);
        assert(rest.contains(es[a]));
        let m = choose|m: int| 0 <= m < rest.len() && rest[m] == es[a];
        if m < a {
            assert(es[m].sort_key() != es[a].sort_key());
        } else {
            assert(rest[m] == es[m + 1]);
            assert(es[a].sort_key() != es[m + 1].sort_key());
        }
    }
}

/// The state right after a leaf has been split, before its ancestors know.
pub open spec fn after_leaf_split(t: IndexView, leaf: PageId, e: EntryView, tx_id: TxId) -> IndexView {
    let h = shape::head(t, leaf);
    let all = entries::stable_sorted(shape::list(t, leaf).push(e));
    let split = entries::leaf_split(all);
    let left = all.subrange(0, split);
    let right = all.subrange(split, all.len() as int);
    let id = t.pool.next_id();
    let g = t.with_pool(t.pool.grown(PageKind::BtreeLeaf, t.desc.rel_id));
    let base = HeaderView { kind: PAGE_LEAF_KIND, level: 0, index_id: t.desc.index_id, ..h };
    let one = g.rewrite(
        leaf,
        true,
        HeaderView { right: Some(id), high_key: model::leaf_separator(left, right), ..base },
        left,
    ).0;
    let two = one.rewrite(id, true, HeaderView { left: Some(leaf), ..base }, right).0;
    two.recorded(leaf, tx_id).recorded(id, tx_id)
}

/// What a leaf split does to the pages.
#[verifier::spinoff_prover]
#[verifier::rlimit(40)]
pub proof fn lemma_after_leaf_split(t: IndexView, s: Shape, keys: KeySpace, e: EntryView, tx_id: TxId, i: int)
    requires
        shape::linked(t, s, keys),
        t.pool.page_size <= MAX_PAGE_SIZE,
        shape::leaf_entry_ok(e, keys),
        shape::home(s, i, e.sort_key()),
        ({
            let all = entries::stable_sorted(shape::list(t, s.leaves[i]).push(e));
            all.len() >= 2
        }),
        halves_written(t, s.leaves[i], e),
    ensures
        ({
            let all = entries::stable_sorted(shape::list(t, s.leaves[i]).push(e));
            let split = entries::leaf_split(all);
            let left = all.subrange(0, split);
            let right = all.subrange(split, all.len() as int);
            let t2 = after_leaf_split(t, s.leaves[i], e, tx_id);
            let id = t.pool.next_id();
            &&& leaf_was_split(t, t2, s, keys, i, id, model::leaf_separator(left, right))
            &&& shape::list(t2, s.leaves[i]) == left
            &&& shape::list(t2, id) == right
            &&& 0 < split < all.len()
            &&& entries::key_starts(all, split) ==> model::leaf_separator(left, right) == right[0].logical()
            &&& !entries::key_starts(all, split) ==> model::leaf_separator(left, right) == right[0].sort_key()
            &&& shape::leaf_entries_ok(all, keys)
            &&& shape::at_or_behind(all, s.low[s.leaves[i]])
            &&& t2.pool.page_size == t.pool.page_size
            &&& t2.desc == t.desc
        }),
{
    broadcast use group_to_multiset_ensures;

    let leaf = s.leaves[i];
    let h = shape::head(t, leaf);
    let es = shape::list(t, leaf);
    let more = es.push(e);
    let all = entries::stable_sorted(more);
    let split = entries::leaf_split(all);
    let left = all.subrange(0, split);
    let right = all.subrange(split, all.len() as int);
    let separator = model::leaf_separator(left, right);
    assert(shape::readable(t, s, leaf));
    assert(shape::leaf_ok(h, es, s, i, keys));
    assert forall|j: int| 0 <= j < more.len() implies shape::leaf_entry_ok(#[trigger] more[j], keys) by {
        if j < es.len() {
            assert(more[j] == es[j]);
        }
    }
    lemma_sorted_order(more, keys);
    lemma_sorted_members(more);
    let high = if i + 1 < s.leaves.len() {
        Some(s.low[s.leaves[i + 1]])
    } else {
        None
    };
    assert(all.to_multiset() == es.to_multiset().insert(e));
    lemma_members_in_range(es, e, all, s.low[leaf], high);
    lemma_separator_parts(all, keys, s.low[leaf], high);
    let id = t.pool.next_id();
    let g = t.with_pool(t.pool.grown(PageKind::BtreeLeaf, t.desc.rel_id));
    lemma_grown(t, PageKind::BtreeLeaf);
    lemma_header_links(t, leaf);
    assert(agree(t, g, leaf));
    let base = HeaderView { kind: PAGE_LEAF_KIND, level: 0, index_id: t.desc.index_id, ..h };
    let h1 = HeaderView { right: Some(id), high_key: separator, ..base };
    let h2 = HeaderView { left: Some(leaf), ..base };
    assert(all_of_kind(left, true)) by {
        assert forall|j: int| 0 <= j < left.len() implies ((#[trigger] left[j]) is Leaf) == true by {
            assert(shape::leaf_entry_ok(left[j], keys));
        }
    }
    assert(all_of_kind(right, true)) by {
        assert forall|j: int| 0 <= j < right.len() implies ((#[trigger] right[j]) is Leaf) == true by {
            assert(shape::leaf_entry_ok(right[j], keys));
        }
    }
    let one = g.rewrite(leaf, true, h1, left).0;
    lemma_rewrite(g, leaf, true, h1, left);
    assert(agree(g, one, id));
    assert(leaf.0 != NO_PAGE);
    let two = one.rewrite(id, true, h2, right).0;
    lemma_rewrite(one, id, true, h2, right);
    assert(agree(one, two, leaf));
    let three = two.recorded(leaf, tx_id);
    lemma_recorded(two, leaf, tx_id);
    let t2 = three.recorded(id, tx_id);
    lemma_recorded(three, id, tx_id);
    assert(agree(two, three, leaf) && agree(three, t2, leaf));
    assert(agree(two, three, id) && agree(three, t2, id));
    assert forall|x: PageId| t.pool.has(x) && x != leaf implies #[trigger] agree(t, t2, x) by {
        assert(agree(t, g, x) && agree(g, one, x) && agree(one, two, x) && agree(two, three, x) && agree(three, t2, x));
    }
}

/// The contents after a leaf split.
proof fn lemma_split_contents(t: IndexView, t2: IndexView, s: Shape, keys: KeySpace, i: int, id: PageId, separator: Seq<u8>)
    requires
        shape::linked(t, s, keys),
        leaf_was_split(t, t2, s, keys, i, id, separator),
    ensures
        shape::contents(t2, s.leaves.insert(i + 1, id)) == shape::contents(t, s.leaves.subrange(0, i)) + (shape::list(
            t2,
            s.leaves[i],
        ) + shape::list(t2, id)) + shape::contents(t, s.leaves.subrange(i + 1, s.leaves.len() as int)),
{
    let n = s.leaves.len() as int;
    let at = s.leaves[i];
    let leaves2 = s.leaves.insert(i + 1, id);
    let a = s.leaves.subrange(0, i);
    let c = s.leaves.subrange(i + 1, n);
    assert(leaves2.subrange(0, i + 1) =~= a.push(at));
    assert(leaves2.subrange(i + 2, n + 1) =~= c);
    assert(leaves2[i + 1] == id);
    lemma_contents_around(t2, leaves2, i + 1);
    assert(a.push(at).drop_last() =~= a);
    assert forall|j: int| 0 <= j < a.len() implies shape::list(t2, #[trigger] a[j]) == shape::list(t, a[j]) by {
        assert(a[j] == s.leaves[j]);
        assert(s.leaves[j] != s.leaves[i]);
        assert(shape::readable(t, s, a[j]));
        assert(agree(t, t2, a[j]));
    }
    assert forall|j: int| 0 <= j < c.len() implies shape::list(t2, #[trigger] c[j]) == shape::list(t, c[j]) by {
        assert(c[j] == s.leaves[i + 1 + j]);
        assert(s.leaves[i + 1 + j] != s.leaves[i]);
        assert(shape::readable(t, s, c[j]));
        assert(agree(t, t2, c[j]));
    }
    lemma_contents_agree(t, t2, a);
    lemma_contents_agree(t, t2, c);
    let x = shape::contents(t, a);
    let y = shape::list(t2, at);
    let z = shape::list(t2, id);
    let w = shape::contents(t, c);
    assert((x + y) + z + w =~= x + (y + z) + w);
}

/// Whether both halves of a leaf could be written.
pub open spec fn halves_written(t: IndexView, leaf: PageId, e: EntryView) -> bool {
    let all = entries::stable_sorted(shape::list(t, leaf).push(e));
    let split = entries::leaf_split(all);
    let left = all.subrange(0, split);
    let right = all.subrange(split, all.len() as int);
    let g = t.with_pool(t.pool.grown(PageKind::BtreeLeaf, t.desc.rel_id));
    let base = HeaderView { kind: PAGE_LEAF_KIND, level: 0, index_id: t.desc.index_id, ..shape::head(t, leaf) };
    let (one, r1) = g.rewrite(
        leaf,
        true,
        HeaderView { right: Some(t.pool.next_id()), high_key: model::leaf_separator(left, right), ..base },
        left,
    );
    &&& t.pool.can_grow()
    &&& r1 is Ok
    &&& one.rewrite(t.pool.next_id(), true, HeaderView { left: Some(leaf), ..base }, right).1 is Ok
}

/// A leaf that is full holds something.
proof fn lemma_full_leaf(t: IndexView, s: Shape, e: EntryView, leaf: PageId)
    requires
        e is Leaf,
        target(t, e) == leaf,
        shape::readable(t, s, leaf),
        t.pool.page_size <= MAX_PAGE_SIZE,
        !has_room(t, e),
        halves_written(t, leaf, e),
    ensures
        shape::list(t, leaf).len() > 0,
{
    let es = shape::list(t, leaf);
    if es.len() == 0 {
        reveal_with_fuel(entries::stable_sorted, 2);
        assert(es.push(e) =~= seq![e]);
        assert(seq![e].drop_last() =~= Seq::empty());
        let all = entries::stable_sorted(seq![e]);
        assert(all =~= seq![e]);
        let left = all.subrange(0, 1);
        assert(left =~= seq![e]);
        assert(es.insert(entries::lower_bound(es, e), e) =~= seq![e]);
        let g = t.with_pool(t.pool.grown(PageKind::BtreeLeaf, t.desc.rel_id));
        lemma_grown(t, PageKind::BtreeLeaf);
        assert(agree(t, g, leaf));
        let right = all.subrange(1, 1);
        let h1 = HeaderView {
            kind: PAGE_LEAF_KIND,
            level: 0,
            index_id: t.desc.index_id,
            right: Some(t.pool.next_id()),
            high_key: model::leaf_separator(left, right),
            ..shape::head(t, leaf)
        };
        lemma_fits(g.pool.frames[leaf.0 - 1].page, true, h1, left);
    }
}

/// The two halves of a split leaf hold the entry in addition to what the leaf held.
#[verifier::spinoff_prover]
proof fn lemma_split_multiset(
    t: IndexView,
    t1: IndexView,
    s: Shape,
    keys: KeySpace,
    e: EntryView,
    i: int,
    id: PageId,
    separator: Seq<u8>,
)
    requires
        shape::linked(t, s, keys),
        leaf_was_split(t, t1, s, keys, i, id, separator),
        shape::list(t1, s.leaves[i]) + shape::list(t1, id) == entries::stable_sorted(
            shape::list(t, s.leaves[i]).push(e),
        ),
    ensures
        shape::contents(t1, s.leaves.insert(i + 1, id)).to_multiset() == shape::contents(
            t,
            s.leaves,
        ).to_multiset().insert(e),
{
    broadcast use group_to_multiset_ensures;

    let es = shape::list(t, s.leaves[i]);
    let all = entries::stable_sorted(es.push(e));
    lemma_sorted_members(es.push(e));
    lemma_split_contents(t, t1, s, keys, i, id, separator);
    lemma_contents_around(t, s.leaves, i);
    assert(all.to_multiset() == es.to_multiset().insert(e));
    lemma_middle_multiset(
        shape::contents(t, s.leaves.subrange(0, i)),
        es,
        all,
        shape::contents(t, s.leaves.subrange(i + 1, s.leaves.len() as int)),
        e,
    );
}

/// The tree right after a leaf has been split for an entry.
#[verifier::spinoff_prover]
#[verifier::rlimit(80)]
pub proof fn lemma_split_state(t: IndexView, s: Shape, keys: KeySpace, e: EntryView, tx_id: TxId, i: int) -> (s1: Shape)
    requires
        shape::linked(t, s, keys),
        t.pool.page_size <= MAX_PAGE_SIZE,
        shape::leaf_entry_ok(e, keys),
        shape::home(s, i, e.sort_key()),
        target(t, e) == s.leaves[i],
        !has_room(t, e),
        halves_written(t, s.leaves[i], e),
    ensures
        ({
            let all = entries::stable_sorted(shape::list(t, s.leaves[i]).push(e));
            let split = entries::leaf_split(all);
            let separator = model::leaf_separator(
                all.subrange(0, split),
                all.subrange(split, all.len() as int),
            );
            let t1 = after_leaf_split(t, s.leaves[i], e, tx_id);
            let id = t.pool.next_id();
            &&& s1 == grown_shape(s, s.leaves[i], id, separator, s.leaves.insert(i + 1, id))
            &&& !s.low.dom().contains(id)
            &&& leaf_was_split(t, t1, s, keys, i, id, separator)
            &&& t1.desc == t.desc
            &&& shape::linked(t1, s1, keys)
            &&& shape::contents(t1, s1.leaves).to_multiset() == shape::contents(t, s.leaves).to_multiset().insert(e)
            &&& t1.pool.page_size == t.pool.page_size
            &&& shape::root(t1) == shape::root(t)
        }),
{
    let leaf = s.leaves[i];
    let es = shape::list(t, leaf);
    let more = es.push(e);
    let all = entries::stable_sorted(more);
    let split = entries::leaf_split(all);
    let left = all.subrange(0, split);
    let right = all.subrange(split, all.len() as int);
    let separator = model::leaf_separator(left, right);
    let id = t.pool.next_id();
    assert(shape::readable(t, s, leaf));
    lemma_full_leaf(t, s, e, leaf);
    lemma_all_parts(t, s, keys, e, i);
    lemma_after_leaf_split(t, s, keys, e, tx_id, i);
    let t1 = after_leaf_split(t, leaf, e, tx_id);
    let leaves2 = s.leaves.insert(i + 1, id);
    let s1 = grown_shape(s, leaf, id, separator, leaves2);
    lemma_leaf_split(t, t1, s, keys, i, id, separator);
    assert(!s.low.dom().contains(id)) by {
        if s.low.dom().contains(id) {
            assert(shape::readable(t, s, id));
        }
    }
    assert(left[0] == all[0] && left.last() == all[split - 1]);
    assert(right[0] == all[split] && right.last() == all[all.len() - 1]);
    assert(shape::leaf_entry_ok(all[split], keys));
    assert(left + right =~= all);
    lemma_split_multiset(t, t1, s, keys, e, i, id, separator);
    assert(shape::readable(t, s, shape::root(t)));
    assert(agree(t, t1, t.meta_page_id));
    s1
}

/// The separator of a leaf that is split for an entry.
pub open spec fn split_separator(t: IndexView, leaf: PageId, e: EntryView) -> Seq<u8> {
    let all = entries::stable_sorted(shape::list(t, leaf).push(e));
    let split = entries::leaf_split(all);
    model::leaf_separator(all.subrange(0, split), all.subrange(split, all.len() as int))
}

/// An insert that finds no room splits the leaf and tells its ancestors.
pub proof fn lemma_insert_is_split(t: IndexView, tx_id: TxId, logical: Seq<u8>, row: IndexRowRef)
    requires
        t.path(key::physical_key(logical, row)) is Ok,
        t.inserted(tx_id, logical, row).1 is Ok,
        !has_room(t, IndexView::new_entry(logical, row, tx_id)),
    ensures
        ({
            let e = IndexView::new_entry(logical, row, tx_id);
            let path = t.path(key::physical_key(logical, row))->Ok_0;
            let leaf = target(t, e);
            let t1 = after_leaf_split(t, leaf, e, tx_id);
            &&& halves_written(t, leaf, e)
            &&& t1.meta() is Ok
            &&& t.inserted(tx_id, logical, row) == t1.propagated(
                t1.meta()->Ok_0.index_id,
                path.drop_last(),
                leaf,
                t.pool.next_id(),
                split_separator(t, leaf, e),
                1,
                tx_id,
            )
        }),
{
    let e = IndexView::new_entry(logical, row, tx_id);
    let path = t.path(e.sort_key())->Ok_0;
    assert(t.inserted(tx_id, logical, row) == t.split_leaf(path.drop_last(), path.last(), e, tx_id));
    assert(halves_written(t, path.last(), e));
}

/// The state between the split of a leaf for an entry and the news to its ancestors.
pub proof fn lemma_split_step(
    t: IndexView,
    s: Shape,
    keys: KeySpace,
    tx_id: TxId,
    logical: Seq<u8>,
    row: IndexRowRef,
    i: int,
) -> (t1: IndexView)
    requires
        shape::linked(t, s, keys),
        t.pool.page_size <= MAX_PAGE_SIZE,
        keys.contains(logical),
        keys.rows.contains(row),
        t.inserted(tx_id, logical, row).1 is Ok,
        !has_room(t, IndexView::new_entry(logical, row, tx_id)),
        shape::home(s, i, key::physical_key(logical, row)),
        t.path(key::physical_key(logical, row)) is Ok,
        target(t, IndexView::new_entry(logical, row, tx_id)) == s.leaves[i],
    ensures
        ({
            let e = IndexView::new_entry(logical, row, tx_id);
            let id = t.pool.next_id();
            let separator = split_separator(t, s.leaves[i], e);
            &&& leaf_was_split(t, t1, s, keys, i, id, separator)
            &&& t1.desc == t.desc
            &&& t1.meta() == t.meta()
            &&& t1.pool.page_size == t.pool.page_size
            &&& t.inserted(tx_id, logical, row) == t1.propagated(
                t.meta()->Ok_0.index_id,
                t.path(key::physical_key(logical, row))->Ok_0.drop_last(),
                s.leaves[i],
                id,
                separator,
                1,
                tx_id,
            )
        }),
{
    let e = IndexView::new_entry(logical, row, tx_id);
    let t1 = after_leaf_split(t, s.leaves[i], e, tx_id);
    assert(shape::leaf_entry_ok(e, keys));
    lemma_insert_is_split(t, tx_id, logical, row);
    lemma_split_state(t, s, keys, e, tx_id, i);
    assert(shape::readable(t, s, s.leaves[i]));
    assert(t.meta_page_id != s.leaves[i]);
    assert(agree(t, t1, t.meta_page_id));
    t1
}

/// An entry inserted by splitting its leaf.
#[verifier::spinoff_prover]
#[verifier::rlimit(40)]
proof fn lemma_insert_splits(
    t: IndexView,
    s: Shape,
    keys: KeySpace,
    tx_id: TxId,
    logical: Seq<u8>,
    row: IndexRowRef,
    i: int,
) -> (s2: Shape)
    requires
        shape::linked(t, s, keys),
        t.pool.page_size <= MAX_PAGE_SIZE,
        keys.contains(logical),
        keys.rows.contains(row),
        t.inserted(tx_id, logical, row).1 is Ok,
        !has_room(t, IndexView::new_entry(logical, row, tx_id)),
        shape::home(s, i, key::physical_key(logical, row)),
        t.path(key::physical_key(logical, row)) is Ok,
        t.path(key::physical_key(logical, row))->Ok_0[0] == shape::root(t),
        shape::path_ok(s, t.path(key::physical_key(logical, row))->Ok_0),
        target(t, IndexView::new_entry(logical, row, tx_id)) == s.leaves[i],
    ensures
        ({
            let t2 = t.inserted(tx_id, logical, row).0;
            &&& shape::linked(t2, s2, keys)
            &&& shape::parted(t, s) && can_part(t, IndexView::new_entry(logical, row, tx_id)) ==> shape::parted(t2, s2)
            &&& shape::contents(t2, s2.leaves).to_multiset() == shape::contents(t, s.leaves).to_multiset().insert(
                IndexView::new_entry(logical, row, tx_id),
            )
            &&& t2.pool.page_size == t.pool.page_size
        }),
{
    let e = IndexView::new_entry(logical, row, tx_id);
    let path = t.path(e.sort_key())->Ok_0;
    let leaf = s.leaves[i];
    let all = entries::stable_sorted(shape::list(t, leaf).push(e));
    let split = entries::leaf_split(all);
    let separator = model::leaf_separator(all.subrange(0, split), all.subrange(split, all.len() as int));
    let id = t.pool.next_id();
    let ancestors = path.drop_last();
    assert(shape::readable(t, s, leaf));
    assert(shape::leaf_entry_ok(e, keys));
    let t1 = after_leaf_split(t, leaf, e, tx_id);
    lemma_insert_is_split(t, tx_id, logical, row);
    let index_id = t1.meta()->Ok_0.index_id;
    let s1 = lemma_split_state(t, s, keys, e, tx_id, i);
    assert(ancestors.push(leaf) =~= path);
    assert(shape::path_ok(s1, path)) by {
        assert forall|j: int| 0 <= j < path.len() implies s1.low.dom().contains(#[trigger] path[j]) by {
            assert(s.low.dom().contains(path[j]));
        }
        assert forall|j: int, k: int| 0 <= j < k < path.len() implies (s1.rank)(#[trigger] path[k]) < (s1.rank)(
            #[trigger] path[j],
        ) by {
            assert(s.low.dom().contains(path[j]) && s.low.dom().contains(path[k]));
            assert((s.rank)(path[k]) < (s.rank)(path[j]));
        }
    }
    assert(s.low.dom().contains(path[0]));
    let s2 = lemma_propagated(t1, s1, keys, index_id, ancestors, leaf, id, separator, 1, tx_id);
    let t2 = t.inserted(tx_id, logical, row).0;
    lemma_contents_agree(t1, t2, s1.leaves);
    if shape::parted(t, s) && can_part(t, e) {
        lemma_full_leaf(t, s, e, leaf);
        lemma_split_parted(t, s, keys, e, tx_id, i);
        assert forall|j: int| 0 <= j < s2.leaves.len() - 1 implies shape::strictly_before(
            shape::list(t2, #[trigger] s2.leaves[j]),
            s2.low[s2.leaves[j + 1]],
        ) by {
            assert(shape::strictly_before(shape::list(t1, s1.leaves[j]), s1.low[s1.leaves[j + 1]]));
            assert(s1.low.dom().contains(s1.leaves[j + 1]));
        }
    }
    s2
}

/// A leaf split keeps physical keys on one leaf each if the leaf can be parted.
#[verifier::spinoff_prover]
proof fn lemma_split_parted(t: IndexView, s: Shape, keys: KeySpace, e: EntryView, tx_id: TxId, i: int)
    requires
        shape::linked(t, s, keys),
        shape::parted(t, s),
        t.pool.page_size <= MAX_PAGE_SIZE,
        shape::leaf_entry_ok(e, keys),
        shape::home(s, i, e.sort_key()),
        target(t, e) == s.leaves[i],
        !has_room(t, e),
        can_part(t, e),
        shape::list(t, s.leaves[i]).len() > 0,
        halves_written(t, s.leaves[i], e),
    ensures
        ({
            let all = entries::stable_sorted(shape::list(t, s.leaves[i]).push(e));
            let split = entries::leaf_split(all);
            let separator = model::leaf_separator(all.subrange(0, split), all.subrange(split, all.len() as int));
            let id = t.pool.next_id();
            shape::parted(
                after_leaf_split(t, s.leaves[i], e, tx_id),
                grown_shape(s, s.leaves[i], id, separator, s.leaves.insert(i + 1, id)),
            )
        }),
{
    let leaf = s.leaves[i];
    let es = shape::list(t, leaf);
    let more = es.push(e);
    let all = entries::stable_sorted(more);
    let split = entries::leaf_split(all);
    let left = all.subrange(0, split);
    let right = all.subrange(split, all.len() as int);
    let separator = model::leaf_separator(left, right);
    let id = t.pool.next_id();
    let t1 = after_leaf_split(t, leaf, e, tx_id);
    lemma_all_parts(t, s, keys, e, i);
    lemma_after_leaf_split(t, s, keys, e, tx_id, i);
    lemma_halves_apart(t, s, keys, e, i);
    if i + 1 < s.leaves.len() {
        lemma_sorted_members(more);
        assert(all.to_multiset() =~= es.to_multiset().insert(e)) by {
            broadcast use group_to_multiset_ensures;

        }
        assert(shape::strictly_before(shape::list(t, s.leaves[i]), s.low[s.leaves[i + 1]]));
        lemma_members_before(es, e, all, s.low[s.leaves[i + 1]]);
        assert forall|m: int| 0 <= m < right.len() implies order::bytes_lt(
            (#[trigger] right[m]).sort_key(),
            s.low[s.leaves[i + 1]],
        ) by {
            assert(right[m] == all[split + m]);
        }
    }
    assert(!s.low.dom().contains(id)) by {
        if s.low.dom().contains(id) {
            assert(shape::readable(t, s, id));
        }
    }
    lemma_leaves_parted(t, t1, s, keys, i, id, separator);
}

/// Leaves are parted after a split if the two halves are.
#[verifier::spinoff_prover]
#[verifier::rlimit(60)]
proof fn lemma_leaves_parted(
    t: IndexView,
    t1: IndexView,
    s: Shape,
    keys: KeySpace,
    i: int,
    id: PageId,
    separator: Seq<u8>,
)
    requires
        shape::linked(t, s, keys),
        shape::parted(t, s),
        leaf_was_split(t, t1, s, keys, i, id, separator),
        !s.low.dom().contains(id),
        shape::strictly_before(shape::list(t1, s.leaves[i]), separator),
        i + 1 < s.leaves.len() ==> shape::strictly_before(shape::list(t1, id), s.low[s.leaves[i + 1]]),
    ensures
        shape::parted(t1, grown_shape(s, s.leaves[i], id, separator, s.leaves.insert(i + 1, id))),
{
    let leaf = s.leaves[i];
    let leaves2 = s.leaves.insert(i + 1, id);
    let s1 = grown_shape(s, leaf, id, separator, leaves2);
    assert forall|j: int| 0 <= j < leaves2.len() - 1 implies shape::strictly_before(
        shape::list(t1, #[trigger] leaves2[j]),
        s1.low[leaves2[j + 1]],
    ) by {
        if j == i {
            assert(leaves2[j] == leaf && leaves2[j + 1] == id);
        } else if j == i + 1 {
            assert(leaves2[j] == id && leaves2[j + 1] == s.leaves[i + 1]);
            assert(s.low.dom().contains(s.leaves[i + 1]));
        } else {
            let p = if j < i {
                j
            } else {
                j - 1
            };
            assert(leaves2[j] == s.leaves[p] && leaves2[j + 1] == s.leaves[p + 1]);
            assert(s.low.dom().contains(s.leaves[p]) && s.low.dom().contains(s.leaves[p + 1]));
            assert(shape::readable(t, s, s.leaves[p]));
            assert(s.leaves[p] != leaf);
            assert(agree(t, t1, s.leaves[p]));
            assert(shape::strictly_before(shape::list(t, s.leaves[p]), s.low[s.leaves[p + 1]]));
        }
    }
}

/// The left half of a leaf that can be parted is before the separator.
proof fn lemma_halves_apart(t: IndexView, s: Shape, keys: KeySpace, e: EntryView, i: int)
    requires
        shape::linked(t, s, keys),
        shape::leaf_entry_ok(e, keys),
        0 <= i < s.leaves.len(),
        target(t, e) == s.leaves[i],
        !has_room(t, e),
        can_part(t, e),
        shape::list(t, s.leaves[i]).len() > 0,
    ensures
        ({
            let all = entries::stable_sorted(shape::list(t, s.leaves[i]).push(e));
            let split = entries::leaf_split(all);
            let left = all.subrange(0, split);
            shape::strictly_before(left, model::leaf_separator(left, all.subrange(split, all.len() as int)))
        }),
{
    broadcast use group_to_multiset_ensures;

    let es = shape::list(t, s.leaves[i]);
    let more = es.push(e);
    let all = entries::stable_sorted(more);
    let split = entries::leaf_split(all);
    let left = all.subrange(0, split);
    let right = all.subrange(split, all.len() as int);
    let separator = model::leaf_separator(left, right);
    assert(shape::leaf_ok(shape::head(t, s.leaves[i]), es, s, i, keys));
    lemma_sorted_members(more);
    assert forall|j: int| 0 <= j < more.len() implies shape::leaf_entry_ok(#[trigger] more[j], keys) by {
        if j < es.len() {
            assert(more[j] == es[j]);
        }
    }
    lemma_sorted_order(more, keys);
    lemma_all_parts(t, s, keys, e, i);
    entries::law_leaf_split(all);
    let last = all[split - 1];
    let first = all[split];
    assert(left.last() == last && right[0] == first);
    assert(shape::leaf_entry_ok(last, keys) && shape::leaf_entry_ok(first, keys));
    assert(order::bytes_le(all[split - 1].sort_key(), all[split].sort_key()));
    assert(order::bytes_lt(last.sort_key(), separator)) by {
        if entries::key_starts(all, split) {
            laws::lemma_key_order(keys, last->logical_key, last->row, first->logical_key, first->row);
            laws::lemma_key_order(keys, first->logical_key, first->row, last->logical_key, last->row);
            order::lemma_not_le(first.sort_key(), last.sort_key());
        } else {
            assert(!among_other_keys(t, e)) by {
                if among_other_keys(t, e) {
                    let other = choose|j: int| 0 <= j < es.len() && (#[trigger] es[j]).logical() != e.logical();
                    assert(more[other] == es[other]);
                    assert(more.contains(more[other]));
                    assert(all.contains(es[other]));
                    let a = choose|j: int| 0 <= j < all.len() && all[j] == es[other];
                    assert(all[a].logical() == e.logical());
                }
            }
            lemma_sorted_no_twins(more, keys, split - 1);
        }
    }
    assert forall|j: int| 0 <= j < left.len() implies order::bytes_lt((#[trigger] left[j]).sort_key(), separator) by {
        assert(left[j] == all[j]);
        if j < split - 1 {
            assert(order::bytes_le(all[j].sort_key(), all[split - 1].sort_key()));
            order::lemma_le_transitive(all[j].sort_key(), last.sort_key(), separator);
        }
    }
}

/// A full leaf is split where a key starts, if one does.
proof fn lemma_all_parts(t: IndexView, s: Shape, keys: KeySpace, e: EntryView, i: int)
    requires
        shape::linked(t, s, keys),
        shape::leaf_entry_ok(e, keys),
        0 <= i < s.leaves.len(),
        target(t, e) == s.leaves[i],
        !has_room(t, e),
        shape::list(t, s.leaves[i]).len() > 0,
    ensures
        ({
            let all = entries::stable_sorted(shape::list(t, s.leaves[i]).push(e));
            let split = entries::leaf_split(all);
            &&& all.len() >= 2
            &&& !entries::key_starts(all, split) ==> forall|j: int|
                0 <= j < all.len() ==> (#[trigger] all[j]).logical() == e.logical()
        }),
{
    broadcast use group_to_multiset_ensures;

    let es = shape::list(t, s.leaves[i]);
    let more = es.push(e);
    let all = entries::stable_sorted(more);
    let split = entries::leaf_split(all);
    assert(shape::leaf_ok(shape::head(t, s.leaves[i]), es, s, i, keys));
    lemma_sorted_members(more);
    assert(all.to_multiset() == es.to_multiset().insert(e));
    assert forall|j: int| 0 <= j < more.len() implies shape::leaf_entry_ok(#[trigger] more[j], keys) by {
        if j < es.len() {
            assert(more[j] == es[j]);
        }
    }
    lemma_sorted_order(more, keys);
    entries::law_leaf_split(all);
    if among_other_keys(t, e) {
        let other = choose|j: int| 0 <= j < es.len() && (#[trigger] es[j]).logical() != e.logical();
        assert(more[other] == es[other] && more[es.len() as int] == e);
        assert(more.contains(more[other]) && more.contains(more[es.len() as int]));
        assert(all.contains(es[other]) && all.contains(e));
        let a = choose|j: int| 0 <= j < all.len() && all[j] == es[other];
        let b = choose|j: int| 0 <= j < all.len() && all[j] == e;
        lemma_key_starts_somewhere(all, a, b);
    } else {
        lemma_same_key_throughout(es, e, all);
    }
}

/// An insert that succeeds keeps an ordered index ordered and adds exactly the new entry, whether or
/// not pages split on the way.
pub proof fn law_insert_keeps_order(
    t: IndexView,
    s: Shape,
    keys: KeySpace,
    tx_id: TxId,
    logical: Seq<u8>,
    row: IndexRowRef,
) -> (s2: Shape)
    requires
        shape::linked(t, s, keys),
        t.pool.page_size <= MAX_PAGE_SIZE,
        keys.contains(logical),
        keys.rows.contains(row),
        t.inserted(tx_id, logical, row).1 is Ok,
    ensures
        ({
            let t2 = t.inserted(tx_id, logical, row).0;
            let e = IndexView::new_entry(logical, row, tx_id);
            &&& shape::linked(t2, s2, keys)
            &&& shape::parted(t, s) && can_part(t, e) ==> shape::parted(t2, s2)
            &&& shape::contents(t2, s2.leaves).to_multiset() == shape::contents(t, s.leaves).to_multiset().insert(e)
            &&& t2.pool.page_size == t.pool.page_size
        }),
{
    let e = IndexView::new_entry(logical, row, tx_id);
    let i = shape::lemma_path(t, s, keys, e.sort_key());
    if has_room(t, e) {
        lemma_insert_fits(t, s, keys, tx_id, logical, row, i);
        s
    } else {
        lemma_insert_splits(t, s, keys, tx_id, logical, row, i)
    }
}

} // verus!
