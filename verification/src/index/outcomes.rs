//! What a reader finds after an index has changed.
use crate::error::Error;
use crate::format::order;
use crate::format::page;
use crate::format::page::{PageKind, PageView, MAX_PAGE_SIZE};
use crate::format::{PageId, TxId};
use crate::index::cell::EntryView;
use crate::index::entries;
use crate::index::growth;
use crate::index::key;
use crate::index::laws;
use crate::index::model;
use crate::index::model::{IndexView, Reader, SinkView};
use crate::index::node;
use crate::index::node::{HeaderView, MetaHeader, INDEX_SPECIAL_LEN, MAX_HIGH_KEY_LEN, PAGE_LEAF_KIND};
use crate::index::shape;
use crate::index::shape::{KeySpace, Shape};
use crate::index::visibility;
use crate::index::{IndexDescriptor, IndexRowRef, IndexUniqueness};
use crate::storage::buffer::PoolView;
use vstd::prelude::*;
use vstd::seq_lib::*;

verus! {

/// Taking an entry out of a list takes its row out of the rows found.
proof fn lemma_rows_without(es: Seq<EntryView>, j: int, k: Seq<u8>, reader: Reader)
    requires
        0 <= j < es.len(),
    ensures
        shape::rows_of(es, k, reader).to_multiset() == shape::rows_of(es.remove(j), k, reader).to_multiset().add(
            shape::rows_of(seq![es[j]], k, reader).to_multiset(),
        ),
{
    let a = es.subrange(0, j);
    let b = seq![es[j]];
    let c = es.subrange(j + 1, es.len() as int);
    assert(es =~= a + b + c);
    assert(es.remove(j) =~= a + c);
    laws::lemma_rows_add(a + b, c, k, reader);
    laws::lemma_rows_add(a, b, k, reader);
    laws::lemma_rows_add(a, c, k, reader);
    let ra = shape::rows_of(a, k, reader);
    let rb = shape::rows_of(b, k, reader);
    let rc = shape::rows_of(c, k, reader);
    lemma_multiset_commutative(ra + rb, rc);
    lemma_multiset_commutative(ra, rb);
    lemma_multiset_commutative(ra, rc);
    assert((ra + rb + rc).to_multiset() =~= (ra + rc).to_multiset().add(rb.to_multiset()));
}

/// The rows found depend only on which entries there are, not on their order.
pub proof fn lemma_rows_permute(a: Seq<EntryView>, b: Seq<EntryView>, k: Seq<u8>, reader: Reader)
    requires
        a.to_multiset() == b.to_multiset(),
    ensures
        shape::rows_of(a, k, reader).to_multiset() == shape::rows_of(b, k, reader).to_multiset(),
    decreases a.len(),
{
    broadcast use group_to_multiset_ensures;

    assert(a.len() == a.to_multiset().len());
    assert(b.len() == b.to_multiset().len());
    if a.len() > 0 {
        let e = a.last();
        let n = a.len() - 1;
        assert(a.contains(a[n]));
        assert(a.to_multiset().count(e) > 0);
        assert(b.contains(e));
        let j = choose|j: int| 0 <= j < b.len() && b[j] == e;
        assert(a.remove(n) =~= a.drop_last());
        assert(a.remove(n).to_multiset() =~= b.remove(j).to_multiset());
        lemma_rows_permute(a.remove(n), b.remove(j), k, reader);
        lemma_rows_without(a, n, k, reader);
        lemma_rows_without(b, j, k, reader);
    } else {
        assert(a =~= b);
    }
}

/// After an insert that succeeded, a lookup of the key finds the rows it found before and, if the
/// reader admits the new entry, the new one, and a lookup of any other key finds what it found before.
/// A reader of what is live admits the new entry.
pub proof fn law_insert_is_found(
    t: IndexView,
    s: Shape,
    keys: KeySpace,
    tx_id: TxId,
    logical: Seq<u8>,
    row: IndexRowRef,
    k: Seq<u8>,
    reader: Reader,
)
    requires
        shape::linked(t, s, keys),
        t.pool.page_size <= MAX_PAGE_SIZE,
        keys.contains(logical),
        keys.rows.contains(row),
        keys.contains(k),
        t.inserted(tx_id, logical, row).1 is Ok,
    ensures
        ({
            let t2 = t.inserted(tx_id, logical, row).0;
            let e = IndexView::new_entry(logical, row, tx_id);
            &&& model::admits(Reader::Live, e)
            &&& t.lookup(k, reader) is Ok
            &&& t2.lookup(k, reader) is Ok
            &&& t2.lookup(k, reader)->Ok_0.to_multiset() == if k == logical && model::admits(reader, e) {
                t.lookup(k, reader)->Ok_0.to_multiset().insert(row)
            } else {
                t.lookup(k, reader)->Ok_0.to_multiset()
            }
        }),
{
    broadcast use group_to_multiset_ensures;

    let e = IndexView::new_entry(logical, row, tx_id);
    let t2 = t.inserted(tx_id, logical, row).0;
    let s2 = growth::law_insert_keeps_order(t, s, keys, tx_id, logical, row);
    laws::law_lookup_is_exact(t, s, keys, k, reader);
    laws::law_lookup_is_exact(t2, s2, keys, k, reader);
    let before = shape::contents(t, s.leaves);
    let after = shape::contents(t2, s2.leaves);
    assert(before.push(e).to_multiset() =~= after.to_multiset());
    lemma_rows_permute(after, before.push(e), k, reader);
    assert(before.push(e).drop_last() =~= before);
    assert(e.live());
}

/// The shape of a new index.
pub open spec fn new_shape(root: PageId) -> Shape {
    Shape { leaves: seq![root], low: map![root => Seq::<u8>::empty()], rank: |x: PageId| 0int }
}

/// A new index is ordered and empty.
pub proof fn law_new_index_is_ordered(pool: PoolView, desc: IndexDescriptor, log: Option<SinkView>, keys: KeySpace)
    requires
        keys.ordered(),
        304 <= pool.page_size <= MAX_PAGE_SIZE,
        pool.frames.len() + 2 < usize::MAX,
    ensures
        ({
            let t = model::created(pool, desc, log);
            let s = new_shape(PageId((pool.frames.len() + 2) as u64));
            &&& shape::linked(t, s, keys)
            &&& shape::parted(t, s)
            &&& shape::contents(t, s.leaves) == Seq::<EntryView>::empty()
            &&& t.pool.page_size == pool.page_size
        }),
{
    let t = model::created(pool, desc, log);
    let meta_id = pool.next_id();
    let one = pool.grown(PageKind::BtreeMeta, desc.rel_id);
    let root_id = one.next_id();
    let two = one.grown(PageKind::BtreeLeaf, desc.rel_id);
    let h = model::empty_root_header(desc.index_id);
    let fresh = two.frames[root_id.0 - 1].page;
    assert(fresh.size == pool.page_size);
    assert(node::cells_of(Seq::empty(), true) =~= Seq::empty());
    assert(node::rewritten(fresh, true, h, Seq::empty()).1 is Ok);
    growth::law_node_round_trips(fresh, true, h, Seq::empty());
    let meta = MetaHeader {
        index_id: desc.index_id,
        root_page_id: root_id,
        root_level: 0,
        uniqueness: desc.uniqueness,
    };
    node::law_meta_round_trips(meta, INDEX_SPECIAL_LEN as int);
    let s = new_shape(root_id);
    assert(t.pool.page(root_id) == Ok::<PageView, Error>(
        node::rewritten(fresh, true, h, Seq::empty()).0,
    ));
    assert(t.header(root_id) == Ok::<HeaderView, Error>(h));
    assert(t.entries(root_id) == Ok::<Seq<EntryView>, Error>(Seq::empty()));
    assert(t.meta() == Ok::<MetaHeader, Error>(meta));
    assert(s.leaves[0] == root_id);
    assert(shape::readable(t, s, root_id));
    assert(shape::leaf_ok(shape::head(t, root_id), shape::list(t, root_id), s, 0, keys));
    assert(s.leaves.contains(root_id));
    reveal_with_fuel(shape::contents, 2);
    assert(s.leaves.drop_last() =~= Seq::empty());
    assert(shape::contents(t, s.leaves) =~= Seq::empty());
}

/// Cells for which there is room can all be appended.
proof fn lemma_filled_ok(page: PageView, cells: Seq<Seq<u8>>)
    requires
        page.cells.len() == 0,
        page.used() + page::cells_len(cells) <= page.size,
    ensures
        node::filled(page, cells).1 == Ok::<(), Error>(()),
        node::filled(page, cells).0 == (PageView { cells, ..page }),
    decreases cells.len(),
{
    if cells.len() == 0 {
        assert(cells =~= page.cells);
        assert(node::filled(page, cells).0 =~= (PageView { cells, ..page }));
    } else {
        lemma_filled_ok(page, cells.drop_last());
        assert(page::cells_len(page.cells) == 0);
        assert(cells.drop_last().push(cells.last()) =~= cells);
    }
}

/// A page takes a node for which it has room, and keeps its size; the log stays as it is.
pub proof fn lemma_page_takes(t: IndexView, id: PageId, leaf: bool, h: HeaderView, es: Seq<EntryView>)
    requires
        t.pool.has(id),
        t.pool.frames[id.0 - 1].page.size >= 304,
        h.high_key.len() <= MAX_HIGH_KEY_LEN,
        growth::all_of_kind(es, leaf),
        entries::required_len(es) <= IndexView::capacity(t.pool.frames[id.0 - 1].page),
    ensures
        t.rewrite(id, leaf, h, es).1 == Ok::<(), Error>(()),
        t.rewrite(id, leaf, h, es).0.pool.frames[id.0 - 1].page.size == t.pool.frames[id.0 - 1].page.size,
        t.rewrite(id, leaf, h, es).0.log == t.log,
{
    let page = t.pool.frames[id.0 - 1].page;
    let blank = page.blank(
        node::node_page_kind(leaf),
        page.page_id,
        page.rel_id,
        crate::format::PageGeneration(1),
        INDEX_SPECIAL_LEN as nat,
    );
    let headed = PageView { special: h.special(), ..blank };
    node::lemma_special_len(h);
    growth::lemma_required_len(es, leaf);
    lemma_filled_ok(headed, node::cells_of(es, leaf));
}

/// The high key that a header was read with fits a header.
pub proof fn lemma_high_key_fits(t: IndexView, s: Shape, id: PageId)
    requires
        shape::readable(t, s, id),
    ensures
        shape::head(t, id).high_key.len() <= MAX_HIGH_KEY_LEN,
{
}

/// An insert into an ordered index succeeds if its leaf has room and the log takes the leaf, unless the
/// index is unique and holds the same key and row already: then it is refused and nothing changes.
pub proof fn law_insert_with_room(
    t: IndexView,
    s: Shape,
    keys: KeySpace,
    tx_id: TxId,
    logical: Seq<u8>,
    row: IndexRowRef,
)
    requires
        shape::linked(t, s, keys),
        keys.contains(logical),
        keys.rows.contains(row),
        growth::has_room(t, IndexView::new_entry(logical, row, tx_id)),
        t.pool.frames[growth::target(t, IndexView::new_entry(logical, row, tx_id)).0 - 1].page.size >= 304,
    ensures
        ({
            let e = IndexView::new_entry(logical, row, tx_id);
            let refused = t.meta()->Ok_0.uniqueness == IndexUniqueness::Unique && entries::holds_equal(
                shape::list(t, growth::target(t, e)),
                e,
            );
            &&& refused ==> t.inserted(tx_id, logical, row) == (t, Err::<(), Error>(Error::WriteConflict))
            &&& !refused ==> t.inserted(tx_id, logical, row).1 == (match t.log_refusal(growth::target(t, e), tx_id) {
                Some(problem) => Err::<(), Error>(problem),
                None => Ok(()),
            })
        }),
{
    let e = IndexView::new_entry(logical, row, tx_id);
    let i = shape::lemma_path(t, s, keys, e.sort_key());
    let id = s.leaves[i];
    let h = shape::head(t, id);
    let es = shape::list(t, id);
    assert(shape::readable(t, s, id));
    assert(shape::leaf_ok(h, es, s, i, keys));
    order::lemma_not_le(e.sort_key(), h.high_key);
    assert(shape::leaf_entry_ok(e, keys));
    growth::lemma_placed_order(es, e, keys);
    let all = es.insert(entries::lower_bound(es, e), e);
    assert(growth::all_of_kind(all, true)) by {
        assert forall|j: int| 0 <= j < all.len() implies ((#[trigger] all[j]) is Leaf) == true by {
            assert(shape::leaf_entry_ok(all[j], keys));
        }
    }
    let h2 = HeaderView { kind: PAGE_LEAF_KIND, level: 0, index_id: t.desc.index_id, ..h };
    lemma_high_key_fits(t, s, id);
    lemma_page_takes(t, id, true, h2, all);
}

/// Marking an entry keeps its key and row.
proof fn lemma_marked(e: EntryView, tx_id: TxId, keys: KeySpace)
    requires
        shape::leaf_entry_ok(e, keys),
    ensures
        shape::leaf_entry_ok(model::marked(e, tx_id), keys),
        model::marked(e, tx_id).sort_key() == e.sort_key(),
        model::marked(e, tx_id).logical() == e.logical(),
        model::marked(e, tx_id)->row == e->row,
        model::marked(e, tx_id)->create_tx == e->create_tx,
        model::marked(e, tx_id)->delete_tx == tx_id,
{
}

/// The first entry of a key and row is found where there is one.
proof fn lemma_entry_pos(es: Seq<EntryView>, logical: Seq<u8>, row: IndexRowRef, from: int)
    requires
        0 <= from <= es.len(),
    ensures
        from <= model::entry_pos(es, logical, row, from) <= es.len(),
        model::entry_pos(es, logical, row, from) < es.len() ==> model::is_entry_of(
            es[model::entry_pos(es, logical, row, from)],
            logical,
            row,
        ),
        forall|j: int|
            from <= j < model::entry_pos(es, logical, row, from) ==> !model::is_entry_of(#[trigger] es[j], logical, row),
    decreases es.len() - from,
{
    if from < es.len() && !model::is_entry_of(es[from], logical, row) {
        lemma_entry_pos(es, logical, row, from + 1);
    }
}

/// An entry of a key and row stands only on the leaf where a search for its physical key ends.
proof fn lemma_entry_at_home(t: IndexView, s: Shape, keys: KeySpace, logical: Seq<u8>, row: IndexRowRef, i: int, j: int, n: int)
    requires
        shape::linked(t, s, keys),
        shape::apart(t, s, key::physical_key(logical, row)),
        shape::home(s, i, key::physical_key(logical, row)),
        0 <= j < s.leaves.len(),
        0 <= n < shape::list(t, s.leaves[j]).len(),
        model::is_entry_of(shape::list(t, s.leaves[j])[n], logical, row),
    ensures
        i == j,
{
    let p = key::physical_key(logical, row);
    let e = shape::list(t, s.leaves[j])[n];
    assert(shape::leaf_ok(shape::head(t, s.leaves[j]), shape::list(t, s.leaves[j]), s, j, keys));
    assert(shape::leaf_entry_ok(e, keys));
    assert(e.sort_key() == p);
    if j < i {
        shape::lemma_fences_ascend(t, s, keys, j + 1, i);
        assert(order::bytes_le(shape::list(t, s.leaves[j])[n].sort_key(), s.low[s.leaves[j + 1]]));
        assert(order::bytes_lt(p, s.low[s.leaves[j + 1]]));
        order::lemma_le_transitive(s.low[s.leaves[j + 1]], s.low[s.leaves[i]], p);
        order::lemma_not_le(p, s.low[s.leaves[j + 1]]);
    } else if j > i {
        shape::lemma_fences_ascend(t, s, keys, i + 1, j);
        order::lemma_le_transitive(s.low[s.leaves[i + 1]], s.low[s.leaves[j]], p);
        order::lemma_not_le(p, s.low[s.leaves[i + 1]]);
    }
}

/// Looking for an entry that is not there changes nothing.
proof fn lemma_mark_none(
    t: IndexView,
    s: Shape,
    keys: KeySpace,
    tx_id: TxId,
    logical: Seq<u8>,
    row: IndexRowRef,
    reader: Reader,
    i: int,
    limit: nat,
)
    requires
        shape::linked(t, s, keys),
        0 <= i < s.leaves.len(),
        (s.rank)(s.leaves[i]) < limit,
        forall|j: int, n: int|
            i <= j < s.leaves.len() && 0 <= n < shape::list(t, s.leaves[j]).len() ==> !model::is_entry_of(
                #[trigger] shape::list(t, s.leaves[j])[n],
                logical,
                row,
            ),
    ensures
        t.marked_from(s.leaves[i], tx_id, logical, row, reader, limit) == (t, Ok::<(), Error>(())),
    decreases s.leaves.len() - i,
{
    let id = s.leaves[i];
    assert(shape::readable(t, s, id));
    assert(shape::leaf_ok(shape::head(t, id), shape::list(t, id), s, i, keys));
    let es = shape::list(t, id);
    lemma_entry_pos(es, logical, row, 0);
    let pos = model::entry_pos(es, logical, row, 0);
    if pos < es.len() {
        assert(!model::is_entry_of(shape::list(t, s.leaves[i])[pos], logical, row));
    }
    if i + 1 < s.leaves.len() {
        assert(shape::readable(t, s, s.leaves[i + 1]));
        lemma_mark_none(t, s, keys, tx_id, logical, row, reader, i + 1, (limit - 1) as nat);
    }
}

/// Whether an index holds an entry of a key and row.
pub open spec fn holds(es: Seq<EntryView>, logical: Seq<u8>, row: IndexRowRef) -> bool {
    exists|n: int| 0 <= n < es.len() && model::is_entry_of(#[trigger] es[n], logical, row)
}

proof fn lemma_contents_hold(t: IndexView, leaves: Seq<PageId>, logical: Seq<u8>, row: IndexRowRef)
    ensures
        holds(shape::contents(t, leaves), logical, row) <==> exists|j: int|
            0 <= j < leaves.len() && holds(shape::list(t, #[trigger] leaves[j]), logical, row),
    decreases leaves.len(),
{
    if leaves.len() > 0 {
        let init = leaves.drop_last();
        let a = shape::contents(t, init);
        let b = shape::list(t, leaves.last());
        lemma_contents_hold(t, init, logical, row);
        if holds(a + b, logical, row) {
            let n = choose|n: int| 0 <= n < (a + b).len() && model::is_entry_of(#[trigger] (a + b)[n], logical, row);
            if n < a.len() {
                assert(model::is_entry_of(a[n], logical, row));
                let j = choose|j: int| 0 <= j < init.len() && holds(shape::list(t, #[trigger] init[j]), logical, row);
                assert(leaves[j] == init[j]);
            } else {
                assert(model::is_entry_of(b[n - a.len()], logical, row));
                assert(holds(shape::list(t, leaves[leaves.len() - 1]), logical, row));
            }
        }
        if exists|j: int| 0 <= j < leaves.len() && holds(shape::list(t, #[trigger] leaves[j]), logical, row) {
            let j = choose|j: int| 0 <= j < leaves.len() && holds(shape::list(t, #[trigger] leaves[j]), logical, row);
            if j < init.len() {
                assert(init[j] == leaves[j]);
                let n = choose|n: int| 0 <= n < a.len() && model::is_entry_of(#[trigger] a[n], logical, row);
                assert((a + b)[n] == a[n]);
            } else {
                let n = choose|n: int| 0 <= n < b.len() && model::is_entry_of(#[trigger] b[n], logical, row);
                assert((a + b)[a.len() + n] == b[n]);
            }
        }
    }
}

/// What the entries of a page take is no more than what its cells take.
proof fn lemma_parsed_len(kind: PageKind, cells: Seq<Seq<u8>>)
    requires
        node::parse_entries(kind, cells) is Ok,
    ensures
        entries::required_len(node::parse_entries(kind, cells)->Ok_0) <= page::cells_len(cells),
    decreases cells.len(),
{
    if cells.len() > 0 {
        lemma_parsed_len(kind, cells.drop_last());
        let init = node::parse_entries(kind, cells.drop_last())->Ok_0;
        let entry = node::parse_cell(kind, cells.last())->Ok_0;
        assert(init.push(entry).drop_last() =~= init);
        assert(entry.cell_len() <= cells.last().len());
    }
}

/// A leaf can be rewritten with entries that take no more room than its own.
proof fn lemma_rewrite_fits(t: IndexView, s: Shape, keys: KeySpace, i: int, next: Seq<EntryView>)
    requires
        shape::linked(t, s, keys),
        shape::pages_fit(t),
        0 <= i < s.leaves.len(),
        growth::all_of_kind(next, true),
        entries::required_len(next) <= entries::required_len(shape::list(t, s.leaves[i])),
    ensures
        ({
            let id = s.leaves[i];
            let h2 = HeaderView { kind: PAGE_LEAF_KIND, level: 0, index_id: t.desc.index_id, ..shape::head(t, id) };
            &&& t.rewrite(id, true, h2, next).1 == Ok::<(), Error>(())
            &&& t.rewrite(id, true, h2, next).0.pool.frames[id.0 - 1].page.size == t.pool.frames[id.0 - 1].page.size
            &&& t.rewrite(id, true, h2, next).0.log == t.log
        }),
{
    let id = s.leaves[i];
    let h2 = HeaderView { kind: PAGE_LEAF_KIND, level: 0, index_id: t.desc.index_id, ..shape::head(t, id) };
    assert(shape::readable(t, s, id));
    let page = t.pool.frames[id.0 - 1].page;
    assert(page.wf());
    lemma_parsed_len(page.kind, page.cells);
    lemma_high_key_fits(t, s, id);
    lemma_page_takes(t, id, true, h2, next);
}

proof fn lemma_required_update(es: Seq<EntryView>, pos: int, e: EntryView)
    requires
        0 <= pos < es.len(),
        e.cell_len() == es[pos].cell_len(),
    ensures
        entries::required_len(es.update(pos, e)) == entries::required_len(es),
    decreases es.len(),
{
    let next = es.update(pos, e);
    if pos < es.len() - 1 {
        lemma_required_update(es.drop_last(), pos, e);
        assert(next.drop_last() =~= es.drop_last().update(pos, e));
    } else {
        assert(next.drop_last() =~= es.drop_last());
    }
}

proof fn lemma_required_without(es: Seq<EntryView>, gone: spec_fn(EntryView) -> bool)
    ensures
        entries::required_len(model::without(es, gone)) <= entries::required_len(es),
    decreases es.len(),
{
    if es.len() > 0 {
        let init = es.drop_last();
        lemma_required_without(init, gone);
        if !gone(es.last()) {
            assert(model::without(es, gone).drop_last() =~= model::without(init, gone));
        }
    }
}

/// Whether every entry of a key and row has a mark that stands.
pub open spec fn all_marked(es: Seq<EntryView>, logical: Seq<u8>, row: IndexRowRef, reader: Reader) -> bool {
    forall|n: int|
        0 <= n < es.len() && model::is_entry_of(#[trigger] es[n], logical, row) ==> model::mark_stands(
            es[n]->delete_tx,
            reader,
        )
}

/// Whether the entry at `n`, of a key and row and without a mark that stands, is marked and all else is
/// as before.
pub open spec fn marks_one(
    before: Seq<EntryView>,
    after: Seq<EntryView>,
    n: int,
    tx_id: TxId,
    logical: Seq<u8>,
    row: IndexRowRef,
    reader: Reader,
) -> bool {
    &&& 0 <= n < before.len()
    &&& model::is_entry_of(before[n], logical, row)
    &&& !model::mark_stands(before[n]->delete_tx, reader)
    &&& after == before.update(n, model::marked(before[n], tx_id))
}

/// A delete mark succeeds in an ordered index and keeps it ordered. It marks one entry of the key and
/// row if there is one whose mark does not stand, and leaves all other entries as they are and where
/// they are. Where there is none, it changes nothing. Left out are a log that refuses the leaf, and a key
/// and row of which two entries stand on two leaves.
#[verifier::spinoff_prover]
#[verifier::rlimit(80)]
pub proof fn law_delete_mark_keeps_order(
    t: IndexView,
    s: Shape,
    keys: KeySpace,
    tx_id: TxId,
    logical: Seq<u8>,
    row: IndexRowRef,
    reader: Reader,
)
    requires
        shape::linked(t, s, keys),
        shape::pages_fit(t),
        shape::log_takes(t, s, tx_id),
        shape::apart(t, s, key::physical_key(logical, row)),
    ensures
        ({
            let t2 = t.delete_marked(tx_id, logical, row, reader).0;
            let before = shape::contents(t, s.leaves);
            let after = shape::contents(t2, s.leaves);
            &&& t.delete_marked(tx_id, logical, row, reader).1 == Ok::<(), Error>(())
            &&& shape::linked(t2, s, keys)
            &&& shape::parted(t, s) ==> shape::parted(t2, s)
            &&& t2.pool.page_size == t.pool.page_size
            &&& all_marked(before, logical, row, reader) ==> t2 == t
            &&& {
                ||| t2 == t && all_marked(before, logical, row, reader)
                ||| t2 == t && exists|n: int|
                    0 <= n < before.len() && model::is_entry_of(#[trigger] before[n], logical, row)
                        && model::mark_stands(before[n]->delete_tx, reader)
                ||| exists|n: int| #[trigger] marks_one(before, after, n, tx_id, logical, row, reader)
            }
        }),
{
    let p = key::physical_key(logical, row);
    let t2 = t.delete_marked(tx_id, logical, row, reader).0;
    let before = shape::contents(t, s.leaves);
    let i = shape::lemma_path(t, s, keys, p);
    let id = s.leaves[i];
    let n = s.leaves.len() as int;
    assert(shape::readable(t, s, id));
    let h = shape::head(t, id);
    let es = shape::list(t, id);
    assert(shape::leaf_ok(h, es, s, i, keys));
    lemma_entry_pos(es, logical, row, 0);
    let pos = model::entry_pos(es, logical, row, 0);
    lemma_contents_hold(t, s.leaves, logical, row);
    growth::lemma_contents_around(t, s.leaves, i);
    let a = shape::contents(t, s.leaves.subrange(0, i));
    let c = shape::contents(t, s.leaves.subrange(i + 1, n));
    if pos < es.len() {
        let e = es[pos];
        assert(shape::leaf_entry_ok(e, keys));
        assert(holds(shape::list(t, s.leaves[i]), logical, row));
        assert(before[a.len() + pos] == e);
        assert(before.contains(e));
        if !model::mark_stands(e->delete_tx, reader) {
            lemma_marked(e, tx_id, keys);
            let next = es.update(pos, model::marked(e, tx_id));
            lemma_required_update(es, pos, model::marked(e, tx_id));
            assert(growth::all_of_kind(next, true)) by {
                assert forall|j: int| 0 <= j < next.len() implies ((#[trigger] next[j]) is Leaf) == true by {
                    assert(shape::leaf_entry_ok(es[j], keys));
                }
            }
            lemma_rewrite_fits(t, s, keys, i, next);
            assert(s.low.dom().contains(id));
            lemma_delete_applied(t, s, keys, tx_id, logical, row, reader, i, pos);
            let after = shape::contents(t2, s.leaves);
            let at = a.len() + pos;
            assert(after =~= before.update(at as int, model::marked(e, tx_id)));
            assert(marks_one(before, after, at as int, tx_id, logical, row, reader));
            assert(!all_marked(before, logical, row, reader));
        }
    } else {
        assert forall|j: int, m: int|
            i <= j < n && 0 <= m < shape::list(t, s.leaves[j]).len() implies !model::is_entry_of(
            #[trigger] shape::list(t, s.leaves[j])[m],
            logical,
            row,
        ) by {
            if model::is_entry_of(shape::list(t, s.leaves[j])[m], logical, row) {
                lemma_entry_at_home(t, s, keys, logical, row, i, j, m);
            }
        }
        lemma_mark_none(t, s, keys, tx_id, logical, row, reader, i, t.walk_limit());
        if holds(before, logical, row) {
            let j = choose|j: int| 0 <= j < n && holds(shape::list(t, #[trigger] s.leaves[j]), logical, row);
            let m = choose|m: int|
                0 <= m < shape::list(t, s.leaves[j]).len() && model::is_entry_of(
                    #[trigger] shape::list(t, s.leaves[j])[m],
                    logical,
                    row,
                );
            lemma_entry_at_home(t, s, keys, logical, row, i, j, m);
        }
    }
}

proof fn lemma_delete_applied(
    t: IndexView,
    s: Shape,
    keys: KeySpace,
    tx_id: TxId,
    logical: Seq<u8>,
    row: IndexRowRef,
    reader: Reader,
    i: int,
    pos: int,
)
    requires
        shape::linked(t, s, keys),
        0 <= i < s.leaves.len(),
        0 <= pos < shape::list(t, s.leaves[i]).len(),
        ({
            let es = shape::list(t, s.leaves[i]);
            let t3 = t.rewrite_leaf(
                s.leaves[i],
                shape::head(t, s.leaves[i]),
                es.update(pos, model::marked(es[pos], tx_id)),
                tx_id,
            );
            &&& t.delete_marked(tx_id, logical, row, reader) == t3
            &&& t3.1 is Ok
        }),
    ensures
        ({
            let t2 = t.delete_marked(tx_id, logical, row, reader).0;
            let es = shape::list(t, s.leaves[i]);
            &&& shape::linked(t2, s, keys)
            &&& shape::parted(t, s) ==> shape::parted(t2, s)
            &&& t2.pool.page_size == t.pool.page_size
            &&& shape::contents(t2, s.leaves) == shape::contents(t, s.leaves.subrange(0, i)) + es.update(
                pos,
                model::marked(es[pos], tx_id),
            ) + shape::contents(t, s.leaves.subrange(i + 1, s.leaves.len() as int))
        }),
{
    let id = s.leaves[i];
    let h = shape::head(t, id);
    let es = shape::list(t, id);
    let next = es.update(pos, model::marked(es[pos], tx_id));
    assert(shape::readable(t, s, id));
    assert(shape::leaf_ok(h, es, s, i, keys));
    assert(shape::leaf_entry_ok(es[pos], keys));
    lemma_marked(es[pos], tx_id, keys);
    assert forall|j: int| 0 <= j < next.len() implies shape::leaf_entry_ok(#[trigger] next[j], keys) && next[j].sort_key()
        == es[j].sort_key() && next[j].logical() == es[j].logical() by {
        assert(shape::leaf_entry_ok(es[j], keys));
    }
    assert forall|j: int, k: int| 0 <= j < k < next.len() implies order::bytes_le(
        (#[trigger] next[j]).sort_key(),
        (#[trigger] next[k]).sort_key(),
    ) by {
        assert(order::bytes_le(es[j].sort_key(), es[k].sort_key()));
    }
    assert forall|j: int| 0 <= j < next.len() implies order::bytes_le(s.low[id], (#[trigger] next[j]).sort_key()) by {
        assert(order::bytes_le(s.low[id], es[j].sort_key()));
    }
    if i + 1 < s.leaves.len() {
        assert forall|j: int| 0 <= j < next.len() implies order::bytes_le(
            (#[trigger] next[j]).sort_key(),
            s.low[s.leaves[i + 1]],
        ) by {
            assert(order::bytes_le(es[j].sort_key(), s.low[s.leaves[i + 1]]));
        }
    }
    lemma_leaf_rewritten(t, s, keys, i, next, tx_id);
    let t2 = t.delete_marked(tx_id, logical, row, reader).0;
    if shape::parted(t, s) {
        assert forall|j: int| 0 <= j < s.leaves.len() - 1 implies shape::strictly_before(
            shape::list(t2, #[trigger] s.leaves[j]),
            s.low[s.leaves[j + 1]],
        ) by {
            assert(shape::strictly_before(shape::list(t, s.leaves[j]), s.low[s.leaves[j + 1]]));
            if j == i {
                assert forall|m: int| 0 <= m < next.len() implies order::bytes_lt(
                    (#[trigger] next[m]).sort_key(),
                    s.low[s.leaves[j + 1]],
                ) by {
                    assert(order::bytes_lt(es[m].sort_key(), s.low[s.leaves[j + 1]]));
                }
            }
        }
    }
}

/// Rewriting a leaf with other entries out of its range.
proof fn lemma_leaf_rewritten(t: IndexView, s: Shape, keys: KeySpace, i: int, next: Seq<EntryView>, tx_id: TxId)
    requires
        shape::linked(t, s, keys),
        0 <= i < s.leaves.len(),
        shape::leaf_entries_ok(next, keys),
        shape::at_or_behind(next, s.low[s.leaves[i]]),
        i + 1 < s.leaves.len() ==> shape::at_or_before(next, s.low[s.leaves[i + 1]]),
        t.rewrite_leaf(s.leaves[i], shape::head(t, s.leaves[i]), next, tx_id).1 is Ok,
    ensures
        ({
            let t2 = t.rewrite_leaf(s.leaves[i], shape::head(t, s.leaves[i]), next, tx_id).0;
            &&& shape::linked(t2, s, keys)
            &&& t2.pool.page_size == t.pool.page_size
            &&& shape::list(t2, s.leaves[i]) == next
            &&& forall|j: int|
                0 <= j < s.leaves.len() && j != i ==> shape::list(t2, #[trigger] s.leaves[j]) == shape::list(
                    t,
                    s.leaves[j],
                )
            &&& shape::contents(t2, s.leaves) == shape::contents(t, s.leaves.subrange(0, i)) + next + shape::contents(
                t,
                s.leaves.subrange(i + 1, s.leaves.len() as int),
            )
        }),
{
    let id = s.leaves[i];
    let h = shape::head(t, id);
    assert(shape::readable(t, s, id));
    let h2 = HeaderView { kind: PAGE_LEAF_KIND, level: 0, index_id: t.desc.index_id, ..h };
    growth::lemma_leaf_ok_entries(t, s, keys, i, h2, next);
    growth::lemma_header_links(t, id);
    assert(growth::all_of_kind(next, true)) by {
        assert forall|j: int| 0 <= j < next.len() implies ((#[trigger] next[j]) is Leaf) == true by {
            assert(shape::leaf_entry_ok(next[j], keys));
        }
    }
    let w = t.rewrite(id, true, h2, next).0;
    growth::lemma_rewrite(t, id, true, h2, next);
    let t2 = w.recorded(id, tx_id);
    growth::lemma_recorded(w, id, tx_id);
    assert(growth::agree(w, t2, id));
    assert forall|x: PageId| x != id implies #[trigger] growth::agree(t, t2, x) by {
        assert(growth::agree(t, w, x) && growth::agree(w, t2, x));
    }
    growth::lemma_leaf_replaced(t, t2, s, keys, i);
}

/// Entries that stay are entries of the list, in the same order.
proof fn lemma_without(es: Seq<EntryView>, gone: spec_fn(EntryView) -> bool, keys: KeySpace)
    requires
        shape::leaf_entries_ok(es, keys),
    ensures
        shape::leaf_entries_ok(model::without(es, gone), keys),
        forall|low: Seq<u8>| shape::at_or_behind(es, low) ==> #[trigger] shape::at_or_behind(model::without(es, gone), low),
        forall|high: Seq<u8>| shape::at_or_before(es, high) ==> #[trigger] shape::at_or_before(model::without(es, gone), high),
        forall|j: int| 0 <= j < model::without(es, gone).len() ==> es.contains(#[trigger] model::without(es, gone)[j]),
    decreases es.len(),
{
    let kept = model::without(es, gone);
    if es.len() > 0 {
        let init = es.drop_last();
        growth::lemma_part_ok(es, keys, 0, es.len() - 1);
        assert(init =~= es.subrange(0, es.len() - 1));
        lemma_without(init, gone, keys);
        let front = model::without(init, gone);
        assert(shape::leaf_entry_ok(es[es.len() - 1], keys));
        assert forall|j: int| 0 <= j < kept.len() implies es.contains(#[trigger] kept[j]) by {
            if j < front.len() {
                assert(kept[j] == front[j]);
                assert(init.contains(front[j]));
                let m = choose|m: int| 0 <= m < init.len() && init[m] == front[j];
                assert(es[m] == kept[j]);
            } else {
                assert(kept[j] == es[es.len() - 1]);
            }
        }
        assert forall|j: int| 0 <= j < kept.len() implies shape::leaf_entry_ok(#[trigger] kept[j], keys) by {
            if j < front.len() {
                assert(kept[j] == front[j]);
            }
        }
        assert forall|j: int, k: int| 0 <= j < k < kept.len() implies order::bytes_le(
            (#[trigger] kept[j]).sort_key(),
            (#[trigger] kept[k]).sort_key(),
        ) by {
            assert(kept[j] == front[j]);
            if k < front.len() {
                assert(kept[k] == front[k]);
            } else {
                assert(init.contains(front[j]));
                let m = choose|m: int| 0 <= m < init.len() && init[m] == front[j];
                assert(order::bytes_le(es[m].sort_key(), es[es.len() - 1].sort_key()));
            }
        }
    }
    assert forall|low: Seq<u8>| shape::at_or_behind(es, low) implies #[trigger] shape::at_or_behind(kept, low) by {
        assert forall|j: int| 0 <= j < kept.len() implies order::bytes_le(low, (#[trigger] kept[j]).sort_key()) by {
            assert(es.contains(kept[j]));
            let m = choose|m: int| 0 <= m < es.len() && es[m] == kept[j];
            assert(order::bytes_le(low, es[m].sort_key()));
        }
    }
    assert forall|high: Seq<u8>| shape::at_or_before(es, high) implies #[trigger] shape::at_or_before(kept, high) by {
        assert forall|j: int| 0 <= j < kept.len() implies order::bytes_le((#[trigger] kept[j]).sort_key(), high) by {
            assert(es.contains(kept[j]));
            let m = choose|m: int| 0 <= m < es.len() && es[m] == kept[j];
            assert(order::bytes_le(es[m].sort_key(), high));
        }
    }
}

/// Rows of entries that a reader does not admit are not found anyway.
proof fn lemma_rows_after_sweep(es: Seq<EntryView>, gone: spec_fn(EntryView) -> bool, k: Seq<u8>, reader: Reader)
    requires
        forall|j: int| 0 <= j < es.len() && gone(#[trigger] es[j]) ==> !model::admits(reader, es[j]),
    ensures
        shape::rows_of(model::without(es, gone), k, reader) == shape::rows_of(es, k, reader),
    decreases es.len(),
{
    if es.len() > 0 {
        let init = es.drop_last();
        assert forall|j: int| 0 <= j < init.len() && gone(#[trigger] init[j]) implies !model::admits(reader, init[j]) by {
            assert(init[j] == es[j]);
        }
        lemma_rows_after_sweep(init, gone, k, reader);
        assert(gone(es[es.len() - 1]) ==> !model::admits(reader, es[es.len() - 1]));
        if !gone(es.last()) {
            assert(model::without(es, gone).drop_last() =~= model::without(init, gone));
        }
    }
}

/// Taking entries out of a leaf keeps physical keys on one leaf each.
proof fn lemma_swept_parted(
    t: IndexView,
    t2: IndexView,
    s: Shape,
    i: int,
    gone: spec_fn(EntryView) -> bool,
    keys: KeySpace,
)
    requires
        shape::parted(t, s),
        0 <= i < s.leaves.len(),
        shape::leaf_entries_ok(shape::list(t, s.leaves[i]), keys),
        shape::list(t2, s.leaves[i]) == model::without(shape::list(t, s.leaves[i]), gone),
        forall|j: int|
            0 <= j < s.leaves.len() && j != i ==> shape::list(t2, #[trigger] s.leaves[j]) == shape::list(t, s.leaves[j]),
    ensures
        shape::parted(t2, s),
{
    let es = shape::list(t, s.leaves[i]);
    let kept = model::without(es, gone);
    lemma_without(es, gone, keys);
    assert forall|j: int| 0 <= j < s.leaves.len() - 1 implies shape::strictly_before(
        shape::list(t2, #[trigger] s.leaves[j]),
        s.low[s.leaves[j + 1]],
    ) by {
        let high = s.low[s.leaves[j + 1]];
        assert(shape::strictly_before(shape::list(t, s.leaves[j]), high));
        if j == i {
            assert forall|m: int| 0 <= m < kept.len() implies order::bytes_lt((#[trigger] kept[m]).sort_key(), high) by {
                assert(es.contains(kept[m]));
                let n = choose|n: int| 0 <= n < es.len() && es[n] == kept[m];
                assert(order::bytes_lt(es[n].sort_key(), high));
            }
        }
    }
}

proof fn lemma_none_gone(es: Seq<EntryView>, gone: spec_fn(EntryView) -> bool)
    requires
        model::without(es, gone).len() == es.len(),
    ensures
        model::without(es, gone) == es,
    decreases es.len(),
{
    lemma_fewer(es, gone);
    if es.len() > 0 {
        lemma_fewer(es.drop_last(), gone);
        lemma_none_gone(es.drop_last(), gone);
        assert(es.drop_last().push(es.last()) =~= es);
    } else {
        assert(es =~= Seq::empty());
    }
}

proof fn lemma_fewer(es: Seq<EntryView>, gone: spec_fn(EntryView) -> bool)
    ensures
        model::without(es, gone).len() <= es.len(),
    decreases es.len(),
{
    if es.len() > 0 {
        lemma_fewer(es.drop_last(), gone);
    }
}

/// Sweeping a leaf succeeds and keeps an ordered index ordered, and a reader who admits none of the entries that
/// go finds the same rows as before. The leaf holds its other entries, in their order, and no other leaf changes.
pub proof fn law_sweep_is_not_noticed(
    t: IndexView,
    s: Shape,
    keys: KeySpace,
    i: int,
    gone: spec_fn(EntryView) -> bool,
    k: Seq<u8>,
    reader: Reader,
)
    requires
        shape::linked(t, s, keys),
        keys.contains(k),
        shape::pages_fit(t),
        0 <= i < s.leaves.len(),
        forall|e: EntryView| gone(e) ==> !#[trigger] model::admits(reader, e),
    ensures
        t.swept(s.leaves[i], gone).1 == Ok::<(), Error>(()),
        shape::linked(t.swept(s.leaves[i], gone).0, s, keys),
        shape::parted(t, s) ==> shape::parted(t.swept(s.leaves[i], gone).0, s),
        t.swept(s.leaves[i], gone).0.lookup(k, reader) == t.lookup(k, reader),
        t.lookup(k, reader) is Ok,
        shape::list(t.swept(s.leaves[i], gone).0, s.leaves[i]) == shape::list(t, s.leaves[i]).filter(
            |e: EntryView| !gone(e),
        ),
        forall|j: int|
            0 <= j < s.leaves.len() && j != i ==> shape::list(t.swept(s.leaves[i], gone).0, #[trigger] s.leaves[j])
                == shape::list(t, s.leaves[j]),
{
    let id = s.leaves[i];
    let h = shape::head(t, id);
    let es = shape::list(t, id);
    let kept = model::without(es, gone);
    let n = s.leaves.len() as int;
    assert(shape::readable(t, s, id));
    assert(shape::leaf_ok(h, es, s, i, keys));
    laws::law_lookup_is_exact(t, s, keys, k, reader);
    let t2 = t.swept(id, gone).0;
    visibility::law_others_stay(es, gone);
    if kept.len() == es.len() {
        lemma_none_gone(es, gone);
    }
    assert forall|j: int| 0 <= j < s.leaves.len() && j != i implies #[trigger] s.leaves[j] != id by {}
    if kept.len() != es.len() {
        lemma_without(es, gone, keys);
        let h2 = HeaderView { kind: PAGE_LEAF_KIND, level: 0, index_id: t.desc.index_id, ..h };
        growth::lemma_leaf_ok_entries(t, s, keys, i, h2, kept);
        growth::lemma_header_links(t, id);
        assert(growth::all_of_kind(kept, true)) by {
            assert forall|j: int| 0 <= j < kept.len() implies ((#[trigger] kept[j]) is Leaf) == true by {
                assert(shape::leaf_entry_ok(kept[j], keys));
            }
        }
        lemma_required_without(es, gone);
        lemma_rewrite_fits(t, s, keys, i, kept);
        let w = t.rewrite(id, true, h2, kept).0;
        growth::lemma_rewrite(t, id, true, h2, kept);
        assert forall|x: PageId| #[trigger] growth::agree(w, t2, x) by {
            if w.pool.has(x) && x != id {
                assert(t2.pool.frames[x.0 - 1] == w.pool.frames[x.0 - 1]);
            }
        }
        assert(growth::agree(w, t2, id));
        assert forall|x: PageId| x != id implies #[trigger] growth::agree(t, t2, x) by {
            assert(growth::agree(t, w, x) && growth::agree(w, t2, x));
        }
        growth::lemma_leaf_replaced(t, t2, s, keys, i);
        if shape::parted(t, s) {
            lemma_swept_parted(t, t2, s, i, gone, keys);
        }
        laws::law_lookup_is_exact(t2, s, keys, k, reader);
        growth::lemma_contents_around(t, s.leaves, i);
        lemma_rows_after_sweep(es, gone, k, reader);
        let a = shape::contents(t, s.leaves.subrange(0, i));
        let c = shape::contents(t, s.leaves.subrange(i + 1, n));
        laws::lemma_rows_add(a + es, c, k, reader);
        laws::lemma_rows_add(a, es, k, reader);
        laws::lemma_rows_add(a + kept, c, k, reader);
        laws::lemma_rows_add(a, kept, k, reader);
    }
}

/// Marking a live entry takes its row out of the rows found and keeps the others in their order.
proof fn lemma_rows_marked(
    before: Seq<EntryView>,
    n: int,
    tx_id: TxId,
    logical: Seq<u8>,
    row: IndexRowRef,
    k: Seq<u8>,
)
    requires
        0 <= n < before.len(),
        model::is_entry_of(before[n], logical, row),
        before[n].live(),
        tx_id != TxId(0),
    ensures
        ({
            let rows = shape::rows_of(before, k, Reader::Live);
            let left = shape::rows_of(before.update(n, model::marked(before[n], tx_id)), k, Reader::Live);
            if k == logical {
                exists|p: int| 0 <= p < rows.len() && rows[p] == row && left == #[trigger] rows.remove(p)
            } else {
                left == rows
            }
        }),
{
    let after = before.update(n, model::marked(before[n], tx_id));
    let a = before.take(n);
    let c = before.skip(n + 1);
    let one = seq![before[n]];
    let two = seq![model::marked(before[n], tx_id)];
    assert(before =~= a + one + c);
    assert(after =~= a + two + c);
    laws::lemma_rows_add(a + one, c, k, Reader::Live);
    laws::lemma_rows_add(a, one, k, Reader::Live);
    laws::lemma_rows_add(a + two, c, k, Reader::Live);
    laws::lemma_rows_add(a, two, k, Reader::Live);
    reveal_with_fuel(shape::rows_of, 2);
    assert(one.drop_last() =~= Seq::empty());
    assert(two.drop_last() =~= Seq::empty());
    let ra = shape::rows_of(a, k, Reader::Live);
    let rc = shape::rows_of(c, k, Reader::Live);
    assert(shape::rows_of(two, k, Reader::Live) =~= Seq::empty());
    assert(shape::rows_of(after, k, Reader::Live) =~= ra + rc);
    if k == logical {
        assert(shape::rows_of(one, k, Reader::Live) =~= seq![row]);
        let rows = shape::rows_of(before, k, Reader::Live);
        assert(rows =~= ra + seq![row] + rc);
        assert(rows.remove(ra.len() as int) =~= ra + rc);
        assert(rows[ra.len() as int] == row);
    } else {
        assert(shape::rows_of(one, k, Reader::Live) =~= Seq::empty());
        assert(shape::rows_of(before, k, Reader::Live) =~= ra + rc);
    }
}

/// A row whose entry is marked deleted is found no more: a lookup of its key finds the other rows
/// that it found before, in their order, and a lookup of any other key finds what it found before. A
/// row that has been marked before is left out: its mark stands and nothing changes. So is a row of
/// which two entries stand on two leaves.
pub proof fn law_deleted_row_is_gone(
    t: IndexView,
    s: Shape,
    keys: KeySpace,
    tx_id: TxId,
    logical: Seq<u8>,
    row: IndexRowRef,
    k: Seq<u8>,
)
    requires
        shape::linked(t, s, keys),
        shape::pages_fit(t),
        shape::log_takes(t, s, tx_id),
        shape::apart(t, s, key::physical_key(logical, row)),
        keys.contains(k),
        tx_id != TxId(0),
        holds(shape::contents(t, s.leaves), logical, row),
        forall|n: int|
            0 <= n < shape::contents(t, s.leaves).len() && model::is_entry_of(
                #[trigger] shape::contents(t, s.leaves)[n],
                logical,
                row,
            ) ==> shape::contents(t, s.leaves)[n].live(),
    ensures
        ({
            let t2 = t.delete_marked(tx_id, logical, row, Reader::Live).0;
            let rows = t.lookup(k, Reader::Live)->Ok_0;
            &&& t.delete_marked(tx_id, logical, row, Reader::Live).1 == Ok::<(), Error>(())
            &&& t.lookup(k, Reader::Live) is Ok
            &&& t2.lookup(k, Reader::Live) is Ok
            &&& if k == logical {
                exists|p: int|
                    0 <= p < rows.len() && rows[p] == row && t2.lookup(k, Reader::Live)->Ok_0 == #[trigger] rows.remove(p)
            } else {
                t2.lookup(k, Reader::Live)->Ok_0 == rows
            }
        }),
{
    let t2 = t.delete_marked(tx_id, logical, row, Reader::Live).0;
    let before = shape::contents(t, s.leaves);
    let after = shape::contents(t2, s.leaves);
    law_delete_mark_keeps_order(t, s, keys, tx_id, logical, row, Reader::Live);
    laws::law_lookup_is_exact(t, s, keys, k, Reader::Live);
    laws::law_lookup_is_exact(t2, s, keys, k, Reader::Live);
    let m = choose|m: int| 0 <= m < before.len() && model::is_entry_of(#[trigger] before[m], logical, row);
    assert(before[m].live());
    assert(!all_marked(before, logical, row, Reader::Live));
    assert(exists|n: int| #[trigger] marks_one(before, after, n, tx_id, logical, row, Reader::Live));
    let n = choose|n: int| #[trigger] marks_one(before, after, n, tx_id, logical, row, Reader::Live);
    assert(before[n].live());
    lemma_rows_marked(before, n, tx_id, logical, row, k);
    let rows = shape::rows_of(before, k, Reader::Live);
    let left = shape::rows_of(after, k, Reader::Live);
    assert(t.lookup(k, Reader::Live)->Ok_0 == rows);
    assert(t2.lookup(k, Reader::Live)->Ok_0 == left);
    if k == logical {
        let p = choose|p: int| 0 <= p < rows.len() && rows[p] == row && left == #[trigger] rows.remove(p);
        assert(t2.lookup(k, Reader::Live)->Ok_0 == rows.remove(p));
    }
}

/// An insert of a key that has no live row leaves it with exactly one.
#[verifier::spinoff_prover]
#[verifier::rlimit(60)]
pub proof fn law_unique_insert_gives_one_row(
    t: IndexView,
    s: Shape,
    keys: KeySpace,
    logical: Seq<u8>,
    row: IndexRowRef,
)
    requires
        shape::linked(t, s, keys),
        t.pool.page_size <= MAX_PAGE_SIZE,
        keys.contains(logical),
        keys.rows.contains(row),
        t.inserted(TxId(0), logical, row).1 is Ok,
        t.lookup(logical, Reader::Live) == Ok::<Seq<IndexRowRef>, Error>(Seq::empty()),
    ensures
        t.inserted(TxId(0), logical, row).0.lookup(logical, Reader::Live) == Ok::<Seq<IndexRowRef>, Error>(seq![row]),
{
    broadcast use group_to_multiset_ensures;

    law_insert_is_found(t, s, keys, TxId(0), logical, row, logical, Reader::Live);
    let rows = t.inserted(TxId(0), logical, row).0.lookup(logical, Reader::Live)->Ok_0;
    assert(rows.len() == rows.to_multiset().len());
    assert(Seq::<IndexRowRef>::empty().to_multiset().len() == 0);
    assert(rows.len() == 1);
    assert(rows.to_multiset().contains(row));
    assert(rows.contains(row));
    assert(rows =~= seq![row]);
}

} // verus!
