//! An insert that has to split pages succeeds as long as the file can grow.
use crate::error::Error;
use crate::format::order;
use crate::format::page::{PageKind, MAX_PAGE_SIZE, SLOT_LEN};
use crate::format::{PageId, TxId};
use crate::index::cell::EntryView;
use crate::index::entries;
use crate::index::growth;
use crate::index::key;
use crate::index::model;
use crate::index::model::IndexView;
use crate::index::node::{HeaderView, MAX_HIGH_KEY_LEN, PAGE_INTERNAL_KIND, PAGE_LEAF_KIND};
use crate::index::outcomes;
use crate::index::shape;
use crate::index::shape::{KeySpace, Shape};
use crate::index::{IndexId, IndexRowRef, IndexUniqueness};
use vstd::prelude::*;
use vstd::seq_lib::*;

verus! {

/// The smallest page size at which both halves of a full internal node always fit a page.
pub const SPLIT_PAGE_SIZE: usize = 4282;

/// All entries are links with separators that can become high keys.
pub open spec fn short_links(es: Seq<EntryView>) -> bool {
    forall|j: int| 0 <= j < es.len() ==> (#[trigger] es[j]) is Internal && es[j]->separator.len() <= MAX_HIGH_KEY_LEN
}

/// Whether a page is an internal node that can take more links, by splitting if need be.
pub open spec fn takes_links(t: IndexView, id: PageId) -> bool {
    &&& t.pool.has(id)
    &&& id != t.meta_page_id
    &&& t.pool.frames[id.0 - 1].page.size == t.pool.page_size
    &&& t.header(id) is Ok
    &&& t.entries(id) is Ok
    &&& shape::head(t, id).kind == PAGE_INTERNAL_KIND
    &&& shape::head(t, id).high_key.len() <= MAX_HIGH_KEY_LEN
    &&& short_links(shape::list(t, id))
    &&& entries::required_len(shape::list(t, id)) <= t.pool.page_size - 304
}

/// Whether changes are noted without a log.
pub open spec fn unlogged(t: IndexView, tx_id: TxId) -> bool {
    tx_id == TxId(0) || t.log is None
}

/// Whether the meta page can name another root.
pub open spec fn meta_writable(t: IndexView) -> bool {
    &&& t.meta() is Ok
    &&& t.pool.has(t.meta_page_id)
    &&& t.pool.frames[t.meta_page_id.0 - 1].page.special.len() >= 34
}

/// What a change of one page keeps.
spec fn keeps(t: IndexView, t2: IndexView, at: PageId) -> bool {
    &&& t2.pool.frames.len() == t.pool.frames.len()
    &&& t2.pool.page_size == t.pool.page_size
    &&& t2.meta_page_id == t.meta_page_id
    &&& t2.desc == t.desc
    &&& forall|x: PageId| x != at ==> #[trigger] growth::agree(t, t2, x)
}

/// A page that takes a node and is noted without a log.
proof fn lemma_written(t: IndexView, at: PageId, leaf: bool, h: HeaderView, es: Seq<EntryView>)
    requires
        t.pool.has(at),
        t.pool.frames[at.0 - 1].page.size >= 304,
        h.high_key.len() <= MAX_HIGH_KEY_LEN,
        growth::all_of_kind(es, leaf),
        entries::required_len(es) <= t.pool.frames[at.0 - 1].page.size - 304,
    ensures
        t.rewrite(at, leaf, h, es).1 == Ok::<(), Error>(()),
        t.rewrite(at, leaf, h, es).0.log == t.log,
        keeps(t, t.rewrite(at, leaf, h, es).0, at),
{
    outcomes::lemma_page_takes(t, at, leaf, h, es);
    let after = t.rewrite(at, leaf, h, es).0;
    assert forall|x: PageId| x != at implies #[trigger] growth::agree(t, after, x) by {
        if t.pool.has(x) {
            assert(after.pool.frames[x.0 - 1] == t.pool.frames[x.0 - 1]);
        }
    }
}

proof fn lemma_noted(t: IndexView, at: PageId, tx_id: TxId)
    requires
        t.pool.has(at),
        unlogged(t, tx_id),
    ensures
        t.record(at, tx_id) == (t.recorded(at, tx_id), Ok::<(), Error>(())),
        unlogged(t.recorded(at, tx_id), tx_id),
        t.recorded(at, tx_id).pool.page_size == t.pool.page_size,
{
}

/// Links take between 14 and 234 bytes each.
proof fn lemma_links_len(es: Seq<EntryView>)
    requires
        short_links(es),
    ensures
        14 * es.len() <= entries::required_len(es) <= 234 * es.len(),
    decreases es.len(),
{
    if es.len() > 0 {
        assert forall|j: int| 0 <= j < es.drop_last().len() implies (#[trigger] es.drop_last()[j]) is Internal
            && es.drop_last()[j]->separator.len() <= MAX_HIGH_KEY_LEN by {
            assert(es.drop_last()[j] == es[j]);
        }
        lemma_links_len(es.drop_last());
        assert(es[es.len() - 1] is Internal);
    }
}

proof fn lemma_len_parts(es: Seq<EntryView>, i: int)
    requires
        0 <= i <= es.len(),
    ensures
        entries::required_len(es) == entries::required_len(es.subrange(0, i)) + entries::required_len(
            es.subrange(i, es.len() as int),
        ),
    decreases es.len(),
{
    if i == es.len() {
        assert(es.subrange(0, i) =~= es);
    } else {
        lemma_len_parts(es.drop_last(), i);
        let right = es.subrange(i, es.len() as int);
        assert(right.drop_last() =~= es.drop_last().subrange(i, es.len() - 1));
        assert(es.drop_last().subrange(0, i) =~= es.subrange(0, i));
    }
}

/// Both halves of a node that is one link too full fit a page.
proof fn lemma_halves_fit(all: Seq<EntryView>, size: int)
    requires
        short_links(all),
        size >= SPLIT_PAGE_SIZE,
        entries::required_len(all) <= size - 304 + 234,
        all.len() >= 2,
    ensures
        ({
            let split = all.len() as int / 2;
            let left = all.subrange(0, split);
            let right = all.subrange(split, all.len() as int);
            &&& entries::required_len(left) <= size - 304
            &&& entries::required_len(right) <= size - 304
            &&& short_links(left)
            &&& short_links(right)
        }),
{
    let split = all.len() as int / 2;
    let left = all.subrange(0, split);
    let right = all.subrange(split, all.len() as int);
    lemma_len_parts(all, split);
    assert(short_links(left)) by {
        assert forall|j: int| 0 <= j < left.len() implies (#[trigger] left[j]) is Internal && left[j]->separator.len()
            <= MAX_HIGH_KEY_LEN by {
            assert(left[j] == all[j]);
        }
    }
    assert(short_links(right)) by {
        assert forall|j: int| 0 <= j < right.len() implies (#[trigger] right[j]) is Internal && right[j]->separator.len()
            <= MAX_HIGH_KEY_LEN by {
            assert(right[j] == all[split + j]);
        }
    }
    lemma_links_len(left);
    lemma_links_len(right);
}

proof fn lemma_placed_len(es: Seq<EntryView>, e: EntryView)
    ensures
        entries::required_len(entries::insert_behind(es, e)) == entries::required_len(es.push(e)),
    decreases es.len(),
{
    assert(es.push(e).drop_last() =~= es);
    if es.len() > 0 && e.before(es.last()) {
        let init = es.drop_last();
        lemma_placed_len(init, e);
        assert(init.push(e).drop_last() =~= init);
        let placed = entries::insert_behind(init, e);
        assert(placed.push(es.last()).drop_last() =~= placed);
        assert(entries::insert_behind(es, e) =~= placed.push(es.last()));
        assert(entries::required_len(init.push(e)) == entries::required_len(init) + e.cell_len() + SLOT_LEN);
        assert(entries::required_len(placed.push(es.last())) == entries::required_len(placed) + es.last().cell_len()
            + SLOT_LEN);
        assert(entries::required_len(es.push(e)) == entries::required_len(es) + e.cell_len() + SLOT_LEN);
    }
}

/// Sorting entries does not change the room they take.
proof fn lemma_sorted_len(es: Seq<EntryView>)
    ensures
        entries::required_len(entries::stable_sorted(es)) == entries::required_len(es),
    decreases es.len(),
{
    if es.len() > 0 {
        let init = es.drop_last();
        let sorted = entries::stable_sorted(init);
        lemma_sorted_len(init);
        lemma_placed_len(sorted, es.last());
        assert(sorted.push(es.last()).drop_last() =~= sorted);
    }
}

/// A node with one more short link.
proof fn lemma_one_more_link(es: Seq<EntryView>, separator: Seq<u8>, right: PageId)
    requires
        short_links(es),
        separator.len() <= MAX_HIGH_KEY_LEN,
    ensures
        ({
            let all = entries::stable_sorted(es.push(EntryView::Internal { separator, child: right }));
            &&& short_links(all)
            &&& entries::required_len(all) <= entries::required_len(es) + 234
        }),
{
    broadcast use group_to_multiset_ensures;

    let more = es.push(EntryView::Internal { separator, child: right });
    let all = entries::stable_sorted(more);
    growth::lemma_sorted_members(more);
    lemma_sorted_len(more);
    assert(more.drop_last() =~= es);
    assert forall|j: int| 0 <= j < all.len() implies (#[trigger] all[j]) is Internal && all[j]->separator.len()
        <= MAX_HIGH_KEY_LEN by {
        assert(all.contains(all[j]));
        assert(more.contains(all[j]));
        let m = choose|m: int| 0 <= m < more.len() && more[m] == all[j];
        if m < es.len() {
            assert(more[m] == es[m]);
        }
    }
}

proof fn lemma_links_kind(es: Seq<EntryView>)
    requires
        short_links(es),
    ensures
        growth::all_of_kind(es, false),
{
    assert forall|j: int| 0 <= j < es.len() implies ((#[trigger] es[j]) is Leaf) == false by {
        assert(es[j] is Internal);
    }
}

/// A new root can be put above two pages.
proof fn lemma_root_taken(
    t: IndexView,
    index_id: IndexId,
    left: PageId,
    right: PageId,
    separator: Seq<u8>,
    level: u16,
    tx_id: TxId,
)
    requires
        unlogged(t, tx_id),
        SPLIT_PAGE_SIZE <= t.pool.page_size <= MAX_PAGE_SIZE,
        t.pool.can_grow(),
        separator.len() <= MAX_HIGH_KEY_LEN,
        meta_writable(t),
    ensures
        t.new_root(index_id, left, right, separator, level, tx_id).1 == Ok::<(), Error>(()),
{
    let id = t.pool.next_id();
    let g = t.with_pool(t.pool.grown(PageKind::BtreeInternal, t.desc.rel_id));
    growth::lemma_grown(t, PageKind::BtreeInternal);
    let h = HeaderView {
        kind: PAGE_INTERNAL_KIND,
        level,
        index_id,
        left: Some(left),
        right: None,
        high_key: Seq::empty(),
    };
    let es = seq![EntryView::Internal { separator, child: right }];
    assert(short_links(es));
    lemma_links_kind(es);
    lemma_links_len(es);
    lemma_written(g, id, false, h, es);
    let w = g.rewrite(id, false, h, es).0;
    lemma_noted(w, id, tx_id);
    let r = w.recorded(id, tx_id);
    growth::lemma_recorded(w, id, tx_id);
    let m = t.meta_page_id;
    assert(growth::agree(t, g, m) && growth::agree(g, w, m) && growth::agree(w, r, m));
}

/// A full internal node can be split, and no other page that was there changes.
#[verifier::spinoff_prover]
proof fn lemma_split_taken(t: IndexView, index_id: IndexId, parent: PageId, all: Seq<EntryView>, tx_id: TxId)
    requires
        unlogged(t, tx_id),
        SPLIT_PAGE_SIZE <= t.pool.page_size <= MAX_PAGE_SIZE,
        t.pool.can_grow(),
        takes_links(t, parent),
        short_links(all),
        all.len() >= 2,
        entries::required_len(all) <= t.pool.page_size - 304 + 234,
    ensures
        ({
            let (t2, r) = t.split_internal(index_id, parent, shape::head(t, parent), all, tx_id);
            &&& r is Ok
            &&& r->Ok_0.1.len() <= MAX_HIGH_KEY_LEN
            &&& unlogged(t2, tx_id)
            &&& t2.pool.frames.len() == t.pool.frames.len() + 1
            &&& t2.pool.page_size == t.pool.page_size
            &&& t2.meta_page_id == t.meta_page_id
            &&& forall|x: PageId| t.pool.has(x) && x != parent ==> #[trigger] growth::agree(t, t2, x)
        }),
{
    let h = shape::head(t, parent);
    let n = all.len() as int;
    let split = n / 2;
    let left = all.subrange(0, split);
    let right = all.subrange(split, n);
    let id = t.pool.next_id();
    let g = t.with_pool(t.pool.grown(PageKind::BtreeInternal, t.desc.rel_id));
    growth::lemma_grown(t, PageKind::BtreeInternal);
    assert(growth::agree(t, g, parent));
    lemma_halves_fit(all, t.pool.page_size as int);
    lemma_links_kind(left);
    lemma_links_kind(right);
    assert(right[0] is Internal);
    let child = right[0]->child;
    let separator = right[0]->separator;
    let h1 = HeaderView { index_id, right: Some(id), high_key: separator, ..h };
    let h2 = HeaderView { index_id, left: Some(child), ..h };
    lemma_written(g, parent, false, h1, left);
    let one = g.rewrite(parent, false, h1, left).0;
    assert(growth::agree(g, one, id));
    lemma_written(one, id, false, h2, right);
    let two = one.rewrite(id, false, h2, right).0;
    lemma_noted(two, parent, tx_id);
    let three = two.recorded(parent, tx_id);
    growth::lemma_recorded(two, parent, tx_id);
    lemma_noted(three, id, tx_id);
    let t2 = three.recorded(id, tx_id);
    growth::lemma_recorded(three, id, tx_id);
    assert forall|x: PageId| t.pool.has(x) && x != parent implies #[trigger] growth::agree(t, t2, x) by {
        assert(growth::agree(t, g, x) && growth::agree(g, one, x) && growth::agree(one, two, x) && growth::agree(
            two,
            three,
            x,
        ) && growth::agree(three, t2, x));
    }
}

/// A page that has not changed takes links as before.
proof fn lemma_still_takes(t: IndexView, t2: IndexView, id: PageId)
    requires
        takes_links(t, id),
        growth::agree(t, t2, id),
        t2.pool.frames.len() >= t.pool.frames.len(),
        t2.pool.page_size == t.pool.page_size,
        t2.meta_page_id == t.meta_page_id,
    ensures
        takes_links(t2, id),
{
}

/// The ancestors of a page that was split can all be told, as long as the file can grow.
#[verifier::spinoff_prover]
proof fn lemma_news_taken(
    t: IndexView,
    index_id: IndexId,
    ancestors: Seq<PageId>,
    left: PageId,
    right: PageId,
    separator: Seq<u8>,
    level: u16,
    tx_id: TxId,
)
    requires
        unlogged(t, tx_id),
        SPLIT_PAGE_SIZE <= t.pool.page_size <= MAX_PAGE_SIZE,
        t.pool.frames.len() + ancestors.len() < usize::MAX - 1,
        separator.len() <= MAX_HIGH_KEY_LEN,
        meta_writable(t),
        ancestors.no_duplicates(),
        forall|j: int| 0 <= j < ancestors.len() ==> takes_links(t, #[trigger] ancestors[j]),
    ensures
        t.propagated(index_id, ancestors, left, right, separator, level, tx_id).1 == Ok::<(), Error>(()),
    decreases ancestors.len(),
{
    if ancestors.len() == 0 {
        lemma_root_taken(t, index_id, left, right, separator, level, tx_id);
    } else {
        let m = ancestors.len() - 1;
        let parent = ancestors[m];
        assert(takes_links(t, parent));
        let h = shape::head(t, parent);
        let es = shape::list(t, parent);
        lemma_one_more_link(es, separator, right);
        let all = entries::stable_sorted(es.push(EntryView::Internal { separator, child: right }));
        if entries::required_len(all) <= IndexView::capacity(t.pool.frames[parent.0 - 1].page) {
            let h1 = HeaderView { index_id, ..h };
            lemma_links_kind(all);
            lemma_written(t, parent, false, h1, all);
            lemma_noted(t.rewrite(parent, false, h1, all).0, parent, tx_id);
        } else {
            lemma_links_len(all);
            lemma_split_taken(t, index_id, parent, all, tx_id);
            let (t1, r) = t.split_internal(index_id, parent, h, all, tx_id);
            let (id, next) = r->Ok_0;
            let rest = ancestors.drop_last();
            assert forall|j: int| 0 <= j < rest.len() implies takes_links(t1, #[trigger] rest[j]) by {
                assert(rest[j] == ancestors[j]);
                assert(takes_links(t, ancestors[j]));
                assert(ancestors[j] != ancestors[m]);
                assert(growth::agree(t, t1, ancestors[j]));
                lemma_still_takes(t, t1, ancestors[j]);
            }
            assert(growth::agree(t, t1, t.meta_page_id));
            lemma_news_taken(
                t1,
                index_id,
                rest,
                parent,
                id,
                next,
                if h.level == u16::MAX {
                    h.level
                } else {
                    (h.level + 1) as u16
                },
                tx_id,
            );
        }
    }
}

/// Whether both halves of the leaf of an entry fit a page, with a separator that can become a high key.
pub open spec fn leaf_halves_fit(t: IndexView, e: EntryView) -> bool {
    let leaf = growth::target(t, e);
    let all = entries::stable_sorted(shape::list(t, leaf).push(e));
    let split = entries::leaf_split(all);
    &&& t.pool.frames[leaf.0 - 1].page.size == t.pool.page_size
    &&& 0 <= split <= all.len()
    &&& entries::required_len(all.subrange(0, split)) <= t.pool.page_size - 304
    &&& entries::required_len(all.subrange(split, all.len() as int)) <= t.pool.page_size - 304
    &&& growth::split_separator(t, leaf, e).len() <= MAX_HIGH_KEY_LEN
}

/// A leaf whose halves fit can be split, and no other page that was there changes.
#[verifier::spinoff_prover]
proof fn lemma_leaf_taken(t: IndexView, s: Shape, keys: KeySpace, e: EntryView, ancestors: Seq<PageId>, tx_id: TxId, i: int) -> (t1:
    IndexView)
    requires
        shape::linked(t, s, keys),
        unlogged(t, tx_id),
        SPLIT_PAGE_SIZE <= t.pool.page_size <= MAX_PAGE_SIZE,
        t.pool.can_grow(),
        shape::leaf_entry_ok(e, keys),
        0 <= i < s.leaves.len(),
        growth::target(t, e) == s.leaves[i],
        leaf_halves_fit(t, e),
    ensures
        ({
            let leaf = s.leaves[i];
            &&& unlogged(t1, tx_id)
            &&& t1.meta() == t.meta()
            &&& t1.meta_page_id == t.meta_page_id
            &&& t1.pool.frames.len() == t.pool.frames.len() + 1
            &&& t1.pool.page_size == t.pool.page_size
            &&& forall|x: PageId| t.pool.has(x) && x != leaf ==> #[trigger] growth::agree(t, t1, x)
            &&& t.split_leaf(ancestors, leaf, e, tx_id) == t1.propagated(
                t.meta()->Ok_0.index_id,
                ancestors,
                leaf,
                t.pool.next_id(),
                growth::split_separator(t, leaf, e),
                1,
                tx_id,
            )
        }),
{
    broadcast use group_to_multiset_ensures;

    let leaf = s.leaves[i];
    let h = shape::head(t, leaf);
    let es = shape::list(t, leaf);
    let more = es.push(e);
    let all = entries::stable_sorted(more);
    let split = entries::leaf_split(all);
    let left = all.subrange(0, split);
    let right = all.subrange(split, all.len() as int);
    let separator = model::leaf_separator(left, right);
    assert(shape::readable(t, s, leaf));
    assert(shape::leaf_ok(h, es, s, i, keys));
    outcomes::lemma_high_key_fits(t, s, leaf);
    growth::lemma_sorted_members(more);
    assert forall|j: int| 0 <= j < all.len() implies ((#[trigger] all[j]) is Leaf) == true by {
        assert(all.contains(all[j]));
        assert(more.contains(all[j]));
        let m = choose|m: int| 0 <= m < more.len() && more[m] == all[j];
        if m < es.len() {
            assert(more[m] == es[m]);
            assert(shape::leaf_entry_ok(es[m], keys));
        }
    }
    assert(growth::all_of_kind(left, true));
    assert(growth::all_of_kind(right, true));
    let id = t.pool.next_id();
    let g = t.with_pool(t.pool.grown(PageKind::BtreeLeaf, t.desc.rel_id));
    growth::lemma_grown(t, PageKind::BtreeLeaf);
    assert(growth::agree(t, g, leaf));
    let base = HeaderView { kind: PAGE_LEAF_KIND, level: 0, index_id: t.desc.index_id, ..h };
    let h1 = HeaderView { right: Some(id), high_key: separator, ..base };
    let h2 = HeaderView { left: Some(leaf), ..base };
    lemma_written(g, leaf, true, h1, left);
    let one = g.rewrite(leaf, true, h1, left).0;
    assert(growth::agree(g, one, id));
    lemma_written(one, id, true, h2, right);
    let two = one.rewrite(id, true, h2, right).0;
    lemma_noted(two, leaf, tx_id);
    let three = two.recorded(leaf, tx_id);
    growth::lemma_recorded(two, leaf, tx_id);
    lemma_noted(three, id, tx_id);
    let t1 = three.recorded(id, tx_id);
    growth::lemma_recorded(three, id, tx_id);
    assert forall|x: PageId| t.pool.has(x) && x != leaf implies #[trigger] growth::agree(t, t1, x) by {
        assert(growth::agree(t, g, x) && growth::agree(g, one, x) && growth::agree(one, two, x) && growth::agree(
            two,
            three,
            x,
        ) && growth::agree(three, t1, x));
    }
    assert(growth::agree(t, t1, t.meta_page_id));
    t1
}

/// The pages above a leaf that was split take links as before.
proof fn lemma_above_leaf(t: IndexView, t1: IndexView, s: Shape, path: Seq<PageId>)
    requires
        shape::path_ok(s, path),
        forall|j: int| 0 <= j < path.len() - 1 ==> takes_links(t, #[trigger] path[j]),
        t1.pool.frames.len() >= t.pool.frames.len(),
        t1.pool.page_size == t.pool.page_size,
        t1.meta_page_id == t.meta_page_id,
        forall|x: PageId| t.pool.has(x) && x != path.last() ==> #[trigger] growth::agree(t, t1, x),
    ensures
        path.drop_last().no_duplicates(),
        forall|j: int| 0 <= j < path.drop_last().len() ==> takes_links(t1, #[trigger] path.drop_last()[j]),
{
    let ancestors = path.drop_last();
    assert forall|j: int| 0 <= j < ancestors.len() implies takes_links(t1, #[trigger] ancestors[j]) by {
        assert(ancestors[j] == path[j]);
        assert(takes_links(t, path[j]));
        assert((s.rank)(path[path.len() - 1]) < (s.rank)(path[j]));
        assert(growth::agree(t, t1, path[j]));
        lemma_still_takes(t, t1, path[j]);
    }
    assert forall|a: int, b: int| 0 <= a < ancestors.len() && 0 <= b < ancestors.len() && a != b implies ancestors[a]
        != ancestors[b] by {
        assert(ancestors[a] == path[a] && ancestors[b] == path[b]);
        if a < b {
            assert((s.rank)(path[b]) < (s.rank)(path[a]));
        } else {
            assert((s.rank)(path[a]) < (s.rank)(path[b]));
        }
    }
}

/// An insert that finds its leaf full is a split of the leaf.
proof fn lemma_full_splits(t: IndexView, s: Shape, keys: KeySpace, tx_id: TxId, logical: Seq<u8>, row: IndexRowRef, i: int)
    requires
        shape::linked(t, s, keys),
        t.path(key::physical_key(logical, row)) is Ok,
        shape::home(s, i, key::physical_key(logical, row)),
        growth::target(t, IndexView::new_entry(logical, row, tx_id)) == s.leaves[i],
        !growth::has_room(t, IndexView::new_entry(logical, row, tx_id)),
        t.meta()->Ok_0.uniqueness == IndexUniqueness::Unique ==> !entries::holds_equal(
            shape::list(t, growth::target(t, IndexView::new_entry(logical, row, tx_id))),
            IndexView::new_entry(logical, row, tx_id),
        ),
    ensures
        t.inserted(tx_id, logical, row) == t.split_leaf(
            t.path(key::physical_key(logical, row))->Ok_0.drop_last(),
            s.leaves[i],
            IndexView::new_entry(logical, row, tx_id),
            tx_id,
        ),
{
    let e = IndexView::new_entry(logical, row, tx_id);
    let leaf = s.leaves[i];
    let h = shape::head(t, leaf);
    assert(shape::readable(t, s, leaf));
    assert(shape::leaf_ok(h, shape::list(t, leaf), s, i, keys));
    order::lemma_not_le(e.sort_key(), h.high_key);
}

/// An insert that finds its leaf full succeeds as long as the file can grow by a page for each page on
/// the way down and one more: both halves of the leaf fit their pages, the pages above are internal
/// nodes, no change is logged, and the index is not a unique one that holds the same key and row.
#[verifier::spinoff_prover]
pub proof fn law_insert_splits(
    t: IndexView,
    s: Shape,
    keys: KeySpace,
    tx_id: TxId,
    logical: Seq<u8>,
    row: IndexRowRef,
)
    requires
        shape::linked(t, s, keys),
        SPLIT_PAGE_SIZE <= t.pool.page_size <= MAX_PAGE_SIZE,
        meta_writable(t),
        keys.contains(logical),
        keys.rows.contains(row),
        unlogged(t, tx_id),
        !growth::has_room(t, IndexView::new_entry(logical, row, tx_id)),
        leaf_halves_fit(t, IndexView::new_entry(logical, row, tx_id)),
        t.pool.frames.len() + t.path(key::physical_key(logical, row))->Ok_0.len() < usize::MAX - 1,
        ({
            let path = t.path(key::physical_key(logical, row))->Ok_0;
            forall|j: int| 0 <= j < path.len() - 1 ==> takes_links(t, #[trigger] path[j])
        }),
        t.meta()->Ok_0.uniqueness == IndexUniqueness::Unique ==> !entries::holds_equal(
            shape::list(t, growth::target(t, IndexView::new_entry(logical, row, tx_id))),
            IndexView::new_entry(logical, row, tx_id),
        ),
    ensures
        t.inserted(tx_id, logical, row).1 == Ok::<(), Error>(()),
{
    let e = IndexView::new_entry(logical, row, tx_id);
    let i = shape::lemma_path(t, s, keys, e.sort_key());
    let path = t.path(e.sort_key())->Ok_0;
    let leaf = s.leaves[i];
    let ancestors = path.drop_last();
    assert(shape::leaf_entry_ok(e, keys));
    lemma_full_splits(t, s, keys, tx_id, logical, row, i);
    let t1 = lemma_leaf_taken(t, s, keys, e, ancestors, tx_id, i);
    lemma_above_leaf(t, t1, s, path);
    assert(shape::readable(t, s, leaf));
    assert(growth::agree(t, t1, t.meta_page_id));
    let separator = growth::split_separator(t, leaf, e);
    lemma_news_taken(t1, t.meta()->Ok_0.index_id, ancestors, leaf, t.pool.next_id(), separator, 1, tx_id);
}

} // verus!
