//! What makes the pages of an index an ordered tree.
//!
//! Leaves form a chain from left to right; each holds the physical keys from its low fence up to
//! its high key. An internal page may send a search to a page that starts too far left, never to
//! one that starts too far right: the chain brings the search to its leaf.
use crate::format::order;
use crate::format::page::MAX_PAGE_SIZE;
use crate::format::{PageId, TxId};
use crate::index::cell::EntryView;
use crate::index::key;
use crate::index::model;
use crate::index::model::{FoundView, IndexView, Reader};
use crate::index::node::{HeaderView, INDEX_SPECIAL_LEN, PAGE_INTERNAL_KIND, PAGE_LEAF_KIND};
use crate::index::IndexRowRef;
use vstd::prelude::*;

verus! {

/// The order of the leaves, the low fence of every page of the tree, and a rank that goes down
/// along every link.
pub struct Shape {
    pub leaves: Seq<PageId>,
    pub low: Map<PageId, Seq<u8>>,
    pub rank: spec_fn(PageId) -> int,
}

/// The keys that an index is asked for, and the rows that its entries point to.
pub struct KeySpace {
    pub keys: Set<Seq<u8>>,
    pub rows: Set<IndexRowRef>,
}

impl KeySpace {
    pub open spec fn contains(self, k: Seq<u8>) -> bool {
        self.keys.contains(k)
    }

    /// The physical keys of a key are before all larger keys, so that they sort as the keys do.
    pub open spec fn ordered(self) -> bool {
        forall|a: Seq<u8>, b: Seq<u8>, row: IndexRowRef|
            #![trigger self.keys.contains(a), self.keys.contains(b), self.rows.contains(row)]
            self.keys.contains(a) && self.keys.contains(b) && self.rows.contains(row) && order::bytes_lt(a, b)
                ==> order::bytes_lt(key::physical_key(a, row), b)
    }
}

/// Keys of which none is the beginning of another sort as their physical keys do, whatever the rows.
pub proof fn law_prefix_free_keys_are_ordered(keys: KeySpace)
    requires
        forall|a: Seq<u8>, b: Seq<u8>|
            #![trigger keys.contains(a), keys.contains(b)]
            keys.contains(a) && keys.contains(b) && a != b ==> !order::is_prefix(a, b),
    ensures
        keys.ordered(),
{
    assert forall|a: Seq<u8>, b: Seq<u8>, row: IndexRowRef|
        #![trigger keys.keys.contains(a), keys.keys.contains(b), keys.rows.contains(row)]
        keys.keys.contains(a) && keys.keys.contains(b) && keys.rows.contains(row) && order::bytes_lt(
            a,
            b,
        ) implies order::bytes_lt(key::physical_key(a, row), b) by {
        assert(keys.contains(a) && keys.contains(b));
        order::lemma_lt_irreflexive(a);
        order::lemma_order_of_extensions(a, b, key::row_suffix(row), Seq::empty());
    }
}

/// Keys without zero bytes sort as their physical keys do if all row ids are below two to the power
/// of 56, whether or not one key is the beginning of another.
pub proof fn law_text_keys_are_ordered(keys: KeySpace)
    requires
        forall|k: Seq<u8>, i: int| #[trigger] keys.keys.contains(k) && 0 <= i < k.len() ==> #[trigger] k[i] != 0,
        forall|row: IndexRowRef| #[trigger] keys.rows.contains(row) ==> row.row_id.0 < 0x100_0000_0000_0000,
    ensures
        keys.ordered(),
{
    assert forall|a: Seq<u8>, b: Seq<u8>, row: IndexRowRef|
        #![trigger keys.keys.contains(a), keys.keys.contains(b), keys.rows.contains(row)]
        keys.keys.contains(a) && keys.keys.contains(b) && keys.rows.contains(row) && order::bytes_lt(
            a,
            b,
        ) implies order::bytes_lt(key::physical_key(a, row), b) by {
        key::lemma_small_row_suffix(row);
        order::lemma_small_extension(a, b, key::row_suffix(row));
    }
}

/// The header of a page of the tree.
pub open spec fn head(t: IndexView, id: PageId) -> HeaderView {
    t.header(id)->Ok_0
}

/// The entries of a page of the tree.
pub open spec fn list(t: IndexView, id: PageId) -> Seq<EntryView> {
    t.entries(id)->Ok_0
}

/// A leaf entry with a key and a row out of the key space.
pub open spec fn leaf_entry_ok(e: EntryView, keys: KeySpace) -> bool {
    &&& e is Leaf
    &&& keys.contains(e->logical_key)
    &&& keys.rows.contains(e->row)
    &&& e->physical == key::physical_key(e->logical_key, e->row)
}

/// The entries are leaf entries in the order of their physical keys.
pub open spec fn leaf_entries_ok(es: Seq<EntryView>, keys: KeySpace) -> bool {
    &&& forall|j: int| 0 <= j < es.len() ==> leaf_entry_ok(#[trigger] es[j], keys)
    &&& forall|j: int, k: int|
        0 <= j < k < es.len() ==> order::bytes_le((#[trigger] es[j]).sort_key(), (#[trigger] es[k]).sort_key())
}

/// All physical keys are at or behind `low`.
pub open spec fn at_or_behind(es: Seq<EntryView>, low: Seq<u8>) -> bool {
    forall|j: int| 0 <= j < es.len() ==> order::bytes_le(low, (#[trigger] es[j]).sort_key())
}

/// All physical keys are at or before `high`.
pub open spec fn at_or_before(es: Seq<EntryView>, high: Seq<u8>) -> bool {
    forall|j: int| 0 <= j < es.len() ==> order::bytes_le((#[trigger] es[j]).sort_key(), high)
}

/// The `i`th leaf is in order and linked to the next.
pub open spec fn leaf_ok(h: HeaderView, es: Seq<EntryView>, s: Shape, i: int, keys: KeySpace) -> bool {
    let low = s.low[s.leaves[i]];
    &&& h.kind == PAGE_LEAF_KIND
    &&& leaf_entries_ok(es, keys)
    &&& at_or_behind(es, low)
    &&& i == 0 ==> low == Seq::<u8>::empty()
    &&& if i + 1 < s.leaves.len() {
        &&& h.right == Some(s.leaves[i + 1])
        &&& h.high_key == s.low[s.leaves[i + 1]]
        &&& h.high_key.len() > 0
        &&& order::bytes_le(low, h.high_key)
        &&& at_or_before(es, h.high_key)
        &&& (s.rank)(s.leaves[i + 1]) < (s.rank)(s.leaves[i])
    } else {
        h.right is None && h.high_key == Seq::<u8>::empty()
    }
}

/// A link from `from` to `to` that is taken for keys at or behind `fence`.
pub open spec fn link_ok(s: Shape, from: PageId, to: PageId, fence: Seq<u8>) -> bool {
    s.low.dom().contains(to) && order::bytes_le(s.low[to], fence) && (s.rank)(to) < (s.rank)(from)
}

/// An internal entry that leads to a page that does not start too far right.
pub open spec fn child_entry_ok(e: EntryView, s: Shape, from: PageId) -> bool {
    e is Internal && link_ok(s, from, e->child, e->separator)
}

/// The links of an internal page do not lead too far right.
pub open spec fn internal_ok(h: HeaderView, es: Seq<EntryView>, s: Shape, id: PageId) -> bool {
    &&& h.kind == PAGE_INTERNAL_KIND
    &&& h.left is Some
    &&& link_ok(s, id, h.left->0, s.low[id])
    &&& s.low[h.left->0] == s.low[id]
    &&& forall|j: int| 0 <= j < es.len() ==> child_entry_ok(#[trigger] es[j], s, id)
    &&& h.high_key.len() > 0 ==> h.right is Some && link_ok(s, id, h.right->0, h.high_key)
}

/// Every page holds no more than fits it.
pub open spec fn pages_fit(t: IndexView) -> bool {
    forall|i: int| 0 <= i < t.pool.frames.len() ==> (#[trigger] t.pool.frames[i]).page.wf()
}

/// The log, if there is one, takes the image of every page of the tree.
pub open spec fn log_takes(t: IndexView, s: Shape, tx_id: TxId) -> bool {
    forall|id: PageId| #[trigger] s.low.dom().contains(id) ==> t.log_refusal(id, tx_id) is None
}

/// A page of the tree can be read.
pub open spec fn readable(t: IndexView, s: Shape, id: PageId) -> bool {
    &&& t.pool.has(id)
    &&& id != t.meta_page_id
    &&& t.header(id) is Ok
    &&& t.entries(id) is Ok
    &&& t.pool.frames[id.0 - 1].page.size <= MAX_PAGE_SIZE
    &&& t.pool.frames[id.0 - 1].page.special.len() == INDEX_SPECIAL_LEN
    &&& 0 <= (s.rank)(id) < t.pool.frames.len()
}

/// The root that the meta page names.
pub open spec fn root(t: IndexView) -> PageId {
    t.meta()->Ok_0.root_page_id
}

/// The pages of an index form an ordered tree of this shape, with keys and rows out of a key space
/// in which physical keys sort as keys do.
pub open spec fn linked(t: IndexView, s: Shape, keys: KeySpace) -> bool {
    &&& keys.ordered()
    &&& t.meta() is Ok
    &&& s.low.dom().contains(root(t))
    &&& s.low[root(t)] == Seq::<u8>::empty()
    &&& s.leaves.len() > 0
    &&& s.leaves.no_duplicates()
    &&& forall|id: PageId| s.low.dom().contains(id) ==> #[trigger] readable(t, s, id)
    &&& forall|i: int| 0 <= i < s.leaves.len() ==> s.low.dom().contains(#[trigger] s.leaves[i])
    &&& forall|i: int|
        0 <= i < s.leaves.len() ==> #[trigger] leaf_ok(head(t, s.leaves[i]), list(t, s.leaves[i]), s, i, keys)
    &&& forall|id: PageId|
        s.low.dom().contains(id) && !s.leaves.contains(id) ==> #[trigger] internal_ok(
            head(t, id),
            list(t, id),
            s,
            id,
        )
}

/// All physical keys are before `high`.
pub open spec fn strictly_before(es: Seq<EntryView>, high: Seq<u8>) -> bool {
    forall|j: int| 0 <= j < es.len() ==> order::bytes_lt((#[trigger] es[j]).sort_key(), high)
}

/// No physical key stands on two leaves.
pub open spec fn parted(t: IndexView, s: Shape) -> bool {
    forall|i: int|
        0 <= i < s.leaves.len() - 1 ==> strictly_before(list(t, #[trigger] s.leaves[i]), s.low[s.leaves[i + 1]])
}

/// No leaf before the fence of a physical key holds that key.
pub open spec fn apart(t: IndexView, s: Shape, p: Seq<u8>) -> bool {
    forall|i: int, j: int|
        0 <= i < s.leaves.len() - 1 && 0 <= j < list(t, s.leaves[i]).len() && (#[trigger] list(t, s.leaves[i])[j]).sort_key()
            == p ==> s.low[s.leaves[i + 1]] != p
}

/// Where no physical key stands on two leaves, no leaf before the fence of a physical key holds it.
pub proof fn law_parted_keys_are_apart(t: IndexView, s: Shape, p: Seq<u8>)
    requires
        parted(t, s),
    ensures
        apart(t, s, p),
{
    assert forall|i: int, j: int|
        0 <= i < s.leaves.len() - 1 && 0 <= j < list(t, s.leaves[i]).len() && (#[trigger] list(t, s.leaves[i])[j]).sort_key()
            == p implies s.low[s.leaves[i + 1]] != p by {
        assert(strictly_before(list(t, s.leaves[i]), s.low[s.leaves[i + 1]]));
        order::lemma_lt_irreflexive(p);
    }
}

/// The entries of a list of leaves, one after the other.
pub open spec fn contents(t: IndexView, leaves: Seq<PageId>) -> Seq<EntryView>
    decreases leaves.len(),
{
    if leaves.len() == 0 {
        Seq::empty()
    } else {
        contents(t, leaves.drop_last()) + list(t, leaves.last())
    }
}

/// The rows of the admitted entries of a key.
pub open spec fn rows_of(es: Seq<EntryView>, logical: Seq<u8>, reader: Reader) -> Seq<IndexRowRef>
    decreases es.len(),
{
    if es.len() == 0 {
        Seq::empty()
    } else {
        let init = rows_of(es.drop_last(), logical, reader);
        if model::has_key(es.last(), logical) && model::admits(reader, es.last()) {
            init.push(es.last()->row)
        } else {
            init
        }
    }
}

/// The live entries of a list of leaves, with where they stand.
pub open spec fn found_in(t: IndexView, leaves: Seq<PageId>) -> Seq<FoundView>
    decreases leaves.len(),
{
    if leaves.len() == 0 {
        Seq::empty()
    } else {
        found_in(t, leaves.drop_last()) + model::live_found(list(t, leaves.last()), leaves.last())
    }
}

/// The `i`th leaf is where a search for `k` belongs.
pub open spec fn home(s: Shape, i: int, k: Seq<u8>) -> bool {
    &&& 0 <= i < s.leaves.len()
    &&& order::bytes_le(s.low[s.leaves[i]], k)
    &&& i + 1 < s.leaves.len() ==> order::bytes_lt(k, s.low[s.leaves[i + 1]])
}

/// The pages of a search path go down in rank and stay in the tree.
pub open spec fn path_ok(s: Shape, path: Seq<PageId>) -> bool {
    &&& path.len() > 0
    &&& forall|j: int| 0 <= j < path.len() ==> s.low.dom().contains(#[trigger] path[j])
    &&& forall|j: int, k: int| 0 <= j < k < path.len() ==> (s.rank)(#[trigger] path[k]) < (s.rank)(#[trigger] path[j])
}

/// The child that is followed for a key is one of those that do not start behind it.
proof fn lemma_child_for(es: Seq<EntryView>, k: Seq<u8>, so_far: PageId, s: Shape, id: PageId)
    requires
        forall|j: int| 0 <= j < es.len() ==> child_entry_ok(#[trigger] es[j], s, id),
        link_ok(s, id, so_far, k),
    ensures
        link_ok(s, id, model::child_for(es, k, so_far), k),
    decreases es.len(),
{
    if es.len() > 0 {
        let e = es[0];
        assert(child_entry_ok(e, s, id));
        if !order::bytes_lt(k, e->separator) {
            order::lemma_not_le(k, e->separator);
            order::lemma_le_transitive(s.low[e->child], e->separator, k);
            assert forall|j: int| 0 <= j < es.drop_first().len() implies child_entry_ok(
                #[trigger] es.drop_first()[j],
                s,
                id,
            ) by {
                assert(es.drop_first()[j] == es[j + 1]);
            }
            lemma_child_for(es.drop_first(), k, e->child, s, id);
        }
    }
}

/// A search from a page that does not start behind the key ends at the key's leaf.
pub proof fn lemma_search(t: IndexView, s: Shape, keys: KeySpace, id: PageId, k: Seq<u8>, limit: nat) -> (i: int)
    requires
        linked(t, s, keys),
        s.low.dom().contains(id),
        order::bytes_le(s.low[id], k),
        (s.rank)(id) < limit,
    ensures
        t.search_path(id, k, limit) is Ok,
        home(s, i, k),
        t.search_path(id, k, limit)->Ok_0.last() == s.leaves[i],
        t.search_path(id, k, limit)->Ok_0[0] == id,
        path_ok(s, t.search_path(id, k, limit)->Ok_0),
    decreases limit,
{
    assert(readable(t, s, id));
    let h = head(t, id);
    if s.leaves.contains(id) {
        let i = choose|i: int| 0 <= i < s.leaves.len() && s.leaves[i] == id;
        assert(leaf_ok(h, list(t, s.leaves[i]), s, i, keys));
        order::lemma_not_le(k, h.high_key);
        if h.high_key.len() > 0 && !order::bytes_lt(k, h.high_key) {
            if i + 1 >= s.leaves.len() {
                assert(h.high_key.len() == 0);
            }
            let next = s.leaves[i + 1];
            assert(readable(t, s, next));
            let found = lemma_search(t, s, keys, next, k, (limit - 1) as nat);
            lemma_path_front(s, id, t.search_path(next, k, (limit - 1) as nat)->Ok_0);
            found
        } else {
            i
        }
    } else {
        assert(internal_ok(h, list(t, id), s, id));
        order::lemma_not_le(k, h.high_key);
        let next = if h.high_key.len() > 0 && !order::bytes_lt(k, h.high_key) {
            order::lemma_le_transitive(s.low[h.right->0], h.high_key, k);
            h.right->0
        } else {
            lemma_child_for(list(t, id), k, h.left->0, s, id);
            model::child_for(list(t, id), k, h.left->0)
        };
        assert(readable(t, s, next));
        let found = lemma_search(t, s, keys, next, k, (limit - 1) as nat);
        lemma_path_front(s, id, t.search_path(next, k, (limit - 1) as nat)->Ok_0);
        found
    }
}

proof fn lemma_path_front(s: Shape, id: PageId, rest: Seq<PageId>)
    requires
        path_ok(s, rest),
        s.low.dom().contains(id),
        (s.rank)(rest[0]) < (s.rank)(id),
    ensures
        path_ok(s, seq![id] + rest),
        (seq![id] + rest).last() == rest.last(),
{
    let path = seq![id] + rest;
    assert forall|j: int, k: int| 0 <= j < k < path.len() implies (s.rank)(#[trigger] path[k]) < (s.rank)(#[trigger] path[j]) by {
        if j == 0 {
            assert(path[k] == rest[k - 1]);
            if k - 1 > 0 {
                assert((s.rank)(rest[k - 1]) < (s.rank)(rest[0]));
            }
        } else {
            assert(path[k] == rest[k - 1] && path[j] == rest[j - 1]);
        }
    }
    assert forall|j: int| 0 <= j < path.len() implies s.low.dom().contains(#[trigger] path[j]) by {
        if j > 0 {
            assert(path[j] == rest[j - 1]);
        }
    }
}

/// The search from the root ends at the key's leaf.
pub proof fn lemma_path(t: IndexView, s: Shape, keys: KeySpace, k: Seq<u8>) -> (i: int)
    requires
        linked(t, s, keys),
    ensures
        t.path(k) is Ok,
        home(s, i, k),
        t.path(k)->Ok_0.last() == s.leaves[i],
        t.path(k)->Ok_0[0] == root(t),
        path_ok(s, t.path(k)->Ok_0),
{
    order::lemma_empty_first(k);
    assert(readable(t, s, root(t)));
    lemma_search(t, s, keys, root(t), k, t.walk_limit())
}

/// Fences go up along the chain.
pub proof fn lemma_fences_ascend(t: IndexView, s: Shape, keys: KeySpace, i: int, j: int)
    requires
        linked(t, s, keys),
        0 <= i <= j < s.leaves.len(),
    ensures
        order::bytes_le(s.low[s.leaves[i]], s.low[s.leaves[j]]),
    decreases j - i,
{
    if i < j {
        lemma_fences_ascend(t, s, keys, i, j - 1);
        assert(leaf_ok(head(t, s.leaves[j - 1]), list(t, s.leaves[j - 1]), s, j - 1, keys));
        order::lemma_le_transitive(s.low[s.leaves[i]], s.low[s.leaves[j - 1]], s.low[s.leaves[j]]);
    }
}

} // verus!
