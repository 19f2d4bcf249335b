//! An insert leaves a tree behind that validation finds nothing wrong with.
use crate::error::Error;
use crate::format::order;
use crate::format::page::{PageKind, MAX_PAGE_SIZE};
use crate::format::{PageId, TxId};
use crate::index::cell::EntryView;
use crate::index::entries;
use crate::index::key;
use crate::index::growth;
use crate::index::model;
use crate::index::model::{IndexView, ReportView};
use crate::index::node::{HeaderView, PAGE_INTERNAL_KIND, PAGE_LEAF_KIND};
use crate::index::shape;
use crate::index::shape::{KeySpace, Shape};
use crate::index::{IndexId, IndexRowRef};
use vstd::prelude::*;
use vstd::seq_lib::group_to_multiset_ensures;

verus! {

/// The level below a level.
pub open spec fn below(level: u16) -> u16 {
    if level == 0 {
        0
    } else {
        (level - 1) as u16
    }
}

/// Whether a page is one of some pages, one level below.
pub open spec fn is_below(t: IndexView, pages: Set<PageId>, id: PageId, level: u16) -> bool {
    pages.contains(id) && shape::head(t, id).level == below(level)
}

/// Whether a page belongs to the index, and its children lie one level below it among some pages.
pub open spec fn page_labelled(t: IndexView, pages: Set<PageId>, id: PageId) -> bool {
    let h = shape::head(t, id);
    let es = shape::list(t, id);
    &&& t.pool.has(id)
    &&& id != t.meta_page_id
    &&& t.pool.frames[id.0 - 1].page.size <= MAX_PAGE_SIZE
    &&& t.header(id) is Ok
    &&& t.entries(id) is Ok
    &&& h.index_id == t.desc.index_id
    &&& h.kind == PAGE_INTERNAL_KIND ==> {
        &&& h.left is Some
        &&& is_below(t, pages, h.left->0, h.level)
        &&& growth::all_of_kind(es, false)
        &&& forall|j: int| 0 <= j < es.len() ==> is_below(t, pages, (#[trigger] es[j])->child, h.level)
    }
}

/// All of some pages belong to the index, and levels go down by one along every link.
pub open spec fn labelled(t: IndexView, pages: Set<PageId>) -> bool {
    forall|id: PageId| pages.contains(id) ==> #[trigger] page_labelled(t, pages, id)
}

/// Whether a page is a child of another one.
pub open spec fn is_child(t: IndexView, id: PageId, child: PageId) -> bool {
    let h = shape::head(t, id);
    let es = shape::list(t, id);
    &&& h.kind == PAGE_INTERNAL_KIND
    &&& h.left == Some(child) || exists|j: int| 0 <= j < es.len() && (#[trigger] es[j])->child == child
}

/// Whether a path goes down from page to child all the way.
pub open spec fn goes_down(t: IndexView, path: Seq<PageId>) -> bool {
    forall|j: int| 0 <= j < path.len() - 1 ==> is_child(t, #[trigger] path[j], path[j + 1])
}

proof fn lemma_children(es: Seq<EntryView>)
    requires
        growth::all_of_kind(es, false),
    ensures
        model::children_of(es).len() == es.len(),
        forall|j: int| 0 <= j < es.len() ==> #[trigger] model::children_of(es)[j] == es[j]->child,
        model::order_findings(es) == Seq::<&'static str>::empty(),
    decreases es.len(),
{
    if es.len() > 0 {
        let init = es.drop_last();
        assert forall|j: int| 0 <= j < init.len() implies ((#[trigger] init[j]) is Leaf) == false by {
            assert(init[j] == es[j]);
        }
        lemma_children(init);
        assert((es[es.len() - 1] is Leaf) == false);
    }
}

proof fn lemma_leaf_findings(es: Seq<EntryView>, keys: KeySpace)
    requires
        shape::leaf_entries_ok(es, keys),
    ensures
        model::children_of(es) == Seq::<PageId>::empty(),
        model::order_findings(es) == Seq::<&'static str>::empty(),
    decreases es.len(),
{
    if es.len() > 0 {
        let init = es.drop_last();
        assert forall|j: int| 0 <= j < init.len() implies shape::leaf_entry_ok(#[trigger] init[j], keys) by {
            assert(init[j] == es[j]);
        }
        assert forall|j: int, k: int| 0 <= j < k < init.len() implies order::bytes_le(
            (#[trigger] init[j]).sort_key(),
            (#[trigger] init[k]).sort_key(),
        ) by {
            assert(init[j] == es[j] && init[k] == es[k]);
        }
        lemma_leaf_findings(init, keys);
        assert(shape::leaf_entry_ok(es[es.len() - 1], keys));
        if es.len() >= 2 {
            let a = es[es.len() - 2].sort_key();
            let b = es[es.len() - 1].sort_key();
            assert(order::bytes_le(a, b));
            order::lemma_not_le(b, a);
        }
    }
}

/// A walk over a labelled tree finds nothing wrong.
proof fn lemma_walk(
    t: IndexView,
    s: Shape,
    keys: KeySpace,
    pages: Set<PageId>,
    id: PageId,
    report: ReportView,
    limit: nat,
)
    requires
        shape::linked(t, s, keys),
        labelled(t, pages),
        pages.contains(id),
        s.low.dom().contains(id),
        (s.rank)(id) < limit,
    ensures
        t.validated(id, shape::head(t, id).level, report, limit).1 == Ok::<(), Error>(()),
        t.validated(id, shape::head(t, id).level, report, limit).0.errors == report.errors,
    decreases limit, 0nat,
{
    let h = shape::head(t, id);
    let es = shape::list(t, id);
    assert(page_labelled(t, pages, id));
    assert(shape::readable(t, s, id));
    let next = model::reported(report, h, es, h.level, t.desc.index_id);
    let ids = model::node_children(h, es);
    if s.leaves.contains(id) {
        let i = choose|i: int| 0 <= i < s.leaves.len() && s.leaves[i] == id;
        assert(shape::leaf_ok(shape::head(t, s.leaves[i]), shape::list(t, s.leaves[i]), s, i, keys));
        lemma_leaf_findings(es, keys);
        assert(ids =~= Seq::empty());
    } else {
        assert(shape::internal_ok(h, es, s, id));
        lemma_children(es);
        assert forall|j: int| 0 <= j < ids.len() implies is_below(t, pages, #[trigger] ids[j], h.level)
            && s.low.dom().contains(ids[j]) && (s.rank)(ids[j]) < limit - 1 by {
            if j > 0 {
                assert(ids[j] == es[j - 1]->child);
                assert(shape::child_entry_ok(es[j - 1], s, id));
            }
        }
    }
    assert(next.errors =~= report.errors);
    lemma_walk_all(t, s, keys, pages, ids, h.level, next, (limit - 1) as nat);
}

proof fn lemma_walk_all(
    t: IndexView,
    s: Shape,
    keys: KeySpace,
    pages: Set<PageId>,
    ids: Seq<PageId>,
    level: u16,
    report: ReportView,
    limit: nat,
)
    requires
        shape::linked(t, s, keys),
        labelled(t, pages),
        forall|j: int|
            0 <= j < ids.len() ==> is_below(t, pages, #[trigger] ids[j], level) && s.low.dom().contains(ids[j]) && (
            s.rank)(ids[j]) < limit,
    ensures
        t.validated_all(ids, below(level), report, limit).1 == Ok::<(), Error>(()),
        t.validated_all(ids, below(level), report, limit).0.errors == report.errors,
    decreases limit, ids.len() + 1,
{
    if ids.len() > 0 {
        assert(is_below(t, pages, ids[0], level));
        lemma_walk(t, s, keys, pages, ids[0], report, limit);
        let next = t.validated(ids[0], below(level), report, limit).0;
        let rest = ids.drop_first();
        assert forall|j: int| 0 <= j < rest.len() implies is_below(t, pages, #[trigger] rest[j], level)
            && s.low.dom().contains(rest[j]) && (s.rank)(rest[j]) < limit by {
            assert(rest[j] == ids[j + 1]);
        }
        lemma_walk_all(t, s, keys, pages, rest, level, next, limit);
    }
}

/// The pages that a walk visits.
spec fn visited(t: IndexView, id: PageId, limit: nat) -> Set<PageId>
    decreases limit, 0nat,
{
    if limit == 0 {
        Set::empty()
    } else {
        visited_all(t, model::node_children(shape::head(t, id), shape::list(t, id)), (limit - 1) as nat).insert(id)
    }
}

spec fn visited_all(t: IndexView, ids: Seq<PageId>, limit: nat) -> Set<PageId>
    decreases limit, ids.len() + 1,
{
    if ids.len() == 0 {
        Set::empty()
    } else {
        visited(t, ids[0], limit).union(visited_all(t, ids.drop_first(), limit))
    }
}

/// More pages make no difference to a labelled page.
proof fn lemma_more_pages(t: IndexView, a: Set<PageId>, b: Set<PageId>)
    requires
        a.subset_of(b),
    ensures
        forall|id: PageId| page_labelled(t, a, id) ==> #[trigger] page_labelled(t, b, id),
{
    assert forall|id: PageId| page_labelled(t, a, id) implies #[trigger] page_labelled(t, b, id) by {
        let h = shape::head(t, id);
        let es = shape::list(t, id);
        if h.kind == PAGE_INTERNAL_KIND {
            assert forall|j: int| 0 <= j < es.len() implies is_below(t, b, (#[trigger] es[j])->child, h.level) by {
                assert(is_below(t, a, es[j]->child, h.level));
            }
        }
    }
}

/// What a walk that finds nothing wrong says about the pages that it visits.
proof fn lemma_walked(t: IndexView, s: Shape, keys: KeySpace, id: PageId, level: u16, report: ReportView, limit: nat)
    requires
        shape::linked(t, s, keys),
        s.low.dom().contains(id),
        t.validated(id, level, report, limit).1 is Ok,
        t.validated(id, level, report, limit).0.errors.len() == 0,
    ensures
        report.errors.len() == 0,
        labelled(t, visited(t, id, limit)),
        visited(t, id, limit).contains(id),
        shape::head(t, id).level == level,
    decreases limit, 0nat,
{
    let h = shape::head(t, id);
    let es = shape::list(t, id);
    assert(shape::readable(t, s, id));
    let ids = model::node_children(h, es);
    let next = model::reported(report, h, es, level, t.desc.index_id);
    let pages = visited(t, id, limit);
    let under = visited_all(t, ids, (limit - 1) as nat);
    if s.leaves.contains(id) {
        let i = choose|i: int| 0 <= i < s.leaves.len() && s.leaves[i] == id;
        assert(shape::leaf_ok(shape::head(t, s.leaves[i]), shape::list(t, s.leaves[i]), s, i, keys));
        lemma_leaf_findings(es, keys);
    } else {
        assert(shape::internal_ok(h, es, s, id));
        assert(growth::all_of_kind(es, false)) by {
            assert forall|j: int| 0 <= j < es.len() implies ((#[trigger] es[j]) is Leaf) == false by {
                assert(shape::child_entry_ok(es[j], s, id));
            }
        }
        lemma_children(es);
    }
    assert forall|j: int| 0 <= j < ids.len() implies s.low.dom().contains(#[trigger] ids[j]) by {
        if j > 0 {
            assert(ids[j] == es[j - 1]->child);
            assert(shape::child_entry_ok(es[j - 1], s, id));
        }
    }
    lemma_walked_all(t, s, keys, ids, below(level), next, (limit - 1) as nat);
    assert(next.errors.len() == 0);
    assert(h.level == level && h.index_id == t.desc.index_id);
    lemma_more_pages(t, under, pages);
    assert(page_labelled(t, pages, id)) by {
        if h.kind == PAGE_INTERNAL_KIND {
            assert(ids[0] == h.left->0);
            assert(is_below(t, under, ids[0], level));
            assert forall|j: int| 0 <= j < es.len() implies is_below(t, pages, (#[trigger] es[j])->child, h.level) by {
                assert(ids[j + 1] == es[j]->child);
                assert(is_below(t, under, ids[j + 1], level));
            }
        }
    }
}

proof fn lemma_walked_all(
    t: IndexView,
    s: Shape,
    keys: KeySpace,
    ids: Seq<PageId>,
    level: u16,
    report: ReportView,
    limit: nat,
)
    requires
        shape::linked(t, s, keys),
        forall|j: int| 0 <= j < ids.len() ==> s.low.dom().contains(#[trigger] ids[j]),
        t.validated_all(ids, level, report, limit).1 is Ok,
        t.validated_all(ids, level, report, limit).0.errors.len() == 0,
    ensures
        report.errors.len() == 0,
        labelled(t, visited_all(t, ids, limit)),
        forall|j: int|
            0 <= j < ids.len() ==> visited_all(t, ids, limit).contains(#[trigger] ids[j]) && shape::head(t, ids[j]).level
                == level,
    decreases limit, ids.len() + 1,
{
    if ids.len() > 0 {
        let rest = ids.drop_first();
        let (next, r) = t.validated(ids[0], level, report, limit);
        assert forall|j: int| 0 <= j < rest.len() implies s.low.dom().contains(#[trigger] rest[j]) by {
            assert(rest[j] == ids[j + 1]);
        }
        lemma_walked_all(t, s, keys, rest, level, next, limit);
        assert(s.low.dom().contains(ids[0]));
        lemma_walked(t, s, keys, ids[0], level, report, limit);
        let a = visited(t, ids[0], limit);
        let b = visited_all(t, rest, limit);
        let all = visited_all(t, ids, limit);
        lemma_more_pages(t, a, all);
        lemma_more_pages(t, b, all);
        assert forall|j: int| 0 <= j < ids.len() implies all.contains(#[trigger] ids[j]) && shape::head(t, ids[j]).level
            == level by {
            if j > 0 {
                assert(rest[j - 1] == ids[j]);
            }
        }
    }
}

/// Changing some pages keeps the levels in order if those pages still fit in.
proof fn lemma_relabelled(t: IndexView, t2: IndexView, pages: Set<PageId>, changed: Set<PageId>)
    requires
        labelled(t, pages),
        t2.desc == t.desc,
        t2.meta_page_id == t.meta_page_id,
        forall|x: PageId| pages.contains(x) && !changed.contains(x) ==> #[trigger] growth::agree(t, t2, x),
        forall|x: PageId| #[trigger] changed.contains(x) ==> page_labelled(t2, pages.union(changed), x),
        forall|x: PageId|
            #[trigger] changed.contains(x) && pages.contains(x) ==> shape::head(t2, x).level == shape::head(t, x).level,
    ensures
        labelled(t2, pages.union(changed)),
{
    let after = pages.union(changed);
    assert forall|x: PageId| #[trigger] pages.contains(x) implies shape::head(t2, x).level == shape::head(t, x).level by {
        if !changed.contains(x) {
            assert(page_labelled(t, pages, x));
            assert(growth::agree(t, t2, x));
        }
    }
    assert forall|x: PageId| after.contains(x) implies #[trigger] page_labelled(t2, after, x) by {
        if !changed.contains(x) {
            assert(pages.contains(x));
            assert(page_labelled(t, pages, x));
            assert(growth::agree(t, t2, x));
            let h = shape::head(t, x);
            let es = shape::list(t, x);
            if h.kind == PAGE_INTERNAL_KIND {
                assert(is_below(t2, after, h.left->0, h.level)) by {
                    assert(pages.contains(h.left->0));
                }
                assert forall|j: int| 0 <= j < es.len() implies is_below(t2, after, (#[trigger] es[j])->child, h.level) by {
                    assert(is_below(t, pages, es[j]->child, h.level));
                    assert(pages.contains(es[j]->child));
                }
            }
        }
    }
}

/// A new root stands one level above the pages under it.
proof fn lemma_label_new_root(
    t: IndexView,
    pages: Set<PageId>,
    left: PageId,
    right: PageId,
    separator: Seq<u8>,
    level: u16,
    tx_id: TxId,
) -> (pages2: Set<PageId>)
    requires
        labelled(t, pages),
        t.meta() is Ok,
        t.pool.has(t.meta_page_id),
        t.pool.page_size <= MAX_PAGE_SIZE,
        is_below(t, pages, left, level),
        is_below(t, pages, right, level),
        t.new_root(t.desc.index_id, left, right, separator, level, tx_id).1 is Ok,
    ensures
        ({
            let t2 = t.new_root(t.desc.index_id, left, right, separator, level, tx_id).0;
            &&& labelled(t2, pages2)
            &&& t2.desc == t.desc
            &&& t2.meta() is Ok
            &&& t2.meta()->Ok_0.index_id == t.meta()->Ok_0.index_id
            &&& pages2.contains(shape::root(t2))
            &&& shape::head(t2, shape::root(t2)).level == t2.meta()->Ok_0.root_level
        }),
{
    let id = t.pool.next_id();
    let g = t.with_pool(t.pool.grown(PageKind::BtreeInternal, t.desc.rel_id));
    growth::lemma_grown(t, PageKind::BtreeInternal);
    let h = HeaderView {
        kind: PAGE_INTERNAL_KIND,
        level,
        index_id: t.desc.index_id,
        left: Some(left),
        right: None,
        high_key: Seq::empty(),
    };
    let es = seq![EntryView::Internal { separator, child: right }];
    assert(page_labelled(t, pages, left));
    assert(page_labelled(t, pages, right));
    let w = g.rewrite(id, false, h, es).0;
    growth::lemma_rewrite(g, id, false, h, es);
    let r = w.recorded(id, tx_id);
    growth::lemma_recorded(w, id, tx_id);
    let t2 = r.set_root(id, level, tx_id).0;
    assert(growth::agree(t, g, t.meta_page_id));
    assert(growth::agree(g, w, t.meta_page_id));
    assert(growth::agree(w, r, t.meta_page_id));
    assert(growth::agree(w, r, id));
    growth::lemma_set_root(r, id, level, tx_id);
    assert(growth::agree(r, t2, id));
    let changed = set![id];
    assert forall|x: PageId| pages.contains(x) implies #[trigger] growth::agree(t, t2, x) by {
        assert(page_labelled(t, pages, x));
        assert(growth::agree(t, g, x));
        assert(growth::agree(g, w, x));
        assert(growth::agree(w, r, x));
        assert(growth::agree(r, t2, x));
    }
    assert(!pages.contains(id)) by {
        if pages.contains(id) {
            assert(page_labelled(t, pages, id));
        }
    }
    assert(growth::agree(t, t2, left) && growth::agree(t, t2, right));
    assert(page_labelled(t2, pages.union(changed), id));
    lemma_relabelled(t, t2, pages, changed);
    pages.union(changed)
}

/// Whether all entries lead to pages one level below.
spec fn all_below(t: IndexView, pages: Set<PageId>, es: Seq<EntryView>, level: u16) -> bool {
    &&& growth::all_of_kind(es, false)
    &&& forall|j: int| 0 <= j < es.len() ==> is_below(t, pages, (#[trigger] es[j])->child, level)
}

proof fn lemma_more_below(t: IndexView, pages: Set<PageId>, es: Seq<EntryView>, level: u16, separator: Seq<u8>, right: PageId)
    requires
        all_below(t, pages, es, level),
        is_below(t, pages, right, level),
    ensures
        all_below(t, pages, entries::stable_sorted(es.push(EntryView::Internal { separator, child: right })), level),
{
    broadcast use group_to_multiset_ensures;

    let more = es.push(EntryView::Internal { separator, child: right });
    let all = entries::stable_sorted(more);
    growth::lemma_sorted_members(more);
    assert forall|j: int| 0 <= j < all.len() implies ((#[trigger] all[j]) is Leaf) == false && is_below(
        t,
        pages,
        all[j]->child,
        level,
    ) by {
        assert(all.contains(all[j]));
        assert(all.to_multiset().count(all[j]) > 0);
        assert(more.to_multiset().count(all[j]) > 0);
        assert(more.contains(all[j]));
        let k = choose|k: int| 0 <= k < more.len() && more[k] == all[j];
        if k < es.len() {
            assert(more[k] == es[k]);
        }
    }
}

/// A parent with room takes a link to a page one level below it.
proof fn lemma_label_parent(t: IndexView, pages: Set<PageId>, parent: PageId, all: Seq<EntryView>, tx_id: TxId)
    requires
        labelled(t, pages),
        t.meta() is Ok,
        pages.contains(parent),
        shape::head(t, parent).kind == PAGE_INTERNAL_KIND,
        all_below(t, pages, all, shape::head(t, parent).level),
        t.rewrite(parent, false, HeaderView { index_id: t.desc.index_id, ..shape::head(t, parent) }, all).1 is Ok,
    ensures
        ({
            let w = t.rewrite(parent, false, HeaderView { index_id: t.desc.index_id, ..shape::head(t, parent) }, all).0;
            let t2 = w.recorded(parent, tx_id);
            &&& labelled(t2, pages)
            &&& t2.desc == t.desc
            &&& t2.meta() == t.meta()
            &&& forall|x: PageId| pages.contains(x) ==> shape::head(t2, x).level == #[trigger] shape::head(t, x).level
        }),
{
    let h = HeaderView { index_id: t.desc.index_id, ..shape::head(t, parent) };
    assert(page_labelled(t, pages, parent));
    growth::lemma_header_links(t, parent);
    let w = t.rewrite(parent, false, h, all).0;
    growth::lemma_rewrite(t, parent, false, h, all);
    let t2 = w.recorded(parent, tx_id);
    growth::lemma_recorded(w, parent, tx_id);
    assert(growth::agree(w, t2, parent));
    assert(growth::agree(t, w, t.meta_page_id) && growth::agree(w, t2, t.meta_page_id));
    let changed = set![parent];
    assert(pages.union(changed) =~= pages);
    assert forall|x: PageId| x != parent implies #[trigger] growth::agree(t, t2, x) by {
        assert(growth::agree(t, w, x) && growth::agree(w, t2, x));
    }
    assert forall|x: PageId| pages.contains(x) implies shape::head(t2, x).level == #[trigger] shape::head(t, x).level by {
        if x != parent {
            assert(growth::agree(t, t2, x));
        }
    }
    assert(page_labelled(t2, pages, parent)) by {
        assert(is_below(t2, pages, h.left->0, h.level)) by {
            assert(shape::head(t2, h.left->0).level == shape::head(t, h.left->0).level);
        }
        assert forall|j: int| 0 <= j < all.len() implies is_below(t2, pages, (#[trigger] all[j])->child, h.level) by {
            assert(shape::head(t2, all[j]->child).level == shape::head(t, all[j]->child).level);
        }
    }
    lemma_relabelled(t, t2, pages, changed);
}

/// Both halves of an internal page stand on its level.
#[verifier::spinoff_prover]
proof fn lemma_label_split(t: IndexView, pages: Set<PageId>, parent: PageId, all: Seq<EntryView>, tx_id: TxId)
    requires
        labelled(t, pages),
        t.meta() is Ok,
        t.pool.has(t.meta_page_id),
        t.pool.page_size <= MAX_PAGE_SIZE,
        pages.contains(parent),
        shape::head(t, parent).kind == PAGE_INTERNAL_KIND,
        all_below(t, pages, all, shape::head(t, parent).level),
        t.split_internal(t.desc.index_id, parent, shape::head(t, parent), all, tx_id).1 is Ok,
    ensures
        ({
            let (t2, r) = t.split_internal(t.desc.index_id, parent, shape::head(t, parent), all, tx_id);
            let id = r->Ok_0.0;
            &&& labelled(t2, pages.insert(id))
            &&& t2.desc == t.desc
            &&& t2.meta() == t.meta()
            &&& t2.meta_page_id == t.meta_page_id
            &&& t2.pool.has(t.meta_page_id)
            &&& t2.pool.page_size == t.pool.page_size
            &&& shape::head(t2, id).level == shape::head(t, parent).level
            &&& forall|x: PageId| pages.contains(x) ==> shape::head(t2, x).level == #[trigger] shape::head(t, x).level
            &&& forall|x: PageId| pages.contains(x) && x != parent ==> #[trigger] growth::agree(t, t2, x)
        }),
{
    let h = shape::head(t, parent);
    let n = all.len() as int;
    let split = n / 2;
    let left = all.subrange(0, split);
    let right = all.subrange(split, n);
    let id = t.pool.next_id();
    let g = t.with_pool(t.pool.grown(PageKind::BtreeInternal, t.desc.rel_id));
    growth::lemma_grown(t, PageKind::BtreeInternal);
    assert(page_labelled(t, pages, parent));
    growth::lemma_header_links(t, parent);
    assert(growth::agree(t, g, parent));
    let child = right[0]->child;
    assert(right[0] == all[split]);
    assert(is_below(t, pages, all[split]->child, h.level));
    assert(page_labelled(t, pages, child));
    let separator = right[0]->separator;
    let h1 = HeaderView { index_id: t.desc.index_id, right: Some(id), high_key: separator, ..h };
    let h2 = HeaderView { index_id: t.desc.index_id, left: Some(child), ..h };
    assert forall|j: int| 0 <= j < left.len() implies ((#[trigger] left[j]) is Leaf) == false by {
        assert(left[j] == all[j]);
    }
    assert forall|j: int| 0 <= j < right.len() implies ((#[trigger] right[j]) is Leaf) == false by {
        assert(right[j] == all[split + j]);
    }
    let one = g.rewrite(parent, false, h1, left).0;
    growth::lemma_rewrite(g, parent, false, h1, left);
    assert(growth::agree(g, one, id));
    let two = one.rewrite(id, false, h2, right).0;
    growth::lemma_rewrite(one, id, false, h2, right);
    assert(growth::agree(one, two, parent));
    let three = two.recorded(parent, tx_id);
    growth::lemma_recorded(two, parent, tx_id);
    let t2 = three.recorded(id, tx_id);
    growth::lemma_recorded(three, id, tx_id);
    assert(growth::agree(two, three, parent) && growth::agree(three, t2, parent));
    assert(growth::agree(two, three, id) && growth::agree(three, t2, id));
    assert(!pages.contains(id)) by {
        if pages.contains(id) {
            assert(page_labelled(t, pages, id));
        }
    }
    assert forall|x: PageId| t.pool.has(x) && x != parent implies #[trigger] growth::agree(t, t2, x) by {
        assert(growth::agree(t, g, x) && growth::agree(g, one, x) && growth::agree(one, two, x) && growth::agree(
            two,
            three,
            x,
        ) && growth::agree(three, t2, x));
    }
    assert(growth::agree(t, t2, t.meta_page_id));
    assert forall|x: PageId| pages.contains(x) && x != parent implies #[trigger] growth::agree(t, t2, x) by {
        assert(page_labelled(t, pages, x));
    }
    assert forall|x: PageId| pages.contains(x) implies shape::head(t2, x).level == #[trigger] shape::head(t, x).level by {
        if x != parent {
            assert(growth::agree(t, t2, x));
        }
    }
    let changed = set![parent, id];
    let after = pages.insert(id);
    assert(pages.union(changed) =~= after);
    assert(page_labelled(t2, after, parent)) by {
        assert(is_below(t2, after, h.left->0, h.level)) by {
            assert(shape::head(t2, h.left->0).level == shape::head(t, h.left->0).level);
        }
        assert forall|j: int| 0 <= j < left.len() implies is_below(t2, after, (#[trigger] left[j])->child, h.level) by {
            assert(left[j] == all[j]);
            assert(shape::head(t2, all[j]->child).level == shape::head(t, all[j]->child).level);
        }
    }
    assert(page_labelled(t2, after, id)) by {
        assert(is_below(t2, after, child, h.level)) by {
            assert(shape::head(t2, child).level == shape::head(t, child).level);
        }
        assert forall|j: int| 0 <= j < right.len() implies is_below(t2, after, (#[trigger] right[j])->child, h.level) by {
            assert(right[j] == all[split + j]);
            assert(shape::head(t2, all[split + j]->child).level == shape::head(t, all[split + j]->child).level);
        }
    }
    lemma_relabelled(t, t2, pages, changed);
}

/// Whether some pages are known, and none stands on the highest level there is.
spec fn all_known(t: IndexView, pages: Set<PageId>, ids: Seq<PageId>) -> bool {
    forall|j: int| 0 <= j < ids.len() ==> pages.contains(#[trigger] ids[j]) && shape::head(t, ids[j]).level < u16::MAX
}

/// The way down to a page that was split is still there.
proof fn lemma_way_down(t: IndexView, t1: IndexView, pages: Set<PageId>, id: PageId, path: Seq<PageId>)
    requires
        path.len() > 1,
        path.no_duplicates(),
        goes_down(t, path),
        all_known(t, pages, path.drop_last()),
        forall|x: PageId| pages.contains(x) ==> shape::head(t1, x).level == #[trigger] shape::head(t, x).level,
        forall|x: PageId| pages.contains(x) && x != path[path.len() - 2] ==> #[trigger] growth::agree(t, t1, x),
    ensures
        goes_down(t1, path.drop_last()),
        path.drop_last().no_duplicates(),
        all_known(t1, pages.insert(id), path.drop_last().drop_last()),
{
    let path1 = path.drop_last();
    let rest = path1.drop_last();
    let m = path.len() - 2;
    assert forall|j: int| 0 <= j < path1.len() - 1 implies is_child(t1, #[trigger] path1[j], path1[j + 1]) by {
        assert(path[j] == path1[j] && path[j + 1] == path1[j + 1]);
        assert(is_child(t, path[j], path[j + 1]));
        assert(path[j] != path[m]);
        assert(growth::agree(t, t1, path1[j]));
    }
    assert forall|j: int| 0 <= j < rest.len() implies pages.insert(id).contains(#[trigger] rest[j]) && shape::head(
        t1,
        rest[j],
    ).level < u16::MAX by {
        assert(rest[j] == path1[j]);
        assert(shape::head(t1, path1[j]).level == shape::head(t, path1[j]).level);
    }
}

/// A page beside a child of an ancestor stands one level below the ancestor.
proof fn lemma_link_level(
    t: IndexView,
    pages: Set<PageId>,
    ancestors: Seq<PageId>,
    left: PageId,
    right: PageId,
    level: u16,
)
    requires
        labelled(t, pages),
        ancestors.len() > 0,
        is_below(t, pages, left, level),
        is_below(t, pages, right, level),
        goes_down(t, ancestors.push(left)),
        all_known(t, pages, ancestors),
    ensures
        ({
            let parent = ancestors.last();
            let h = shape::head(t, parent);
            &&& pages.contains(parent)
            &&& t.header(parent) is Ok
            &&& t.entries(parent) is Ok
            &&& h.kind == PAGE_INTERNAL_KIND
            &&& h.level < u16::MAX
            &&& all_below(t, pages, shape::list(t, parent), h.level)
            &&& is_below(t, pages, right, h.level)
        }),
{
    let path = ancestors.push(left);
    let m = ancestors.len() - 1;
    let parent = ancestors[m];
    assert(pages.contains(parent));
    assert(page_labelled(t, pages, parent));
    assert(path[m] == parent && path[m + 1] == left);
    assert(is_child(t, path[m], path[m + 1]));
    let h = shape::head(t, parent);
    let es = shape::list(t, parent);
    if h.left != Some(left) {
        let j = choose|j: int| 0 <= j < es.len() && (#[trigger] es[j])->child == left;
        assert(is_below(t, pages, es[j]->child, h.level));
    }
}

/// Telling the ancestors about a new page keeps the levels in order.
#[verifier::spinoff_prover]
proof fn lemma_label_propagated(
    t: IndexView,
    pages: Set<PageId>,
    ancestors: Seq<PageId>,
    left: PageId,
    right: PageId,
    separator: Seq<u8>,
    level: u16,
    tx_id: TxId,
) -> (pages2: Set<PageId>)
    requires
        labelled(t, pages),
        t.meta() is Ok,
        t.pool.has(t.meta_page_id),
        t.pool.page_size <= MAX_PAGE_SIZE,
        pages.contains(shape::root(t)),
        shape::head(t, shape::root(t)).level == t.meta()->Ok_0.root_level,
        is_below(t, pages, left, level),
        is_below(t, pages, right, level),
        ancestors.push(left).no_duplicates(),
        ancestors.push(left)[0] == shape::root(t),
        goes_down(t, ancestors.push(left)),
        all_known(t, pages, ancestors),
        t.propagated(t.desc.index_id, ancestors, left, right, separator, level, tx_id).1 is Ok,
    ensures
        ({
            let t2 = t.propagated(t.desc.index_id, ancestors, left, right, separator, level, tx_id).0;
            &&& labelled(t2, pages2)
            &&& t2.desc == t.desc
            &&& t2.meta() is Ok
            &&& t2.meta()->Ok_0.index_id == t.meta()->Ok_0.index_id
            &&& pages2.contains(shape::root(t2))
            &&& shape::head(t2, shape::root(t2)).level == t2.meta()->Ok_0.root_level
        }),
    decreases ancestors.len(),
{
    let path = ancestors.push(left);
    if ancestors.len() == 0 {
        lemma_label_new_root(t, pages, left, right, separator, level, tx_id)
    } else {
        let parent = ancestors.last();
        let h = shape::head(t, parent);
        let es = shape::list(t, parent);
        lemma_link_level(t, pages, ancestors, left, right, level);
        lemma_more_below(t, pages, es, h.level, separator, right);
        let all = entries::stable_sorted(es.push(EntryView::Internal { separator, child: right }));
        if entries::required_len(all) <= IndexView::capacity(t.pool.frames[parent.0 - 1].page) {
            lemma_label_parent(t, pages, parent, all, tx_id);
            assert(shape::head(t, shape::root(t)).level == t.meta()->Ok_0.root_level);
            pages
        } else {
            lemma_label_split(t, pages, parent, all, tx_id);
            let (t1, r) = t.split_internal(t.desc.index_id, parent, h, all, tx_id);
            let (id, next) = r->Ok_0;
            let rest = ancestors.drop_last();
            let path1 = rest.push(parent);
            assert(path1 =~= ancestors);
            assert(path.drop_last() =~= ancestors);
            let pages1 = pages.insert(id);
            lemma_way_down(t, t1, pages, id, path);
            assert(path1[0] == path[0]);
            assert(shape::head(t, parent).level == h.level);
            assert(shape::head(t, shape::root(t)).level == t.meta()->Ok_0.root_level);
            lemma_label_propagated(
                t1,
                pages1,
                rest,
                parent,
                id,
                next,
                if h.level == u16::MAX {
                    h.level
                } else {
                    (h.level + 1) as u16
                },
                tx_id,
            )
        }
    }
}

/// All pages on a way down from a page among some pages are among them, and none stands higher.
proof fn lemma_path_known(t: IndexView, pages: Set<PageId>, path: Seq<PageId>, j: int)
    requires
        labelled(t, pages),
        goes_down(t, path),
        0 <= j < path.len(),
        pages.contains(path[0]),
    ensures
        pages.contains(path[j]),
        shape::head(t, path[j]).level <= shape::head(t, path[0]).level,
    decreases j,
{
    if j > 0 {
        lemma_path_known(t, pages, path, j - 1);
        assert(page_labelled(t, pages, path[j - 1]));
        assert(is_child(t, path[j - 1], path[j - 1 + 1]));
        let h = shape::head(t, path[j - 1]);
        let es = shape::list(t, path[j - 1]);
        if h.left != Some(path[j]) {
            let m = choose|m: int| 0 <= m < es.len() && (#[trigger] es[m])->child == path[j];
            assert(is_below(t, pages, es[m]->child, h.level));
        }
    }
}

/// A leaf that takes an entry stays where it is.
proof fn lemma_label_leaf(
    t: IndexView,
    s: Shape,
    keys: KeySpace,
    pages: Set<PageId>,
    tx_id: TxId,
    logical: Seq<u8>,
    row: IndexRowRef,
    i: int,
)
    requires
        shape::linked(t, s, keys),
        labelled(t, pages),
        keys.contains(logical),
        keys.rows.contains(row),
        t.inserted(tx_id, logical, row).1 is Ok,
        growth::has_room(t, IndexView::new_entry(logical, row, tx_id)),
        0 <= i < s.leaves.len(),
        t.path(key::physical_key(logical, row)) is Ok,
        growth::target(t, IndexView::new_entry(logical, row, tx_id)) == s.leaves[i],
        pages.contains(s.leaves[i]) ==> shape::head(t, s.leaves[i]).level == 0,
    ensures
        ({
            let t2 = t.inserted(tx_id, logical, row).0;
            &&& labelled(t2, pages)
            &&& t2.meta() == t.meta()
            &&& forall|x: PageId| pages.contains(x) ==> shape::head(t2, x).level == #[trigger] shape::head(t, x).level
        }),
{
    let e = IndexView::new_entry(logical, row, tx_id);
    let id = s.leaves[i];
    let h = shape::head(t, id);
    let es = shape::list(t, id);
    assert(shape::readable(t, s, id));
    assert(shape::leaf_ok(h, es, s, i, keys));
    assert(shape::leaf_entry_ok(e, keys));
    growth::lemma_placed_order(es, e, keys);
    let all = es.insert(entries::lower_bound(es, e), e);
    let h2 = HeaderView { kind: PAGE_LEAF_KIND, level: 0, index_id: t.desc.index_id, ..h };
    growth::lemma_header_links(t, id);
    assert(growth::all_of_kind(all, true)) by {
        assert forall|j: int| 0 <= j < all.len() implies ((#[trigger] all[j]) is Leaf) == true by {
            assert(shape::leaf_entry_ok(all[j], keys));
        }
    }
    let w = t.rewrite(id, true, h2, all).0;
    growth::lemma_rewrite(t, id, true, h2, all);
    let t2 = w.recorded(id, tx_id);
    growth::lemma_recorded(w, id, tx_id);
    assert(growth::agree(w, t2, id));
    assert forall|x: PageId| x != id implies #[trigger] growth::agree(t, t2, x) by {
        assert(growth::agree(t, w, x) && growth::agree(w, t2, x));
    }
    assert(growth::agree(t, t2, t.meta_page_id));
    assert forall|x: PageId| pages.contains(x) implies shape::head(t2, x).level == #[trigger] shape::head(t, x).level by {
        if x != id {
            assert(growth::agree(t, t2, x));
        }
    }
    let changed = if pages.contains(id) {
        set![id]
    } else {
        Set::empty()
    };
    assert(pages.union(changed) =~= pages);
    lemma_relabelled(t, t2, pages, changed);
}

/// Both halves of a leaf on level 0 stand on level 0.
proof fn lemma_label_halves(
    t: IndexView,
    t1: IndexView,
    s: Shape,
    keys: KeySpace,
    pages: Set<PageId>,
    i: int,
    id: PageId,
    separator: Seq<u8>,
)
    requires
        labelled(t, pages),
        growth::leaf_was_split(t, t1, s, keys, i, id, separator),
        t.pool.has(t.meta_page_id),
        t1.desc == t.desc,
        pages.contains(s.leaves[i]),
        shape::head(t, s.leaves[i]).level == 0,
    ensures
        labelled(t1, pages.insert(id)),
        forall|x: PageId| pages.contains(x) && x != s.leaves[i] ==> #[trigger] growth::agree(t, t1, x),
{
    let leaf = s.leaves[i];
    let changed = set![leaf, id];
    assert(pages.union(changed) =~= pages.insert(id));
    assert(page_labelled(t, pages, leaf));
    assert(!pages.contains(id)) by {
        if pages.contains(id) {
            assert(page_labelled(t, pages, id));
        }
    }
    assert forall|x: PageId| pages.contains(x) && x != leaf implies #[trigger] growth::agree(t, t1, x) by {
        assert(page_labelled(t, pages, x));
    }
    lemma_relabelled(t, t1, pages, changed);
}

/// The way down to a leaf that was split is still there.
proof fn lemma_way_to_leaf(t: IndexView, t1: IndexView, pages: Set<PageId>, id: PageId, path: Seq<PageId>)
    requires
        labelled(t, pages),
        path.len() > 0,
        path.no_duplicates(),
        goes_down(t, path),
        pages.contains(path[0]),
        shape::head(t, path[0]).level < u16::MAX,
        shape::head(t1, path.last()).level == shape::head(t, path.last()).level,
        forall|x: PageId| pages.contains(x) && x != path.last() ==> #[trigger] growth::agree(t, t1, x),
    ensures
        goes_down(t1, path),
        pages.contains(path.last()),
        all_known(t1, pages.insert(id), path.drop_last()),
        shape::head(t1, path[0]).level == shape::head(t, path[0]).level,
{
    let n = path.len() - 1;
    assert forall|j: int| 0 <= j < n implies #[trigger] growth::agree(t, t1, path[j]) && pages.contains(path[j])
        && shape::head(t1, path[j]).level < u16::MAX by {
        lemma_path_known(t, pages, path, j);
        assert(path[j] != path[n]);
        assert(path[n] == path.last());
        assert(growth::agree(t, t1, path[j]));
    }
    lemma_path_known(t, pages, path, n);
    assert forall|j: int| 0 <= j < path.len() - 1 implies is_child(t1, #[trigger] path[j], path[j + 1]) by {
        assert(is_child(t, path[j], path[j + 1]));
        assert(growth::agree(t, t1, path[j]));
    }
    let above = path.drop_last();
    assert forall|j: int| 0 <= j < above.len() implies pages.insert(id).contains(#[trigger] above[j]) && shape::head(
        t1,
        above[j],
    ).level < u16::MAX by {
        assert(growth::agree(t, t1, path[j]));
    }
    if n > 0 {
        assert(growth::agree(t, t1, path[0]));
    }
}

/// Telling the ancestors about a leaf that was split leaves the levels in order.
proof fn lemma_label_above(
    t: IndexView,
    t1: IndexView,
    s: Shape,
    keys: KeySpace,
    pages: Set<PageId>,
    path: Seq<PageId>,
    tx_id: TxId,
    i: int,
    id: PageId,
    separator: Seq<u8>,
) -> (pages2: Set<PageId>)
    requires
        labelled(t, pages),
        growth::leaf_was_split(t, t1, s, keys, i, id, separator),
        t1.desc == t.desc,
        t.meta() is Ok,
        t1.meta() == t.meta(),
        t.pool.has(t.meta_page_id),
        t1.pool.page_size <= MAX_PAGE_SIZE,
        pages.contains(shape::root(t)),
        shape::head(t, shape::root(t)).level == t.meta()->Ok_0.root_level,
        t.meta()->Ok_0.root_level < u16::MAX,
        path.len() > 0,
        path[0] == shape::root(t),
        path.last() == s.leaves[i],
        shape::path_ok(s, path),
        goes_down(t, path),
        shape::head(t, s.leaves[i]).level == 0,
        t1.propagated(t.desc.index_id, path.drop_last(), s.leaves[i], id, separator, 1, tx_id).1 is Ok,
    ensures
        ({
            let t2 = t1.propagated(t.desc.index_id, path.drop_last(), s.leaves[i], id, separator, 1, tx_id).0;
            &&& labelled(t2, pages2)
            &&& t2.meta() is Ok
            &&& pages2.contains(shape::root(t2))
            &&& shape::head(t2, shape::root(t2)).level == t2.meta()->Ok_0.root_level
        }),
{
    let leaf = s.leaves[i];
    let ancestors = path.drop_last();
    assert(ancestors.push(leaf) =~= path);
    lemma_path_known(t, pages, path, path.len() - 1);
    lemma_label_halves(t, t1, s, keys, pages, i, id, separator);
    assert(path.no_duplicates()) by {
        assert forall|a: int, b: int| 0 <= a < path.len() && 0 <= b < path.len() && a != b implies path[a] != path[b] by {
            if a < b {
                assert((s.rank)(path[b]) < (s.rank)(path[a]));
            } else {
                assert((s.rank)(path[a]) < (s.rank)(path[b]));
            }
        }
    }
    lemma_way_to_leaf(t, t1, pages, id, path);
    lemma_label_propagated(t1, pages.insert(id), ancestors, leaf, id, separator, 1, tx_id)
}

/// Whether some pages hold the tree, with all levels in order.
spec fn labelled_tree(t: IndexView, pages: Set<PageId>) -> bool {
    &&& labelled(t, pages)
    &&& t.meta() is Ok
    &&& pages.contains(shape::root(t))
    &&& shape::head(t, shape::root(t)).level == t.meta()->Ok_0.root_level
}

/// If validation finds nothing wrong with an ordered index, its levels are in order.
proof fn lemma_valid(t: IndexView, s: Shape, keys: KeySpace) -> (pages: Set<PageId>)
    requires
        shape::linked(t, s, keys),
        t.validation().1 is Ok,
        t.validation().0.errors.len() == 0,
    ensures
        labelled_tree(t, pages),
{
    let empty = ReportView { pages_seen: 0, leaf_pages: 0, internal_pages: 0, errors: Seq::empty() };
    lemma_walked(t, s, keys, shape::root(t), t.meta()->Ok_0.root_level, empty, t.walk_limit());
    visited(t, shape::root(t), t.walk_limit())
}

/// Validation finds nothing wrong with an ordered index whose levels are in order.
proof fn lemma_labelled_valid(t: IndexView, s: Shape, keys: KeySpace, pages: Set<PageId>)
    requires
        shape::linked(t, s, keys),
        labelled_tree(t, pages),
    ensures
        t.validation().1 == Ok::<(), Error>(()),
        t.validation().0.errors.len() == 0,
{
    let empty = ReportView { pages_seen: 0, leaf_pages: 0, internal_pages: 0, errors: Seq::empty() };
    assert(shape::readable(t, s, shape::root(t)));
    lemma_walk(t, s, keys, pages, shape::root(t), empty, t.walk_limit());
}

/// A leaf that is split for an entry leaves the levels in order.
#[verifier::spinoff_prover]
#[verifier::rlimit(40)]
proof fn lemma_label_insert(
    t: IndexView,
    s: Shape,
    keys: KeySpace,
    pages: Set<PageId>,
    tx_id: TxId,
    logical: Seq<u8>,
    row: IndexRowRef,
    i: int,
) -> (pages2: Set<PageId>)
    requires
        shape::linked(t, s, keys),
        t.pool.page_size <= MAX_PAGE_SIZE,
        labelled_tree(t, pages),
        keys.contains(logical),
        keys.rows.contains(row),
        t.inserted(tx_id, logical, row).1 is Ok,
        !growth::has_room(t, IndexView::new_entry(logical, row, tx_id)),
        shape::home(s, i, key::physical_key(logical, row)),
        t.path(key::physical_key(logical, row)) is Ok,
        t.path(key::physical_key(logical, row))->Ok_0[0] == shape::root(t),
        shape::path_ok(s, t.path(key::physical_key(logical, row))->Ok_0),
        growth::target(t, IndexView::new_entry(logical, row, tx_id)) == s.leaves[i],
        t.meta()->Ok_0.index_id == t.desc.index_id,
        shape::head(t, s.leaves[i]).level == 0,
        goes_down(t, t.path(key::physical_key(logical, row))->Ok_0),
        t.meta()->Ok_0.root_level < u16::MAX,
    ensures
        labelled_tree(t.inserted(tx_id, logical, row).0, pages2),
{
    let e = IndexView::new_entry(logical, row, tx_id);
    let path = t.path(e.sort_key())->Ok_0;
    let leaf = s.leaves[i];
    let t1 = growth::lemma_split_step(t, s, keys, tx_id, logical, row, i);
    let id = t.pool.next_id();
    lemma_label_above(t, t1, s, keys, pages, path, tx_id, i, id, growth::split_separator(t, leaf, e))
}

/// After an insert into an ordered index on which validation finds nothing wrong, it finds nothing wrong
/// either. The leaf that takes the entry stands on level 0, as leaves do, and if it has to be split, the
/// search comes to it from page to child all the way, with a level left above the root.
pub proof fn law_insert_keeps_validity(
    t: IndexView,
    s: Shape,
    keys: KeySpace,
    tx_id: TxId,
    logical: Seq<u8>,
    row: IndexRowRef,
)
    requires
        shape::linked(t, s, keys),
        t.pool.page_size <= MAX_PAGE_SIZE,
        keys.contains(logical),
        keys.rows.contains(row),
        t.inserted(tx_id, logical, row).1 is Ok,
        t.validation().1 is Ok,
        t.validation().0.errors.len() == 0,
        t.meta()->Ok_0.index_id == t.desc.index_id,
        shape::head(t, growth::target(t, IndexView::new_entry(logical, row, tx_id))).level == 0,
        growth::has_room(t, IndexView::new_entry(logical, row, tx_id)) || {
            &&& goes_down(t, t.path(key::physical_key(logical, row))->Ok_0)
            &&& t.meta()->Ok_0.root_level < u16::MAX
        },
    ensures
        t.inserted(tx_id, logical, row).0.validation().1 == Ok::<(), Error>(()),
        t.inserted(tx_id, logical, row).0.validation().0.errors.len() == 0,
{
    let e = IndexView::new_entry(logical, row, tx_id);
    let i = shape::lemma_path(t, s, keys, e.sort_key());
    let pages = lemma_valid(t, s, keys);
    let s2 = growth::law_insert_keeps_order(t, s, keys, tx_id, logical, row);
    let pages2 = if growth::has_room(t, e) {
        lemma_label_leaf(t, s, keys, pages, tx_id, logical, row, i);
        assert(shape::head(t, shape::root(t)).level == t.meta()->Ok_0.root_level);
        pages
    } else {
        lemma_label_insert(t, s, keys, pages, tx_id, logical, row, i)
    };
    lemma_labelled_valid(t.inserted(tx_id, logical, row).0, s2, keys, pages2);
}

/// Whether the children of a node are as many as its separators ask for.
proof fn lemma_child_count(es: Seq<EntryView>)
    ensures
        model::children_of(es).len() == es.filter(|e: EntryView| e is Internal).len(),
        model::children_of(es).len() <= es.len(),
        model::children_of(es).len() == es.len() <==> forall|j: int| 0 <= j < es.len() ==> (#[trigger] es[j]) is Internal,
    decreases es.len(),
{
    reveal(Seq::filter);
    if es.len() > 0 {
        let init = es.drop_last();
        lemma_child_count(init);
        if forall|j: int| 0 <= j < es.len() ==> (#[trigger] es[j]) is Internal {
            assert forall|j: int| 0 <= j < init.len() implies (#[trigger] init[j]) is Internal by {
                assert(init[j] == es[j]);
            }
            assert(es[es.len() - 1] is Internal);
        }
        if model::children_of(es).len() == es.len() {
            assert forall|j: int| 0 <= j < es.len() implies (#[trigger] es[j]) is Internal by {
                if j < init.len() {
                    assert(init[j] == es[j]);
                }
            }
        }
    }
}

proof fn lemma_no_order_findings(es: Seq<EntryView>)
    ensures
        model::order_findings(es).len() == 0 <==> forall|j: int|
            0 < j < es.len() && (#[trigger] es[j]) is Leaf && es[j - 1] is Leaf ==> order::bytes_le(
                es[j - 1].sort_key(),
                es[j].sort_key(),
            ),
    decreases es.len(),
{
    if es.len() >= 2 {
        let init = es.drop_last();
        lemma_no_order_findings(init);
        let n = es.len() - 1;
        order::lemma_not_le(es[n].sort_key(), es[n - 1].sort_key());
        if model::order_findings(es).len() == 0 {
            assert forall|j: int| 0 < j < es.len() && (#[trigger] es[j]) is Leaf && es[j - 1] is Leaf implies order::bytes_le(
                es[j - 1].sort_key(),
                es[j].sort_key(),
            ) by {
                if j < n {
                    assert(init[j] == es[j] && init[j - 1] == es[j - 1]);
                }
            }
        }
        if forall|j: int|
            0 < j < es.len() && (#[trigger] es[j]) is Leaf && es[j - 1] is Leaf ==> order::bytes_le(
                es[j - 1].sort_key(),
                es[j].sort_key(),
            ) {
            assert forall|j: int| 0 < j < init.len() && (#[trigger] init[j]) is Leaf && init[j - 1] is Leaf implies order::bytes_le(
                init[j - 1].sort_key(),
                init[j].sort_key(),
            ) by {
                assert(init[j] == es[j] && init[j - 1] == es[j - 1]);
            }
            assert(es[n] is Leaf && es[n - 1] is Leaf ==> order::bytes_le(es[n - 1].sort_key(), es[n].sort_key()));
        }
    }
}

/// A look at a node finds nothing wrong exactly if it is a leaf or an internal node of the index, on the
/// level that is asked for, with its leaf entries in order, and, if it is internal, with a leftmost child
/// and a child for every entry. Whatever was found before stays in the report.
pub proof fn law_report_names_what_is_wrong(r: ReportView, h: HeaderView, es: Seq<EntryView>, level: u16, index_id: IndexId)
    ensures
        ({
            let after = model::reported(r, h, es, level, index_id);
            &&& after.errors.len() >= r.errors.len()
            &&& after.errors.take(r.errors.len() as int) == r.errors
            &&& after.errors.len() == r.errors.len() <==> {
                &&& h.kind == PAGE_LEAF_KIND || h.kind == PAGE_INTERNAL_KIND
                &&& h.level == level
                &&& h.index_id == index_id
                &&& forall|j: int|
                    0 < j < es.len() && (#[trigger] es[j]) is Leaf && es[j - 1] is Leaf ==> order::bytes_le(
                        es[j - 1].sort_key(),
                        es[j].sort_key(),
                    )
                &&& h.kind == PAGE_INTERNAL_KIND ==> h.left is Some && forall|j: int|
                    0 <= j < es.len() ==> (#[trigger] es[j]) is Internal
            }
        }),
{
    lemma_child_count(es);
    lemma_no_order_findings(es);
    let after = model::reported(r, h, es, level, index_id);
    assert(after.errors.take(r.errors.len() as int) =~= r.errors);
}

/// Every page that is looked at is counted once, as a leaf or as an internal page.
pub proof fn law_report_counts_pages(r: ReportView, h: HeaderView, es: Seq<EntryView>, level: u16, index_id: IndexId)
    requires
        r.pages_seen < usize::MAX,
        r.leaf_pages < usize::MAX,
        r.internal_pages < usize::MAX,
    ensures
        ({
            let after = model::reported(r, h, es, level, index_id);
            &&& after.pages_seen == r.pages_seen + 1
            &&& h.kind == PAGE_LEAF_KIND ==> after.leaf_pages == r.leaf_pages + 1 && after.internal_pages
                == r.internal_pages
            &&& h.kind == PAGE_INTERNAL_KIND ==> after.internal_pages == r.internal_pages + 1 && after.leaf_pages
                == r.leaf_pages
        }),
{
}

/// What validation says of a tree in which it finds nothing wrong: on every page that it comes to, from
/// the root down, levels go down by one from page to child, and all pages belong to the index.
pub proof fn law_validation_finds_what_is_wrong(t: IndexView, s: Shape, keys: KeySpace) -> (pages: Set<PageId>)
    requires
        shape::linked(t, s, keys),
        t.validation().1 is Ok,
        t.validation().0.errors.len() == 0,
    ensures
        pages.contains(shape::root(t)),
        shape::head(t, shape::root(t)).level == t.meta()->Ok_0.root_level,
        forall|id: PageId|
            #[trigger] pages.contains(id) ==> shape::head(t, id).index_id == t.desc.index_id && forall|child: PageId|
                #[trigger] is_child(t, id, child) ==> pages.contains(child) && shape::head(t, child).level + 1 == (if shape::head(
                    t,
                    id,
                ).level == 0 {
                    1
                } else {
                    shape::head(t, id).level as int
                }),
{
    let pages = lemma_valid(t, s, keys);
    assert forall|id: PageId| #[trigger] pages.contains(id) implies shape::head(t, id).index_id == t.desc.index_id
        && forall|child: PageId| #[trigger]
        is_child(t, id, child) ==> pages.contains(child) && shape::head(t, child).level + 1 == (if shape::head(
            t,
            id,
        ).level == 0 {
            1
        } else {
            shape::head(t, id).level as int
        }) by {
        assert(page_labelled(t, pages, id));
        let h = shape::head(t, id);
        let es = shape::list(t, id);
        assert forall|child: PageId| #[trigger] is_child(t, id, child) implies pages.contains(child) && shape::head(
            t,
            child,
        ).level + 1 == (if h.level == 0 {
            1
        } else {
            h.level as int
        }) by {
            if h.left != Some(child) {
                let j = choose|j: int| 0 <= j < es.len() && (#[trigger] es[j])->child == child;
                assert(is_below(t, pages, es[j]->child, h.level));
            }
        }
    }
    pages
}

} // verus!
