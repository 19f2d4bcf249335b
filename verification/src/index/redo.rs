//! The pages that a logged index changes can be put back from the log.
use crate::error::Error;
use crate::format::image;
use crate::format::page;
use crate::format::page::{PageKind, PageView, MAX_PAGE_SIZE};
use crate::format::{bytes, Lsn, PageId, RelId, TxId};
use crate::index::cell::EntryView;
use crate::index::entries;
use crate::index::key;
use crate::index::model;
use crate::index::model::{IndexView, Reader, SinkView};
use crate::index::node;
use crate::index::node::{HeaderView, MetaHeader, INDEX_SPECIAL_LEN, PAGE_INTERNAL_KIND, PAGE_LEAF_KIND};
use crate::index::{IndexDescriptor, IndexId, IndexRowRef};
use crate::storage::buffer::{FrameView, PoolView};
use crate::wal::coordinator::QueuedView;
use crate::wal::payload;
use crate::wal::payload::PayloadView;
use crate::wal::record;
use crate::wal::record::{RecordView, WalRecordKind};
use vstd::prelude::*;

verus! {

/// Two pages say the same; the log position that they carry may differ.
pub open spec fn same_content(a: PageView, b: PageView) -> bool {
    &&& a.size == b.size
    &&& a.kind == b.kind
    &&& a.page_id == b.page_id
    &&& a.rel_id == b.rel_id
    &&& a.generation == b.generation
    &&& a.special == b.special
    &&& a.cells == b.cells
}

/// Whether a queued record, once it is read back, asks for a page to be put back for a transaction.
pub open spec fn asks_for(q: QueuedView, tx_id: TxId, page: PageView) -> bool {
    &&& record::parse_record(q.encoded) matches Ok(r)
    &&& r.kind == WalRecordKind::PageImage
    &&& r.tx_id == tx_id
    &&& r.lsn == q.append.start_lsn
    &&& payload::parse_payload(r.payload) matches Ok(PayloadView::PageImage { page_id, page_lsn: _, page_bytes })
    &&& page_id == page.page_id
    &&& image::parse_image(page_bytes) == Ok::<PageView, Error>(page)
}

/// The page that a queued record asks to be put back.
pub open spec fn asked_for(q: QueuedView) -> Option<PageView> {
    match record::parse_record(q.encoded) {
        Ok(r) => match payload::parse_payload(r.payload) {
            Ok(PayloadView::PageImage { page_id: _, page_lsn: _, page_bytes }) => match image::parse_image(page_bytes) {
                Ok(page) => Some(page),
                Err(_) => None,
            },
            _ => None,
        },
        Err(_) => None,
    }
}

/// The pages after everything that queued records ask for is put back, in order.
pub open spec fn redone(pool: PoolView, queued: Seq<QueuedView>) -> PoolView
    decreases queued.len(),
{
    if queued.len() == 0 {
        pool
    } else {
        let before = redone(pool, queued.drop_last());
        match asked_for(queued.last()) {
            Some(page) => before.written(page),
            None => before,
        }
    }
}

/// Every page fits its size and carries the number of its place.
pub open spec fn in_place(pool: PoolView) -> bool {
    forall|i: int|
        0 <= i < pool.frames.len() ==> (#[trigger] pool.frames[i]).page.wf() && pool.frames[i].page.page_id.0 == i + 1
            && pool.frames[i].page.size == pool.page_size
}

/// The record of a change of a page, once it is read back, asks for the page as it stands, with all its
/// cells and its special area, to be put back for the transaction that changed it.
pub proof fn law_changed_page_is_logged(t: IndexView, id: PageId, tx_id: TxId)
    requires
        t.pool.has(id),
        t.pool.frames[id.0 - 1].page.wf(),
        t.pool.frames[id.0 - 1].page.page_id == id,
        t.log is Some,
        tx_id != TxId(0),
        t.record(id, tx_id).1 is Ok,
    ensures
        ({
            let page = t.pool.frames[id.0 - 1].page;
            let before = t.log->0.queue.pending;
            let after = t.record(id, tx_id).0;
            let queued = after.log->0.queue.pending.last();
            &&& after.log is Some
            &&& after.log->0.queue.pending == before.push(queued)
            &&& asks_for(queued, tx_id, PageView { page_lsn: Lsn(0), ..page })
            &&& asked_for(queued) == Some(PageView { page_lsn: Lsn(0), ..page })
            &&& after.pool.frames[id.0 - 1] == (FrameView { page, dirty: Some(queued.append.end_lsn) })
        }),
{
    broadcast use bytes::lemma_le_bytes_len;

    let page = t.pool.frames[id.0 - 1].page;
    let kept = PageView { page_lsn: Lsn(0), ..page };
    let sink = t.log->0;
    let data = IndexView::logged_image(id, page);
    image::law_page_image_round_trips(kept);
    let change = PayloadView::PageImage { page_id: id, page_lsn: Lsn(0), page_bytes: image::page_image(kept) };
    assert(change.image().len() == 21 + page.size);
    payload::law_payload_round_trips(change);
    let append = sink.queue.next_append(sink.config, model::image_record_len(page));
    let made = RecordView {
        lsn: append.start_lsn,
        prev_lsn: sink.queue.prev,
        tx_id,
        kind: WalRecordKind::PageImage,
        payload: data,
    };
    record::law_record_round_trips(made);
    let after = t.record(id, tx_id).0;
    let queued = after.log->0.queue.pending.last();
    assert(queued.encoded == made.frame());
}

/// A page that is put back stands in its place, and the other pages are as before.
pub proof fn law_page_is_put_back(pool: PoolView, page: PageView, id: PageId)
    requires
        page.page_id.0 > 0,
    ensures
        pool.written(page).has(page.page_id),
        pool.written(page).frames[page.page_id.0 - 1].page == page,
        pool.written(page).page_size == pool.page_size,
        pool.written(page).frames.len() == if pool.frames.len() < page.page_id.0 {
            page.page_id.0 as nat
        } else {
            pool.frames.len()
        },
        pool.has(id) && id != page.page_id ==> pool.written(page).has(id) && pool.written(page).frames[id.0 - 1]
            == pool.frames[id.0 - 1],
{
    lemma_stretched(pool, page.page_id.0 as nat);
}

proof fn lemma_stretched(pool: PoolView, n: nat)
    requires
        n <= u64::MAX,
    ensures
        pool.stretched(n).page_size == pool.page_size,
        pool.stretched(n).frames.len() == if pool.frames.len() < n {
            n
        } else {
            pool.frames.len()
        },
        forall|i: int| 0 <= i < pool.frames.len() ==> #[trigger] pool.stretched(n).frames[i] == pool.frames[i],
    decreases n - pool.frames.len(),
{
    if pool.frames.len() < n {
        lemma_stretched(pool.grown(PageKind::Heap, RelId(0)), n);
    }
}

/// Whether putting back what has been queued since `base` gives the pages of `now`, but for those that
/// are being changed.
spec fn recoverable(base: IndexView, now: IndexView, changing: Set<PageId>) -> bool {
    &&& base.log is Some
    &&& now.log is Some
    &&& in_place(now.pool)
    &&& now.pool.page_size == base.pool.page_size
    &&& now.pool.page_size <= MAX_PAGE_SIZE
    &&& now.meta_page_id == base.meta_page_id
    &&& now.desc == base.desc
    &&& base.log->0.queue.pending.len() <= now.log->0.queue.pending.len()
    &&& now.log->0.queue.pending.take(base.log->0.queue.pending.len() as int) == base.log->0.queue.pending
    &&& covered(redone(base.pool, queued_since(base, now)), now.pool, changing)
}

/// What has been queued since `base`.
pub open spec fn queued_since(base: IndexView, now: IndexView) -> Seq<QueuedView> {
    now.log->0.queue.pending.skip(base.log->0.queue.pending.len() as int)
}

/// Whether pages that were put back say what the pages of a pool say, but for those that are being
/// changed.
pub open spec fn covered(back: PoolView, pool: PoolView, changing: Set<PageId>) -> bool {
    &&& back.page_size == pool.page_size
    &&& back.frames.len() <= pool.frames.len()
    &&& forall|id: PageId|
        #![trigger pool.has(id)]
        #![trigger back.has(id)]
        pool.has(id) && !changing.contains(id) ==> back.has(id) && same_content(
            back.frames[id.0 - 1].page,
            pool.frames[id.0 - 1].page,
        )
}

proof fn lemma_start(t: IndexView)
    requires
        t.log is Some,
        in_place(t.pool),
        t.pool.page_size <= MAX_PAGE_SIZE,
    ensures
        recoverable(t, t, Set::empty()),
{
    let pending = t.log->0.queue.pending;
    assert(pending.take(pending.len() as int) =~= pending);
    assert(queued_since(t, t) =~= Seq::empty());
}

proof fn lemma_filled_fits(p: PageView, cells: Seq<Seq<u8>>)
    requires
        p.wf(),
        node::filled(p, cells).1 is Ok,
    ensures
        node::filled(p, cells).0.wf(),
        node::filled(p, cells).0.page_id == p.page_id,
        node::filled(p, cells).0.size == p.size,
    decreases cells.len(),
{
    if cells.len() > 0 {
        lemma_filled_fits(p, cells.drop_last());
        let q = node::filled(p, cells.drop_last()).0;
        assert(q.with_cell(cells.last()).cells.drop_last() =~= q.cells);
    }
}

proof fn lemma_rewritten_fits(p: PageView, leaf: bool, h: HeaderView, es: Seq<EntryView>)
    requires
        p.size <= MAX_PAGE_SIZE,
        node::rewritten(p, leaf, h, es).1 is Ok,
    ensures
        node::rewritten(p, leaf, h, es).0.wf(),
        node::rewritten(p, leaf, h, es).0.page_id == p.page_id,
        node::rewritten(p, leaf, h, es).0.size == p.size,
{
    let blank = p.blank(
        node::node_page_kind(leaf),
        p.page_id,
        p.rel_id,
        crate::format::PageGeneration(1),
        INDEX_SPECIAL_LEN as nat,
    );
    let headed = PageView { special: h.special(), ..blank };
    node::lemma_special_len(h);
    lemma_filled_fits(headed, node::cells_of(es, leaf));
}

/// Other contents for a page: only that page is being changed.
proof fn lemma_put_step(base: IndexView, now: IndexView, changing: Set<PageId>, at: PageId, page: PageView)
    requires
        recoverable(base, now, changing),
        now.pool.has(at),
        page.wf(),
        page.page_id == at,
        page.size == now.pool.page_size,
    ensures
        recoverable(base, now.with_pool(now.pool.put(at, page)), changing.insert(at)),
{
    let next = now.with_pool(now.pool.put(at, page));
    let back = redone(base.pool, queued_since(base, now));
    assert(queued_since(base, next) == queued_since(base, now));
    assert forall|id: PageId|
        #![trigger next.pool.has(id)]
        #![trigger back.has(id)]
        next.pool.has(id) && !changing.insert(at).contains(id) implies back.has(id) && same_content(
        back.frames[id.0 - 1].page,
        next.pool.frames[id.0 - 1].page,
    ) by {
        assert(now.pool.has(id));
        assert(next.pool.frames[id.0 - 1] == now.pool.frames[id.0 - 1]);
    }
    assert forall|i: int| 0 <= i < next.pool.frames.len() implies (#[trigger] next.pool.frames[i]).page.wf()
        && next.pool.frames[i].page.page_id.0 == i + 1 && next.pool.frames[i].page.size == next.pool.page_size by {
        if i != at.0 - 1 {
            assert(next.pool.frames[i] == now.pool.frames[i]);
        }
    }
}

proof fn lemma_rewrite_step(
    base: IndexView,
    now: IndexView,
    changing: Set<PageId>,
    at: PageId,
    leaf: bool,
    h: HeaderView,
    es: Seq<EntryView>,
)
    requires
        recoverable(base, now, changing),
        now.pool.has(at),
        now.rewrite(at, leaf, h, es).1 is Ok,
    ensures
        recoverable(base, now.rewrite(at, leaf, h, es).0, changing.insert(at)),
        now.rewrite(at, leaf, h, es).0.pool.frames.len() == now.pool.frames.len(),
{
    let page = now.pool.frames[at.0 - 1].page;
    lemma_rewritten_fits(page, leaf, h, es);
    lemma_put_step(base, now, changing, at, node::rewritten(page, leaf, h, es).0);
}

/// One more page: it is being changed.
proof fn lemma_grow_step(base: IndexView, now: IndexView, changing: Set<PageId>, kind: PageKind, rel_id: RelId)
    requires
        recoverable(base, now, changing),
        now.pool.can_grow(),
        now.pool.frames.len() > 0,
    ensures
        recoverable(base, now.with_pool(now.pool.grown(kind, rel_id)), changing.insert(now.pool.next_id())),
        now.pool.grown(kind, rel_id).has(now.pool.next_id()),
        now.pool.grown(kind, rel_id).frames.len() == now.pool.frames.len() + 1,
{
    let next = now.with_pool(now.pool.grown(kind, rel_id));
    let fresh = now.pool.next_id();
    assert(now.pool.frames[0].page.wf());
    let back = redone(base.pool, queued_since(base, now));
    assert(queued_since(base, next) == queued_since(base, now));
    assert forall|id: PageId|
        #![trigger next.pool.has(id)]
        #![trigger back.has(id)]
        next.pool.has(id) && !changing.insert(fresh).contains(id) implies back.has(id) && same_content(
        back.frames[id.0 - 1].page,
        next.pool.frames[id.0 - 1].page,
    ) by {
        assert(now.pool.has(id));
        assert(next.pool.frames[id.0 - 1] == now.pool.frames[id.0 - 1]);
    }
    assert forall|i: int| 0 <= i < next.pool.frames.len() implies (#[trigger] next.pool.frames[i]).page.wf()
        && next.pool.frames[i].page.page_id.0 == i + 1 && next.pool.frames[i].page.size == next.pool.page_size by {
        if i < now.pool.frames.len() {
            assert(next.pool.frames[i] == now.pool.frames[i]);
        } else {
            assert(page::cells_len(Seq::empty()) == 0);
        }
    }
}

/// A page whose change has been logged is no longer being changed.
#[verifier::spinoff_prover]
proof fn lemma_record_step(base: IndexView, now: IndexView, changing: Set<PageId>, at: PageId, tx_id: TxId)
    requires
        recoverable(base, now, changing),
        now.pool.has(at),
        tx_id != TxId(0),
        now.record(at, tx_id).1 is Ok,
    ensures
        recoverable(base, now.record(at, tx_id).0, changing.remove(at)),
        now.record(at, tx_id).0.pool.frames.len() == now.pool.frames.len(),
{
    assert(now.pool.frames[at.0 - 1].page.page_id.0 == at.0);
    law_changed_page_is_logged(now, at, tx_id);
    let next = now.record(at, tx_id).0;
    let n = base.log->0.queue.pending.len() as int;
    let was = now.log->0.queue.pending;
    let is = next.log->0.queue.pending;
    let more = queued_since(base, now);
    assert(is.take(n) =~= was.take(n));
    assert(queued_since(base, next) =~= more.push(is.last()));
    assert(more.push(is.last()).drop_last() =~= more);
    let before = redone(base.pool, more);
    let page = now.pool.frames[at.0 - 1].page;
    let kept = PageView { page_lsn: Lsn(0), ..page };
    let back = redone(base.pool, queued_since(base, next));
    assert(back == before.written(kept));
    law_page_is_put_back(before, kept, at);
    assert forall|id: PageId|
        #![trigger next.pool.has(id)]
        #![trigger back.has(id)]
        next.pool.has(id) && !changing.remove(at).contains(id) implies back.has(id) && same_content(
        back.frames[id.0 - 1].page,
        next.pool.frames[id.0 - 1].page,
    ) by {
        if id != at {
            assert(now.pool.has(id));
            law_page_is_put_back(before, kept, id);
            assert(next.pool.frames[id.0 - 1] == now.pool.frames[id.0 - 1]);
        }
    }
    assert forall|i: int| 0 <= i < next.pool.frames.len() implies (#[trigger] next.pool.frames[i]).page.wf()
        && next.pool.frames[i].page.page_id.0 == i + 1 && next.pool.frames[i].page.size == next.pool.page_size by {
        assert(next.pool.frames[i].page == now.pool.frames[i].page);
    }
}

/// A node that is written and logged.
proof fn lemma_write_step(
    base: IndexView,
    now: IndexView,
    at: PageId,
    leaf: bool,
    h: HeaderView,
    es: Seq<EntryView>,
    tx_id: TxId,
)
    requires
        recoverable(base, now, Set::empty()),
        now.pool.has(at),
        tx_id != TxId(0),
        now.rewrite(at, leaf, h, es).1 is Ok,
        now.rewrite(at, leaf, h, es).0.record(at, tx_id).1 is Ok,
    ensures
        recoverable(base, now.rewrite(at, leaf, h, es).0.record(at, tx_id).0, Set::empty()),
{
    lemma_rewrite_step(base, now, Set::empty(), at, leaf, h, es);
    let w = now.rewrite(at, leaf, h, es).0;
    let changing = Set::empty().insert(at);
    lemma_record_step(base, w, changing, at, tx_id);
    assert(changing.remove(at) =~= Set::empty());
}

/// A node that is split in two, both halves of which are written and logged.
proof fn lemma_split_step(
    base: IndexView,
    now: IndexView,
    at: PageId,
    leaf: bool,
    kind: PageKind,
    h1: HeaderView,
    left: Seq<EntryView>,
    h2: HeaderView,
    right: Seq<EntryView>,
    tx_id: TxId,
)
    requires
        recoverable(base, now, Set::empty()),
        now.pool.has(at),
        now.pool.can_grow(),
        tx_id != TxId(0),
        ({
            let id = now.pool.next_id();
            let grown = now.with_pool(now.pool.grown(kind, now.desc.rel_id));
            let (one, r1) = grown.rewrite(at, leaf, h1, left);
            let (two, r2) = one.rewrite(id, leaf, h2, right);
            r1 is Ok && r2 is Ok && two.record_both(at, id, tx_id).1 is Ok
        }),
    ensures
        ({
            let id = now.pool.next_id();
            let grown = now.with_pool(now.pool.grown(kind, now.desc.rel_id));
            let one = grown.rewrite(at, leaf, h1, left).0;
            let two = one.rewrite(id, leaf, h2, right).0;
            recoverable(base, two.record_both(at, id, tx_id).0, Set::empty())
        }),
{
    let id = now.pool.next_id();
    let grown = now.with_pool(now.pool.grown(kind, now.desc.rel_id));
    lemma_grow_step(base, now, Set::empty(), kind, now.desc.rel_id);
    let c0 = Set::empty().insert(id);
    lemma_rewrite_step(base, grown, c0, at, leaf, h1, left);
    let one = grown.rewrite(at, leaf, h1, left).0;
    let c1 = c0.insert(at);
    lemma_rewrite_step(base, one, c1, id, leaf, h2, right);
    let two = one.rewrite(id, leaf, h2, right).0;
    let c2 = c1.insert(id);
    lemma_record_step(base, two, c2, at, tx_id);
    let three = two.record(at, tx_id).0;
    let c3 = c2.remove(at);
    lemma_record_step(base, three, c3, id, tx_id);
    assert(c3.remove(id) =~= Set::empty());
}

/// The meta page that is written and logged.
proof fn lemma_root_step(base: IndexView, now: IndexView, root: PageId, level: u16, tx_id: TxId)
    requires
        recoverable(base, now, Set::empty()),
        tx_id != TxId(0),
        now.meta() is Ok,
        now.set_root(root, level, tx_id).1 is Ok,
    ensures
        recoverable(base, now.set_root(root, level, tx_id).0, Set::empty()),
{
    let at = now.meta_page_id;
    let meta = now.meta()->Ok_0;
    let page = now.pool.frames[at.0 - 1].page;
    let next = MetaHeader { root_page_id: root, root_level: level, ..meta };
    let special = next.special(page.special.len() as int);
    node::law_meta_round_trips(next, page.special.len() as int);
    lemma_put_step(base, now, Set::empty(), at, PageView { special, ..page });
    let written = now.with_pool(now.pool.put(at, PageView { special, ..page }));
    let changing = Set::empty().insert(at);
    lemma_record_step(base, written, changing, at, tx_id);
    assert(changing.remove(at) =~= Set::empty());
}

proof fn lemma_new_root_step(
    base: IndexView,
    now: IndexView,
    index_id: IndexId,
    left: PageId,
    right: PageId,
    separator: Seq<u8>,
    level: u16,
    tx_id: TxId,
)
    requires
        recoverable(base, now, Set::empty()),
        tx_id != TxId(0),
        now.pool.frames.len() > 0,
        now.new_root(index_id, left, right, separator, level, tx_id).1 is Ok,
    ensures
        recoverable(base, now.new_root(index_id, left, right, separator, level, tx_id).0, Set::empty()),
{
    let root = now.pool.next_id();
    let grown = now.with_pool(now.pool.grown(PageKind::BtreeInternal, now.desc.rel_id));
    let h = HeaderView {
        kind: PAGE_INTERNAL_KIND,
        level,
        index_id,
        left: Some(left),
        right: None,
        high_key: Seq::empty(),
    };
    let es = seq![EntryView::Internal { separator, child: right }];
    lemma_grow_step(base, now, Set::empty(), PageKind::BtreeInternal, now.desc.rel_id);
    let c0 = Set::empty().insert(root);
    lemma_rewrite_step(base, grown, c0, root, false, h, es);
    let written = grown.rewrite(root, false, h, es).0;
    let c1 = c0.insert(root);
    lemma_record_step(base, written, c1, root, tx_id);
    assert(c1.remove(root) =~= Set::empty());
    lemma_root_step(base, written.record(root, tx_id).0, root, level, tx_id);
}

#[verifier::spinoff_prover]
proof fn lemma_propagated_step(
    base: IndexView,
    now: IndexView,
    index_id: IndexId,
    ancestors: Seq<PageId>,
    left: PageId,
    right: PageId,
    separator: Seq<u8>,
    level: u16,
    tx_id: TxId,
)
    requires
        recoverable(base, now, Set::empty()),
        tx_id != TxId(0),
        now.pool.frames.len() > 0,
        now.propagated(index_id, ancestors, left, right, separator, level, tx_id).1 is Ok,
    ensures
        recoverable(
            base,
            now.propagated(index_id, ancestors, left, right, separator, level, tx_id).0,
            Set::empty(),
        ),
    decreases ancestors.len(),
{
    if ancestors.len() == 0 {
        lemma_new_root_step(base, now, index_id, left, right, separator, level, tx_id);
    } else {
        let parent = ancestors.last();
        let h = now.header(parent)->Ok_0;
        let es = now.entries(parent)->Ok_0;
        let all = entries::stable_sorted(es.push(EntryView::Internal { separator, child: right }));
        if entries::required_len(all) <= IndexView::capacity(now.pool.frames[parent.0 - 1].page) {
            lemma_write_step(base, now, parent, false, HeaderView { index_id, ..h }, all, tx_id);
        } else {
            let (split, r) = now.split_internal(index_id, parent, h, all, tx_id);
            let (id, next_separator) = r->Ok_0;
            let n = all.len() as int / 2;
            let a = all.subrange(0, n);
            let b = all.subrange(n, all.len() as int);
            lemma_split_step(
                base,
                now,
                parent,
                false,
                PageKind::BtreeInternal,
                HeaderView { index_id, right: Some(id), high_key: next_separator, ..h },
                a,
                HeaderView { index_id, left: Some(b[0]->child), ..h },
                b,
                tx_id,
            );
            assert(split.pool.frames.len() > 0);
            lemma_propagated_step(
                base,
                split,
                index_id,
                ancestors.drop_last(),
                parent,
                id,
                next_separator,
                if h.level == u16::MAX {
                    h.level
                } else {
                    (h.level + 1) as u16
                },
                tx_id,
            );
        }
    }
}

#[verifier::spinoff_prover]
proof fn lemma_split_leaf_step(base: IndexView, ancestors: Seq<PageId>, leaf: PageId, entry: EntryView, tx_id: TxId)
    requires
        recoverable(base, base, Set::empty()),
        tx_id != TxId(0),
        base.split_leaf(ancestors, leaf, entry, tx_id).1 is Ok,
    ensures
        recoverable(base, base.split_leaf(ancestors, leaf, entry, tx_id).0, Set::empty()),
{
    let es = base.entries(leaf)->Ok_0;
    let h = base.header(leaf)->Ok_0;
    let all = entries::stable_sorted(es.push(entry));
    let n = entries::leaf_split(all);
    let left = all.subrange(0, n);
    let right = all.subrange(n, all.len() as int);
    let separator = model::leaf_separator(left, right);
    let id = base.pool.next_id();
    let node_header = HeaderView { kind: PAGE_LEAF_KIND, level: 0, index_id: base.desc.index_id, ..h };
    let h1 = HeaderView { right: Some(id), high_key: separator, ..node_header };
    let h2 = HeaderView { left: Some(leaf), ..node_header };
    lemma_split_step(base, base, leaf, true, PageKind::BtreeLeaf, h1, left, h2, right, tx_id);
    let grown = base.with_pool(base.pool.grown(PageKind::BtreeLeaf, base.desc.rel_id));
    let one = grown.rewrite(leaf, true, h1, left).0;
    let two = one.rewrite(id, true, h2, right).0;
    let three = two.record_both(leaf, id, tx_id).0;
    assert(three.pool.frames.len() > 0);
    lemma_propagated_step(base, three, three.meta()->Ok_0.index_id, ancestors, leaf, id, separator, 1, tx_id);
}

/// What is put back of the pages of an index: everything that was queued since then gives every page as
/// it stands now.
pub open spec fn put_back(base: IndexView, now: IndexView) -> IndexView {
    now.with_pool(redone(base.pool, queued_since(base, now)))
}

/// What being able to put everything back means.
proof fn lemma_recoverable(t: IndexView, t2: IndexView)
    requires
        recoverable(t, t2, Set::empty()),
    ensures
        t2.log is Some,
        t.log->0.queue.pending + queued_since(t, t2) == t2.log->0.queue.pending,
        in_place(t2.pool),
        covered(put_back(t, t2).pool, t2.pool, Set::empty()),
{
    assert(t.log->0.queue.pending + queued_since(t, t2) =~= t2.log->0.queue.pending);
}

/// An entry that is put on a leaf with room.
proof fn lemma_leaf_step(t: IndexView, leaf: PageId, h: HeaderView, es: Seq<EntryView>, tx_id: TxId)
    requires
        recoverable(t, t, Set::empty()),
        t.pool.has(leaf),
        tx_id != TxId(0),
        t.rewrite_leaf(leaf, h, es, tx_id).1 is Ok,
    ensures
        recoverable(t, t.rewrite_leaf(leaf, h, es, tx_id).0, Set::empty()),
{
    let h2 = HeaderView { kind: PAGE_LEAF_KIND, level: 0, index_id: t.desc.index_id, ..h };
    lemma_write_step(t, t, leaf, true, h2, es, tx_id);
}

/// Everything that an insert changes can be put back: the records that it queues, read back and put
/// back on the pages from before, give all pages as they stand after it, however many were split.
pub proof fn law_insert_is_recovered(t: IndexView, tx_id: TxId, logical: Seq<u8>, row: IndexRowRef)
    requires
        t.log is Some,
        tx_id != TxId(0),
        in_place(t.pool),
        t.pool.page_size <= MAX_PAGE_SIZE,
        t.inserted(tx_id, logical, row).1 is Ok,
    ensures
        ({
            let t2 = t.inserted(tx_id, logical, row).0;
            &&& t2.log is Some
            &&& t.log->0.queue.pending + queued_since(t, t2) == t2.log->0.queue.pending
            &&& in_place(t2.pool)
            &&& covered(put_back(t, t2).pool, t2.pool, Set::empty())
        }),
{
    lemma_start(t);
    let entry = IndexView::new_entry(logical, row, tx_id);
    let path = t.path(entry.sort_key())->Ok_0;
    let leaf = path.last();
    let h = t.header(leaf)->Ok_0;
    let es = t.entries(leaf)->Ok_0;
    let all = es.insert(entries::lower_bound(es, entry), entry);
    let t2 = t.inserted(tx_id, logical, row).0;
    if entries::required_len(all) > IndexView::capacity(t.pool.frames[leaf.0 - 1].page) {
        assert(t.inserted(tx_id, logical, row) == t.split_leaf(path.drop_last(), leaf, entry, tx_id));
        lemma_split_leaf_step(t, path.drop_last(), leaf, entry, tx_id);
    } else {
        assert(t.inserted(tx_id, logical, row) == t.rewrite_leaf(leaf, h, all, tx_id));
        lemma_leaf_step(t, leaf, h, all, tx_id);
    }
    lemma_recoverable(t, t2);
}

proof fn lemma_mark_step(
    t: IndexView,
    leaf: PageId,
    tx_id: TxId,
    logical: Seq<u8>,
    row: IndexRowRef,
    reader: Reader,
    limit: nat,
)
    requires
        recoverable(t, t, Set::empty()),
        tx_id != TxId(0),
        t.marked_from(leaf, tx_id, logical, row, reader, limit).1 is Ok,
    ensures
        recoverable(t, t.marked_from(leaf, tx_id, logical, row, reader, limit).0, Set::empty()),
    decreases limit,
{
    let h = t.header(leaf)->Ok_0;
    let es = t.entries(leaf)->Ok_0;
    let pos = model::entry_pos(es, logical, row, 0);
    if pos < es.len() {
        if !model::mark_stands(es[pos]->delete_tx, reader) {
            lemma_leaf_step(t, leaf, h, es.update(pos, model::marked(es[pos], tx_id)), tx_id);
        }
    } else if h.right is Some && exists|i: int| 0 <= i < es.len() && model::has_key(#[trigger] es[i], logical) {
        lemma_mark_step(t, h.right->0, tx_id, logical, row, reader, (limit - 1) as nat);
    }
}

/// Everything that a delete mark changes can be put back: the record that it queues, read back and put
/// back on the pages from before, gives all pages as they stand after it.
pub proof fn law_delete_mark_is_recovered(
    t: IndexView,
    tx_id: TxId,
    logical: Seq<u8>,
    row: IndexRowRef,
    reader: Reader,
)
    requires
        t.log is Some,
        tx_id != TxId(0),
        in_place(t.pool),
        t.pool.page_size <= MAX_PAGE_SIZE,
        t.delete_marked(tx_id, logical, row, reader).1 is Ok,
    ensures
        ({
            let t2 = t.delete_marked(tx_id, logical, row, reader).0;
            &&& t2.log is Some
            &&& t.log->0.queue.pending + queued_since(t, t2) == t2.log->0.queue.pending
            &&& in_place(t2.pool)
            &&& covered(put_back(t, t2).pool, t2.pool, Set::empty())
        }),
{
    lemma_start(t);
    let path = t.path(key::physical_key(logical, row))->Ok_0;
    lemma_mark_step(t, path.last(), tx_id, logical, row, reader, t.walk_limit());
    lemma_recoverable(t, t.delete_marked(tx_id, logical, row, reader).0);
}

/// Whether two indexes have the same pages; the log positions that they carry may differ.
spec fn same_pages(a: IndexView, b: IndexView) -> bool {
    &&& a.meta_page_id == b.meta_page_id
    &&& in_place(b.pool)
    &&& covered(a.pool, b.pool, Set::empty())
}

/// Pages that say the same hold the same node.
proof fn lemma_same_node(a: IndexView, b: IndexView, id: PageId)
    requires
        same_pages(a, b),
    ensures
        a.header(id) == b.header(id),
        a.entries(id) == b.entries(id),
        a.meta() == b.meta(),
        a.pool.has(id) == b.pool.has(id),
        a.pool.page(id) is Err ==> a.pool.page(id) == b.pool.page(id),
        a.walk_limit() == b.walk_limit(),
{
    let n = b.pool.frames.len() as int;
    if n > 0 {
        let last = b.pool.frames[n - 1].page.page_id;
        assert(b.pool.has(last));
    }
    assert(b.pool.has(id) ==> a.pool.has(id));
    assert(b.pool.has(a.meta_page_id) ==> a.pool.has(a.meta_page_id));
}

proof fn lemma_same_path(a: IndexView, b: IndexView, id: PageId, k: Seq<u8>, limit: nat)
    requires
        same_pages(a, b),
    ensures
        a.search_path(id, k, limit) == b.search_path(id, k, limit),
    decreases limit,
{
    lemma_same_node(a, b, id);
    if limit > 0 {
        if let Ok(Some(next)) = b.next_hop(id, k) {
            lemma_same_path(a, b, next, k, (limit - 1) as nat);
        }
    }
}

proof fn lemma_same_lookup(a: IndexView, b: IndexView, leaf: PageId, k: Seq<u8>, reader: Reader, limit: nat)
    requires
        same_pages(a, b),
    ensures
        a.lookup_from(leaf, k, reader, limit) == b.lookup_from(leaf, k, reader, limit),
    decreases limit,
{
    lemma_same_node(a, b, leaf);
    if limit > 0 {
        if let Ok(h) = b.header(leaf) {
            if h.right is Some {
                lemma_same_lookup(a, b, h.right->0, k, reader, (limit - 1) as nat);
            }
        }
    }
}

proof fn lemma_same_range(
    a: IndexView,
    b: IndexView,
    leaf: PageId,
    start: Seq<u8>,
    end: Seq<u8>,
    reader: Reader,
    limit: nat,
)
    requires
        same_pages(a, b),
    ensures
        a.range_from(leaf, start, end, reader, limit) == b.range_from(leaf, start, end, reader, limit),
    decreases limit,
{
    lemma_same_node(a, b, leaf);
    if limit > 0 {
        if let Ok(h) = b.header(leaf) {
            if h.right is Some {
                lemma_same_range(a, b, h.right->0, start, end, reader, (limit - 1) as nat);
            }
        }
    }
}

proof fn lemma_same_reads(a: IndexView, b: IndexView, start: Seq<u8>, end: Seq<u8>, reader: Reader)
    requires
        same_pages(a, b),
    ensures
        a.lookup(start, reader) == b.lookup(start, reader),
        a.range(start, end, reader) == b.range(start, end, reader),
{
    lemma_same_node(a, b, a.meta_page_id);
    if let Ok(meta) = b.meta() {
        lemma_same_path(a, b, meta.root_page_id, start, b.walk_limit());
        if let Ok(path) = b.path(start) {
            lemma_same_lookup(a, b, path.last(), start, reader, b.walk_limit());
            lemma_same_range(a, b, path.last(), start, end, reader, b.walk_limit());
        }
    }
}

/// After a crash, once the queued records are put back on the pages from before an insert, every reader
/// finds what they would have found after the insert.
pub proof fn law_inserted_rows_survive(
    t: IndexView,
    tx_id: TxId,
    logical: Seq<u8>,
    row: IndexRowRef,
    start: Seq<u8>,
    end: Seq<u8>,
    reader: Reader,
)
    requires
        t.log is Some,
        tx_id != TxId(0),
        in_place(t.pool),
        t.pool.page_size <= MAX_PAGE_SIZE,
        t.inserted(tx_id, logical, row).1 is Ok,
    ensures
        ({
            let t2 = t.inserted(tx_id, logical, row).0;
            &&& put_back(t, t2).lookup(start, reader) == t2.lookup(start, reader)
            &&& put_back(t, t2).range(start, end, reader) == t2.range(start, end, reader)
        }),
{
    law_insert_is_recovered(t, tx_id, logical, row);
    let t2 = t.inserted(tx_id, logical, row).0;
    lemma_same_reads(put_back(t, t2), t2, start, end, reader);
}

/// After a crash, once the queued records are put back on the pages from before a delete mark, every
/// reader finds what they would have found after it.
pub proof fn law_deleted_rows_stay_deleted(
    t: IndexView,
    tx_id: TxId,
    logical: Seq<u8>,
    row: IndexRowRef,
    marker: Reader,
    start: Seq<u8>,
    end: Seq<u8>,
    reader: Reader,
)
    requires
        t.log is Some,
        tx_id != TxId(0),
        in_place(t.pool),
        t.pool.page_size <= MAX_PAGE_SIZE,
        t.delete_marked(tx_id, logical, row, marker).1 is Ok,
    ensures
        ({
            let t2 = t.delete_marked(tx_id, logical, row, marker).0;
            &&& put_back(t, t2).lookup(start, reader) == t2.lookup(start, reader)
            &&& put_back(t, t2).range(start, end, reader) == t2.range(start, end, reader)
        }),
{
    law_delete_mark_is_recovered(t, tx_id, logical, row, marker);
    let t2 = t.delete_marked(tx_id, logical, row, marker).0;
    lemma_same_reads(put_back(t, t2), t2, start, end, reader);
}

/// A new index with a log does not reach the disk before its pages are in the log: whatever part of the
/// log is durable, they may not be written until their images have been queued. Without a log they may.
pub proof fn law_new_index_waits_for_its_log(
    pool: PoolView,
    desc: IndexDescriptor,
    log: Option<SinkView>,
    id: PageId,
    durable: Lsn,
)
    requires
        pool.can_grow(),
        pool.grown(PageKind::BtreeMeta, desc.rel_id).can_grow(),
        id.0 == pool.frames.len() + 1 || id.0 == pool.frames.len() + 2,
    ensures
        ({
            let t = model::created(pool, desc, log);
            &&& t.pool.frames.len() == pool.frames.len() + 2
            &&& t.meta_page_id.0 == pool.frames.len() + 1
            &&& log is Some && durable.0 < u64::MAX ==> !t.pool.frames[id.0 - 1].may_flush(durable)
            &&& log is None && durable.0 >= 1 ==> t.pool.frames[id.0 - 1].may_flush(durable)
            &&& t.log == log
            &&& t.desc == desc
        }),
{
}

/// A page whose change was logged may be written once the log is durable up to the end of the record, and
/// not before; one that was changed without a log may be written as soon as anything is durable.
pub proof fn law_changed_page_waits_for_its_record(t: IndexView, id: PageId, tx_id: TxId, durable: Lsn)
    requires
        t.pool.has(id),
        t.pool.frames[id.0 - 1].page.wf(),
        t.pool.frames[id.0 - 1].page.page_id == id,
        t.record(id, tx_id).1 is Ok,
    ensures
        ({
            let after = t.record(id, tx_id).0;
            let frame = after.pool.frames[id.0 - 1];
            &&& frame.page == t.pool.frames[id.0 - 1].page
            &&& t.log is Some && tx_id != TxId(0) ==> (frame.may_flush(durable)
                <==> after.log->0.queue.pending.last().append.end_lsn.0 <= durable.0)
            &&& t.log is None || tx_id == TxId(0) ==> (frame.may_flush(durable) <==> durable.0 >= 1) && after.log == t.log
        }),
{
    if t.log is Some && tx_id != TxId(0) {
        law_changed_page_is_logged(t, id, tx_id);
    }
}

/// A log that has failed, or that a page image does not fit, stops the change of a page: nothing is queued,
/// and the page is not taken to be logged.
pub proof fn law_failed_log_stops_changes(t: IndexView, id: PageId, tx_id: TxId)
    requires
        t.pool.has(id),
        t.pool.frames[id.0 - 1].page.wf(),
        t.log is Some,
        tx_id != TxId(0),
        t.log->0.queue.failure is Some || 61 + t.pool.frames[id.0 - 1].page.size > t.log->0.config.segment_bytes || 61
            + t.pool.frames[id.0 - 1].page.size > t.log->0.config.wal_buffer_bytes,
    ensures
        t.record(id, tx_id).1 is Err,
        t.record(id, tx_id).0 == t,
{
}

/// A new index remembers what it is an index of, and starts with an empty root on the lowest level.
pub proof fn law_new_index_remembers_its_purpose(pool: PoolView, desc: IndexDescriptor, log: Option<SinkView>)
    requires
        pool.can_grow(),
        pool.grown(PageKind::BtreeMeta, desc.rel_id).can_grow(),
        304 <= pool.page_size <= MAX_PAGE_SIZE,
    ensures
        ({
            let t = model::created(pool, desc, log);
            let root = PageId((pool.frames.len() + 2) as u64);
            &&& t.meta() == Ok::<MetaHeader, Error>(
                MetaHeader {
                    index_id: desc.index_id,
                    root_page_id: root,
                    root_level: 0,
                    uniqueness: desc.uniqueness,
                },
            )
            &&& t.pool.frames[root.0 - 1].page.rel_id == desc.rel_id
            &&& t.pool.frames[t.meta_page_id.0 - 1].page.rel_id == desc.rel_id
            &&& t.pool.frames[t.meta_page_id.0 - 1].page.kind == PageKind::BtreeMeta
            &&& t.pool.frames[root.0 - 1].page.kind == PageKind::BtreeLeaf
            &&& in_place(pool) ==> in_place(t.pool)
        }),
{
    let t = model::created(pool, desc, log);
    let meta = MetaHeader {
        index_id: desc.index_id,
        root_page_id: PageId((pool.frames.len() + 2) as u64),
        root_level: 0,
        uniqueness: desc.uniqueness,
    };
    node::law_meta_round_trips(meta, INDEX_SPECIAL_LEN as int);
    let one = pool.grown(PageKind::BtreeMeta, desc.rel_id);
    let two = one.grown(PageKind::BtreeLeaf, desc.rel_id);
    let fresh = two.frames[one.next_id().0 - 1].page;
    let h = model::empty_root_header(desc.index_id);
    node::lemma_special_len(h);
    assert(node::cells_of(Seq::<EntryView>::empty(), true) =~= Seq::empty());
    assert(node::rewritten(fresh, true, h, Seq::empty()).1 is Ok);
    lemma_rewritten_fits(fresh, true, h, Seq::empty());
    if in_place(pool) {
        assert forall|i: int| 0 <= i < t.pool.frames.len() implies (#[trigger] t.pool.frames[i]).page.wf()
            && t.pool.frames[i].page.page_id.0 == i + 1 && t.pool.frames[i].page.size == t.pool.page_size by {
            if i < pool.frames.len() {
                assert(t.pool.frames[i] == pool.frames[i]);
            }
        }
    }
}

} // verus!
