//! What the operations of an index do, as functions on the contents of its pages.
use crate::error::{Error, Result};
use crate::format::image;
use crate::format::order;
use crate::format::page::{PageKind, PageView};
use crate::format::{Csn, Lsn, PageGeneration, PageId, TxId};
use crate::index::cell::EntryView;
use crate::index::cell;
use crate::index::entries;
use crate::index::key;
use crate::index::node;
use crate::index::node::{HeaderView, MetaHeader, INDEX_SPECIAL_LEN, PAGE_INTERNAL_KIND, PAGE_LEAF_KIND};
use crate::index::{IndexDescriptor, IndexId, IndexRowRef, IndexUniqueness};
use crate::storage::buffer::PoolView;
use crate::txn::{ConcurrentTxStatus, Snapshot};
use crate::wal::coordinator::QueueView;
use crate::wal::payload::PayloadView;
use crate::wal::record::{WalRecordKind, WAL_HEADER_LEN};
use crate::wal::WalConfig;
use vstd::prelude::*;

verus! {

/// The log position that is never durable: a page that carries it cannot be written.
pub const UNLOGGED: u64 = 0xffff_ffff_ffff_ffff;

/// The log that an index writes the images of its pages to.
#[verifier::ext_equal]
pub struct SinkView {
    pub config: WalConfig,
    pub queue: QueueView,
}

/// The length of the log record of a page image.
pub open spec fn image_record_len(page: PageView) -> int {
    WAL_HEADER_LEN + 21 + page.size
}

/// The contents of an index.
#[verifier::ext_equal]
pub struct IndexView {
    pub pool: PoolView,
    pub meta_page_id: PageId,
    pub desc: IndexDescriptor,
    pub log: Option<SinkView>,
}

/// Which entries a reader takes into account.
#[derive(Clone, Copy)]
pub enum Reader<'a> {
    /// Those that nothing has marked deleted.
    Live,
    /// Those that a snapshot sees.
    At(&'a ConcurrentTxStatus, Snapshot, Option<TxId>),
}

/// The error of a walk that does not end.
pub open spec fn cycle_error() -> Error {
    Error::CorruptPage("index pages form a cycle")
}

/// Whether a reader takes an entry into account.
pub open spec fn admits(reader: Reader, entry: EntryView) -> bool {
    match reader {
        Reader::Live => entry.live(),
        Reader::At(txs, snapshot, owner) => entry.seen(*txs, snapshot, owner),
    }
}

/// The rows of the admitted entries with this key, up to the first admitted entry behind a match
/// that has another key.
pub open spec fn matching_rows(es: Seq<EntryView>, logical: Seq<u8>, reader: Reader, matched: bool) -> Seq<IndexRowRef>
    decreases es.len(),
{
    if es.len() == 0 {
        Seq::empty()
    } else {
        match es[0] {
            EntryView::Internal { .. } => matching_rows(es.drop_first(), logical, reader, matched),
            EntryView::Leaf { logical_key, row, .. } => if !admits(reader, es[0]) {
                matching_rows(es.drop_first(), logical, reader, matched)
            } else if logical_key == logical {
                seq![row] + matching_rows(es.drop_first(), logical, reader, true)
            } else if matched {
                Seq::empty()
            } else {
                matching_rows(es.drop_first(), logical, reader, matched)
            },
        }
    }
}

/// Whether the first leaf entry has a key behind `logical`.
pub open spec fn starts_past(es: Seq<EntryView>, logical: Seq<u8>) -> bool
    decreases es.len(),
{
    if es.len() == 0 {
        false
    } else {
        match es[0] {
            EntryView::Leaf { logical_key, .. } => order::bytes_lt(logical, logical_key),
            EntryView::Internal { .. } => starts_past(es.drop_first(), logical),
        }
    }
}

/// The rows of the admitted entries with a key from `start` up to but not including `end`.
pub open spec fn rows_between(es: Seq<EntryView>, start: Seq<u8>, end: Seq<u8>, reader: Reader) -> Seq<IndexRowRef>
    decreases es.len(),
{
    if es.len() == 0 {
        Seq::empty()
    } else {
        let init = rows_between(es.drop_last(), start, end, reader);
        match es.last() {
            EntryView::Leaf { logical_key, row, .. } => if admits(reader, es.last()) && order::bytes_le(
                start,
                logical_key,
            ) && order::bytes_lt(logical_key, end) {
                init.push(row)
            } else {
                init
            },
            EntryView::Internal { .. } => init,
        }
    }
}

/// Whether the last admitted leaf entry has a key at or behind `end`.
pub open spec fn ends_past(es: Seq<EntryView>, end: Seq<u8>, reader: Reader) -> bool
    decreases es.len(),
{
    if es.len() == 0 {
        false
    } else {
        match es.last() {
            EntryView::Leaf { logical_key, .. } if admits(reader, es.last()) => order::bytes_le(end, logical_key),
            _ => ends_past(es.drop_last(), end, reader),
        }
    }
}

/// A live entry and where it stands.
#[verifier::ext_equal]
pub struct FoundView {
    pub logical_key: Seq<u8>,
    pub row: IndexRowRef,
    pub leaf_page_id: PageId,
}

/// The live leaf entries of a page.
pub open spec fn live_found(es: Seq<EntryView>, at: PageId) -> Seq<FoundView>
    decreases es.len(),
{
    if es.len() == 0 {
        Seq::empty()
    } else {
        let init = live_found(es.drop_last(), at);
        match es.last() {
            EntryView::Leaf { logical_key, row, .. } if es.last().live() => init.push(
                FoundView { logical_key, row, leaf_page_id: at },
            ),
            _ => init,
        }
    }
}

/// The child to follow: that of the last separator, from the front, that is not behind `k`.
pub open spec fn child_for(es: Seq<EntryView>, k: Seq<u8>, so_far: PageId) -> PageId
    decreases es.len(),
{
    if es.len() == 0 {
        so_far
    } else {
        match es[0] {
            EntryView::Internal { separator, child } => if order::bytes_lt(k, separator) {
                so_far
            } else {
                child_for(es.drop_first(), k, child)
            },
            EntryView::Leaf { .. } => child_for(es.drop_first(), k, so_far),
        }
    }
}

/// The entries that stay when the entries that a test picks are taken out.
pub open spec fn without(es: Seq<EntryView>, gone: spec_fn(EntryView) -> bool) -> Seq<EntryView>
    decreases es.len(),
{
    if es.len() == 0 {
        Seq::empty()
    } else if gone(es.last()) {
        without(es.drop_last(), gone)
    } else {
        without(es.drop_last(), gone).push(es.last())
    }
}

/// Picks the entries that carry a delete mark.
pub open spec fn dead() -> spec_fn(EntryView) -> bool {
    |e: EntryView| !e.live()
}

/// Picks the entries that a transaction deleted that committed before `horizon`.
pub open spec fn dead_before(txs: ConcurrentTxStatus, horizon: Csn) -> spec_fn(EntryView) -> bool {
    |e: EntryView| e.dead_before(txs, horizon)
}

/// Whether an entry is the one of this key and row.
pub open spec fn is_entry_of(entry: EntryView, logical: Seq<u8>, of: IndexRowRef) -> bool {
    match entry {
        EntryView::Leaf { logical_key, row, .. } => logical_key == logical && row == of,
        EntryView::Internal { .. } => false,
    }
}

/// Whether an entry is a leaf entry of this key.
pub open spec fn has_key(entry: EntryView, logical: Seq<u8>) -> bool {
    match entry {
        EntryView::Leaf { logical_key, .. } => logical_key == logical,
        EntryView::Internal { .. } => false,
    }
}

/// The position of the first entry of this key and row, from `from` on; the length where there is
/// none.
pub open spec fn entry_pos(es: Seq<EntryView>, logical: Seq<u8>, row: IndexRowRef, from: int) -> int
    decreases es.len() - from,
{
    if from >= es.len() || from < 0 {
        es.len() as int
    } else if is_entry_of(es[from], logical, row) {
        from
    } else {
        entry_pos(es, logical, row, from + 1)
    }
}

/// Whether a delete mark hides an entry from the one that wants to delete it.
pub open spec fn mark_stands(delete_tx: TxId, reader: Reader) -> bool {
    if delete_tx == TxId(0) {
        false
    } else if delete_tx == TxId(cell::NON_TRANSACTIONAL_DELETE) {
        true
    } else {
        match reader {
            Reader::Live => true,
            Reader::At(txs, snapshot, owner) => txs.visible(delete_tx, snapshot, owner),
        }
    }
}

/// The entry with another delete mark.
pub open spec fn marked(entry: EntryView, tx_id: TxId) -> EntryView {
    match entry {
        EntryView::Leaf { logical_key, row, physical, create_tx, .. } => EntryView::Leaf {
            logical_key,
            row,
            physical,
            create_tx,
            delete_tx: tx_id,
        },
        EntryView::Internal { .. } => entry,
    }
}

/// The key that separates the halves of a leaf split.
pub open spec fn leaf_separator(left: Seq<EntryView>, right: Seq<EntryView>) -> Seq<u8> {
    if right.len() == 0 {
        Seq::empty()
    } else if left.len() > 0 && left.last().logical() == right[0].logical() {
        if right[0] is Leaf {
            right[0].sort_key()
        } else {
            Seq::empty()
        }
    } else {
        right[0].logical()
    }
}

/// What validation has found so far.
#[verifier::ext_equal]
pub struct ReportView {
    pub pages_seen: nat,
    pub leaf_pages: nat,
    pub internal_pages: nat,
    pub errors: Seq<&'static str>,
}

/// The children that entries point to.
pub open spec fn children_of(es: Seq<EntryView>) -> Seq<PageId>
    decreases es.len(),
{
    if es.len() == 0 {
        Seq::empty()
    } else {
        match es.last() {
            EntryView::Internal { child, .. } => children_of(es.drop_last()).push(child),
            EntryView::Leaf { .. } => children_of(es.drop_last()),
        }
    }
}

/// One finding for each leaf entry that sorts before the leaf entry in front of it.
pub open spec fn order_findings(es: Seq<EntryView>) -> Seq<&'static str>
    decreases es.len(),
{
    if es.len() < 2 {
        Seq::empty()
    } else {
        let init = order_findings(es.drop_last());
        if es.last() is Leaf && es[es.len() - 2] is Leaf && order::bytes_lt(
            es.last().sort_key(),
            es[es.len() - 2].sort_key(),
        ) {
            init.push("leaf entries out of order")
        } else {
            init
        }
    }
}

/// The report after looking at one node.
pub open spec fn reported(r: ReportView, h: HeaderView, es: Seq<EntryView>, level: u16, index_id: IndexId) -> ReportView {
    let e0 = if h.kind != PAGE_LEAF_KIND && h.kind != PAGE_INTERNAL_KIND {
        seq!["unexpected page kind"]
    } else {
        Seq::empty()
    };
    let e1 = if h.level != level {
        seq!["level mismatch"]
    } else {
        Seq::empty()
    };
    let e2 = if h.index_id != index_id {
        seq!["index id mismatch"]
    } else {
        Seq::empty()
    };
    let e3 = if h.kind == PAGE_INTERNAL_KIND && h.left is None {
        seq!["internal page missing leftmost child"]
    } else {
        Seq::empty()
    };
    let e4 = if h.kind == PAGE_INTERNAL_KIND && node_children(h, es).len() != es.len() + 1 {
        seq!["internal child count mismatch"]
    } else {
        Seq::empty()
    };
    ReportView {
        pages_seen: node::saturated(r.pages_seen as int + 1) as nat,
        leaf_pages: if h.kind == PAGE_LEAF_KIND {
            node::saturated(r.leaf_pages as int + 1) as nat
        } else {
            r.leaf_pages
        },
        internal_pages: if h.kind == PAGE_INTERNAL_KIND {
            node::saturated(r.internal_pages as int + 1) as nat
        } else {
            r.internal_pages
        },
        errors: r.errors + e0 + e1 + e2 + e3 + order_findings(es) + e4,
    }
}

/// The children of a node, leftmost first.
pub open spec fn node_children(h: HeaderView, es: Seq<EntryView>) -> Seq<PageId> {
    match h.left {
        Some(left) if h.kind == PAGE_INTERNAL_KIND => seq![left] + children_of(es),
        _ => children_of(es),
    }
}

/// The header of the root of an index without entries.
pub open spec fn empty_root_header(index_id: IndexId) -> HeaderView {
    HeaderView { kind: PAGE_LEAF_KIND, level: 0, index_id, left: None, right: None, high_key: Seq::empty() }
}

/// A new index on the next two pages of a pool: the meta page and an empty leaf.
pub open spec fn created(pool: PoolView, desc: IndexDescriptor, log: Option<SinkView>) -> IndexView {
    let meta_id = pool.next_id();
    let one = pool.grown(PageKind::BtreeMeta, desc.rel_id);
    let root_id = one.next_id();
    let two = one.grown(PageKind::BtreeLeaf, desc.rel_id);
    let meta = MetaHeader {
        index_id: desc.index_id,
        root_page_id: root_id,
        root_level: 0,
        uniqueness: desc.uniqueness,
    };
    let blank = two.frames[meta_id.0 - 1].page.blank(
        PageKind::BtreeMeta,
        meta_id,
        desc.rel_id,
        PageGeneration(1),
        INDEX_SPECIAL_LEN as nat,
    );
    let meta_page = PageView { special: meta.special(INDEX_SPECIAL_LEN as int), ..blank };
    let root_page = node::rewritten(
        two.frames[root_id.0 - 1].page,
        true,
        empty_root_header(desc.index_id),
        Seq::empty(),
    ).0;
    let lsn = if log is Some {
        Lsn(UNLOGGED)
    } else {
        Lsn(1)
    };
    IndexView {
        pool: two.put(meta_id, meta_page).dirtied(meta_id, lsn).put(root_id, root_page).dirtied(root_id, lsn),
        meta_page_id: meta_id,
        desc,
        log,
    }
}

impl IndexView {
    pub open spec fn header(self, id: PageId) -> Result<HeaderView> {
        match self.pool.page(id) {
            Err(e) => Err(e),
            Ok(p) => node::header_of(p),
        }
    }

    pub open spec fn entries(self, id: PageId) -> Result<Seq<EntryView>> {
        match self.pool.page(id) {
            Err(e) => Err(e),
            Ok(p) => node::entries_of(p),
        }
    }

    pub open spec fn meta(self) -> Result<MetaHeader> {
        match self.pool.page(self.meta_page_id) {
            Err(e) => Err(e),
            Ok(p) => node::parse_meta(p.special),
        }
    }

    /// How many pages a walk may visit: one that visits more has come to a page twice.
    pub open spec fn walk_limit(self) -> nat {
        self.pool.frames.len()
    }

    /// Bytes for cells and slots on a page.
    pub open spec fn capacity(page: PageView) -> int {
        if page.size >= 304 {
            page.size - 304
        } else {
            0
        }
    }

    pub open spec fn with_pool(self, pool: PoolView) -> IndexView {
        IndexView { pool, ..self }
    }

    /// Why the log refuses the image of a page; without a log or a transaction there is nothing to log.
    pub open spec fn log_refusal(self, id: PageId, tx_id: TxId) -> Option<Error> {
        if tx_id == TxId(0) || self.log is None {
            None
        } else {
            self.log->0.queue.refusal(self.log->0.config, image_record_len(self.pool.frames[id.0 - 1].page))
        }
    }

    /// The index after a change of a page by a transaction is noted. With a log and a transaction the
    /// image of the page is queued, and the page must not be written before the log is durable up to it;
    /// else it may be written at once.
    pub open spec fn recorded(self, id: PageId, tx_id: TxId) -> IndexView {
        if tx_id == TxId(0) || self.log is None {
            self.with_pool(self.pool.dirtied(id, Lsn(1)))
        } else {
            let sink = self.log->0;
            let page = self.pool.frames[id.0 - 1].page;
            let append = sink.queue.next_append(sink.config, image_record_len(page));
            IndexView {
                pool: self.pool.dirtied(id, append.end_lsn),
                log: Some(
                    SinkView {
                        queue: sink.queue.with_record(
                            sink.config,
                            WalRecordKind::PageImage,
                            tx_id,
                            Self::logged_image(id, page),
                        ),
                        ..sink
                    },
                ),
                ..self
            }
        }
    }

    /// The bytes that the log gets of a page.
    pub open spec fn logged_image(id: PageId, page: PageView) -> Seq<u8> {
        (PayloadView::PageImage {
            page_id: id,
            page_lsn: Lsn(0),
            page_bytes: image::page_image(PageView { page_lsn: Lsn(0), ..page }),
        }).image()
    }

    /// The index after a change of a page is noted, unless the log refuses it.
    pub open spec fn record(self, id: PageId, tx_id: TxId) -> (IndexView, Result<()>) {
        match self.log_refusal(id, tx_id) {
            Some(e) => (self, Err(e)),
            None => (self.recorded(id, tx_id), Ok(())),
        }
    }

    /// The index after changes of two pages are noted, one after the other, until the log refuses one.
    pub open spec fn record_both(self, a: PageId, b: PageId, tx_id: TxId) -> (IndexView, Result<()>) {
        let (one, r) = self.record(a, tx_id);
        match r {
            Err(e) => (one, Err(e)),
            Ok(_) => one.record(b, tx_id),
        }
    }

    /// The index after the node on a page is replaced, and whether that went well.
    pub open spec fn rewrite(self, id: PageId, leaf: bool, h: HeaderView, es: Seq<EntryView>) -> (
        IndexView,
        Result<()>,
    ) {
        let (page, r) = node::rewritten(self.pool.frames[id.0 - 1].page, leaf, h, es);
        (self.with_pool(self.pool.put(id, page)), r)
    }

    /// Where a search for `k` goes from a page; `None` where it ends.
    pub open spec fn next_hop(self, id: PageId, k: Seq<u8>) -> Result<Option<PageId>> {
        match self.header(id) {
            Err(e) => Err(e),
            Ok(h) => if h.high_key.len() > 0 && !order::bytes_lt(k, h.high_key) {
                Ok(h.right)
            } else if h.kind == PAGE_LEAF_KIND {
                Ok(None)
            } else {
                match h.left {
                    None => Err(Error::CorruptPage("internal page missing leftmost child")),
                    Some(left) => match self.entries(id) {
                        Err(e) => Err(e),
                        Ok(es) => Ok(Some(child_for(es, k, left))),
                    },
                }
            },
        }
    }

    /// The pages that a search for `k` visits from a page on.
    pub open spec fn search_path(self, id: PageId, k: Seq<u8>, limit: nat) -> Result<Seq<PageId>>
        decreases limit,
    {
        if limit == 0 {
            Err(cycle_error())
        } else {
            match self.next_hop(id, k) {
                Err(e) => Err(e),
                Ok(None) => Ok(seq![id]),
                Ok(Some(next)) => if next == id {
                    Ok(seq![id])
                } else {
                    match self.search_path(next, k, (limit - 1) as nat) {
                        Err(e) => Err(e),
                        Ok(rest) => Ok(seq![id] + rest),
                    }
                },
            }
        }
    }

    /// The pages that a search for `k` visits.
    pub open spec fn path(self, k: Seq<u8>) -> Result<Seq<PageId>> {
        match self.meta() {
            Err(e) => Err(e),
            Ok(meta) => self.search_path(meta.root_page_id, k, self.walk_limit()),
        }
    }

    /// The index after a new root is put above two pages.
    pub open spec fn new_root(
        self,
        index_id: IndexId,
        left: PageId,
        right: PageId,
        separator: Seq<u8>,
        level: u16,
        tx_id: TxId,
    ) -> (IndexView, Result<()>) {
        if !self.pool.can_grow() {
            (self, Err(Error::CorruptPage("page file is full")))
        } else {
            let root = self.pool.next_id();
            let grown = self.with_pool(self.pool.grown(PageKind::BtreeInternal, self.desc.rel_id));
            let h = HeaderView {
                kind: PAGE_INTERNAL_KIND,
                level,
                index_id,
                left: Some(left),
                right: None,
                high_key: Seq::empty(),
            };
            let (written, r) = grown.rewrite(
                root,
                false,
                h,
                seq![EntryView::Internal { separator, child: right }],
            );
            match r {
                Err(e) => (written, Err(e)),
                Ok(_) => {
                    let (noted, logged) = written.record(root, tx_id);
                    match logged {
                        Err(e) => (noted, Err(e)),
                        Ok(_) => noted.set_root(root, level, tx_id),
                    }
                },
            }
        }
    }

    /// The index after the meta page points to another root.
    pub open spec fn set_root(self, root: PageId, level: u16, tx_id: TxId) -> (IndexView, Result<()>) {
        match self.meta() {
            Err(e) => (self, Err(e)),
            Ok(meta) => {
                let page = self.pool.frames[self.meta_page_id.0 - 1].page;
                let next = MetaHeader { root_page_id: root, root_level: level, ..meta };
                let written = self.with_pool(
                    self.pool.put(
                        self.meta_page_id,
                        PageView { special: next.special(page.special.len() as int), ..page },
                    ),
                );
                if page.special.len() < 34 {
                    (written, Err(Error::BufferTooSmall { needed: 34, actual: page.special.len() as usize }))
                } else {
                    written.record(self.meta_page_id, tx_id)
                }
            },
        }
    }

    /// The index after an internal node is split in two, and the new page and its separator: the one
    /// that leads to the first page of the right half, so that every search for a key of the right half
    /// goes right and no other does.
    pub open spec fn split_internal(
        self,
        index_id: IndexId,
        parent: PageId,
        h: HeaderView,
        es: Seq<EntryView>,
        tx_id: TxId,
    ) -> (IndexView, Result<(PageId, Seq<u8>)>) {
        let split = es.len() as int / 2;
        let left = es.subrange(0, split);
        let right = es.subrange(split, es.len() as int);
        if !self.pool.can_grow() {
            (self, Err(Error::CorruptPage("page file is full")))
        } else {
            let id = self.pool.next_id();
            let grown = self.with_pool(self.pool.grown(PageKind::BtreeInternal, self.desc.rel_id));
            if right.len() == 0 || !(right[0] is Internal) {
                (grown, Err(Error::CorruptPage("internal split produced empty right side")))
            } else {
                let child = right[0]->child;
                let separator = right[0]->separator;
                let (one, r1) = grown.rewrite(
                    parent,
                    false,
                    HeaderView { index_id, right: Some(id), high_key: separator, ..h },
                    left,
                );
                match r1 {
                    Err(e) => (one, Err(e)),
                    Ok(_) => {
                        let (two, r2) = one.rewrite(id, false, HeaderView { index_id, left: Some(child), ..h }, right);
                        match r2 {
                            Err(e) => (two, Err(e)),
                            Ok(_) => {
                                let (three, logged) = two.record_both(parent, id, tx_id);
                                match logged {
                                    Err(e) => (three, Err(e)),
                                    Ok(_) => (three, Ok((id, separator))),
                                }
                            },
                        }
                    },
                }
            }
        }
    }

    /// The index after the ancestors of two halves of a split have learned of the right one.
    pub open spec fn propagated(
        self,
        index_id: IndexId,
        ancestors: Seq<PageId>,
        left: PageId,
        right: PageId,
        separator: Seq<u8>,
        level: u16,
        tx_id: TxId,
    ) -> (IndexView, Result<()>)
        decreases ancestors.len(),
    {
        if ancestors.len() == 0 {
            self.new_root(index_id, left, right, separator, level, tx_id)
        } else {
            let parent = ancestors.last();
            match self.header(parent) {
                Err(e) => (self, Err(e)),
                Ok(h) => match self.entries(parent) {
                    Err(e) => (self, Err(e)),
                    Ok(es) => if h.kind != PAGE_INTERNAL_KIND {
                        (self, Err(Error::CorruptPage("expected internal page")))
                    } else {
                        let all = entries::stable_sorted(es.push(EntryView::Internal { separator, child: right }));
                        if entries::required_len(all) <= Self::capacity(self.pool.frames[parent.0 - 1].page) {
                            let (written, r) = self.rewrite(parent, false, HeaderView { index_id, ..h }, all);
                            match r {
                                Err(e) => (written, Err(e)),
                                Ok(_) => written.record(parent, tx_id),
                            }
                        } else {
                            let (split, r) = self.split_internal(index_id, parent, h, all, tx_id);
                            match r {
                                Err(e) => (split, Err(e)),
                                Ok((id, next_separator)) => split.propagated(
                                    index_id,
                                    ancestors.drop_last(),
                                    parent,
                                    id,
                                    next_separator,
                                    if h.level == u16::MAX {
                                        h.level
                                    } else {
                                        (h.level + 1) as u16
                                    },
                                    tx_id,
                                ),
                            }
                        }
                    },
                },
            }
        }
    }

    /// The index after a full leaf takes one more entry by splitting.
    pub open spec fn split_leaf(self, ancestors: Seq<PageId>, leaf: PageId, entry: EntryView, tx_id: TxId) -> (
        IndexView,
        Result<()>,
    ) {
        match self.entries(leaf) {
            Err(e) => (self, Err(e)),
            Ok(es) => match self.header(leaf) {
                Err(e) => (self, Err(e)),
                Ok(h) => {
                    let all = entries::stable_sorted(es.push(entry));
                    let split = entries::leaf_split(all);
                    let left = all.subrange(0, split);
                    let right = all.subrange(split, all.len() as int);
                    let separator = leaf_separator(left, right);
                    if !self.pool.can_grow() {
                        (self, Err(Error::CorruptPage("page file is full")))
                    } else {
                        let id = self.pool.next_id();
                        let grown = self.with_pool(self.pool.grown(PageKind::BtreeLeaf, self.desc.rel_id));
                        let node_header = HeaderView {
                            kind: PAGE_LEAF_KIND,
                            level: 0,
                            index_id: self.desc.index_id,
                            ..h
                        };
                        let (one, r1) = grown.rewrite(
                            leaf,
                            true,
                            HeaderView { right: Some(id), high_key: separator, ..node_header },
                            left,
                        );
                        match r1 {
                            Err(e) => (one, Err(e)),
                            Ok(_) => {
                                let (two, r2) = one.rewrite(
                                    id,
                                    true,
                                    HeaderView { left: Some(leaf), ..node_header },
                                    right,
                                );
                                match r2 {
                                    Err(e) => (two, Err(e)),
                                    Ok(_) => {
                                        let (three, logged) = two.record_both(leaf, id, tx_id);
                                        match logged {
                                            Err(e) => (three, Err(e)),
                                            Ok(_) => match three.meta() {
                                                Err(e) => (three, Err(e)),
                                                Ok(meta) => three.propagated(
                                                    meta.index_id,
                                                    ancestors,
                                                    leaf,
                                                    id,
                                                    separator,
                                                    1,
                                                    tx_id,
                                                ),
                                            },
                                        }
                                    },
                                }
                            },
                        }
                    }
                },
            },
        }
    }

    /// The index after an entry is put on a leaf that has room for it.
    pub open spec fn rewrite_leaf(self, leaf: PageId, h: HeaderView, es: Seq<EntryView>, tx_id: TxId) -> (
        IndexView,
        Result<()>,
    ) {
        let (written, r) = self.rewrite(
            leaf,
            true,
            HeaderView { kind: PAGE_LEAF_KIND, level: 0, index_id: self.desc.index_id, ..h },
            es,
        );
        match r {
            Err(e) => (written, Err(e)),
            Ok(_) => written.record(leaf, tx_id),
        }
    }

    /// The entry that an insert adds.
    pub open spec fn new_entry(logical: Seq<u8>, row: IndexRowRef, tx_id: TxId) -> EntryView {
        EntryView::Leaf {
            logical_key: logical,
            row,
            physical: key::physical_key(logical, row),
            create_tx: tx_id,
            delete_tx: TxId(0),
        }
    }

    /// The index after an insert, and its result.
    pub open spec fn inserted(self, tx_id: TxId, logical: Seq<u8>, row: IndexRowRef) -> (IndexView, Result<()>) {
        let entry = Self::new_entry(logical, row, tx_id);
        match self.path(entry.sort_key()) {
            Err(e) => (self, Err(e)),
            Ok(path) => {
                let leaf = path.last();
                match self.header(leaf) {
                    Err(e) => (self, Err(e)),
                    Ok(h) => if h.kind != PAGE_LEAF_KIND {
                        (self, Err(Error::CorruptPage("expected leaf page")))
                    } else if h.high_key.len() > 0 && !order::bytes_lt(entry.sort_key(), h.high_key) {
                        (self, Err(cycle_error()))
                    } else {
                        match self.entries(leaf) {
                            Err(e) => (self, Err(e)),
                            Ok(es) => if entries::holds_equal(es, entry) && self.meta()->Ok_0.uniqueness
                                == IndexUniqueness::Unique {
                                (self, Err(Error::WriteConflict))
                            } else {
                                let all = es.insert(entries::lower_bound(es, entry), entry);
                                if entries::required_len(all) > Self::capacity(self.pool.frames[leaf.0 - 1].page) {
                                    self.split_leaf(path.drop_last(), leaf, entry, tx_id)
                                } else {
                                    self.rewrite_leaf(leaf, h, all, tx_id)
                                }
                            },
                        }
                    },
                }
            },
        }
    }

    /// The index after the delete mark is set on the entry of a key and row, looking for it from a
    /// leaf on, and the result.
    pub open spec fn marked_from(
        self,
        leaf: PageId,
        tx_id: TxId,
        logical: Seq<u8>,
        row: IndexRowRef,
        reader: Reader,
        limit: nat,
    ) -> (IndexView, Result<()>)
        decreases limit,
    {
        if limit == 0 {
            (self, Err(cycle_error()))
        } else {
            match self.header(leaf) {
                Err(e) => (self, Err(e)),
                Ok(h) => if h.kind != PAGE_LEAF_KIND {
                    (self, Err(Error::CorruptPage("expected leaf page")))
                } else {
                    match self.entries(leaf) {
                        Err(e) => (self, Err(e)),
                        Ok(es) => {
                            let pos = entry_pos(es, logical, row, 0);
                            if pos < es.len() {
                                if mark_stands(es[pos]->delete_tx, reader) {
                                    (self, Ok(()))
                                } else {
                                    self.rewrite_leaf(leaf, h, es.update(pos, marked(es[pos], tx_id)), tx_id)
                                }
                            } else if h.right is Some && exists|i: int|
                                0 <= i < es.len() && has_key(#[trigger] es[i], logical) {
                                self.marked_from(h.right->0, tx_id, logical, row, reader, (limit - 1) as nat)
                            } else {
                                (self, Ok(()))
                            }
                        },
                    }
                },
            }
        }
    }

    /// The index after a delete mark, and its result.
    pub open spec fn delete_marked(self, tx_id: TxId, logical: Seq<u8>, row: IndexRowRef, reader: Reader) -> (
        IndexView,
        Result<()>,
    ) {
        match self.path(key::physical_key(logical, row)) {
            Err(e) => (self, Err(e)),
            Ok(path) => self.marked_from(path.last(), tx_id, logical, row, reader, self.walk_limit()),
        }
    }

    /// The index after entries of a leaf are taken out for good, and the result.
    pub open spec fn swept(self, leaf: PageId, gone: spec_fn(EntryView) -> bool) -> (IndexView, Result<()>) {
        match self.header(leaf) {
            Err(e) => (self, Err(e)),
            Ok(h) => if h.kind != PAGE_LEAF_KIND {
                (self, Err(Error::CorruptPage("expected leaf page")))
            } else {
                match self.entries(leaf) {
                    Err(e) => (self, Err(e)),
                    Ok(es) => if without(es, gone).len() == es.len() {
                        (self, Ok(()))
                    } else {
                        let (written, r) = self.rewrite(
                            leaf,
                            true,
                            HeaderView { kind: PAGE_LEAF_KIND, level: 0, index_id: self.desc.index_id, ..h },
                            without(es, gone),
                        );
                        match r {
                            Err(e) => (written, Err(e)),
                            Ok(_) => (written.with_pool(written.pool.dirtied(leaf, Lsn(1))), Ok(())),
                        }
                    },
                }
            },
        }
    }

    /// The rows found for a key from a leaf on.
    pub open spec fn lookup_from(self, leaf: PageId, logical: Seq<u8>, reader: Reader, limit: nat) -> Result<
        Seq<IndexRowRef>,
    >
        decreases limit,
    {
        if limit == 0 {
            Err(cycle_error())
        } else {
            match self.header(leaf) {
                Err(e) => Err(e),
                Ok(h) => match self.entries(leaf) {
                    Err(e) => Err(e),
                    Ok(es) => {
                        let here = matching_rows(es, logical, reader, false);
                        match h.right {
                            Some(right) if !starts_past(es, logical) => match self.lookup_from(
                                right,
                                logical,
                                reader,
                                (limit - 1) as nat,
                            ) {
                                Err(e) => Err(e),
                                Ok(rest) => Ok(here + rest),
                            },
                            _ => Ok(here),
                        }
                    },
                },
            }
        }
    }

    /// The rows found for a key.
    pub open spec fn lookup(self, logical: Seq<u8>, reader: Reader) -> Result<Seq<IndexRowRef>> {
        match self.path(logical) {
            Err(e) => Err(e),
            Ok(path) => self.lookup_from(path.last(), logical, reader, self.walk_limit()),
        }
    }

    /// The rows found for a range of keys from a leaf on, and how many leaves were visited.
    pub open spec fn range_from(self, leaf: PageId, start: Seq<u8>, end: Seq<u8>, reader: Reader, limit: nat) -> (
        nat,
        Result<Seq<IndexRowRef>>,
    )
        decreases limit,
    {
        if limit == 0 {
            (0, Err(cycle_error()))
        } else if !self.pool.has(leaf) {
            (0, Err(self.pool.page(leaf)->Err_0))
        } else {
            match self.header(leaf) {
                Err(e) => (1, Err(e)),
                Ok(h) => match self.entries(leaf) {
                    Err(e) => (1, Err(e)),
                    Ok(es) => {
                        let here = rows_between(es, start, end, reader);
                        match h.right {
                            Some(right) if !ends_past(es, end, reader) => {
                                let (visited, r) = self.range_from(right, start, end, reader, (limit - 1) as nat);
                                (
                                    visited + 1,
                                    match r {
                                        Err(e) => Err(e),
                                        Ok(rest) => Ok(here + rest),
                                    },
                                )
                            },
                            _ => (1, Ok(here)),
                        }
                    },
                },
            }
        }
    }

    /// The rows found for a range of keys, and how many leaves were visited.
    pub open spec fn range(self, start: Seq<u8>, end: Seq<u8>, reader: Reader) -> (nat, Result<Seq<IndexRowRef>>) {
        match self.path(start) {
            Err(e) => (0, Err(e)),
            Ok(path) => self.range_from(path.last(), start, end, reader, self.walk_limit()),
        }
    }

    /// The leaf at the left end below a page.
    pub open spec fn leftmost(self, id: PageId, limit: nat) -> Result<PageId>
        decreases limit,
    {
        if limit == 0 {
            Err(cycle_error())
        } else {
            match self.header(id) {
                Err(e) => Err(e),
                Ok(h) => if h.kind == PAGE_LEAF_KIND {
                    Ok(id)
                } else if h.kind == PAGE_INTERNAL_KIND {
                    match h.left {
                        None => Err(Error::CorruptPage("internal page missing leftmost child")),
                        Some(left) => self.leftmost(left, (limit - 1) as nat),
                    }
                } else {
                    Err(Error::CorruptPage("leftmost_leaf: unexpected page kind in tree"))
                },
            }
        }
    }

    /// The live entries from a leaf on.
    pub open spec fn all_from(self, leaf: PageId, limit: nat) -> Result<Seq<FoundView>>
        decreases limit,
    {
        if limit == 0 {
            Err(cycle_error())
        } else {
            match self.header(leaf) {
                Err(e) => Err(e),
                Ok(h) => if h.kind != PAGE_LEAF_KIND {
                    Err(Error::CorruptPage("iter_all_entries: expected leaf in chain"))
                } else {
                    match self.entries(leaf) {
                        Err(e) => Err(e),
                        Ok(es) => {
                            let here = live_found(es, leaf);
                            match h.right {
                                Some(right) if right != leaf => match self.all_from(right, (limit - 1) as nat) {
                                    Err(e) => Err(e),
                                    Ok(rest) => Ok(here + rest),
                                },
                                _ => Ok(here),
                            }
                        },
                    }
                },
            }
        }
    }

    /// The live entries of the index.
    pub open spec fn all_entries(self) -> Result<Seq<FoundView>> {
        match self.meta() {
            Err(e) => Err(e),
            Ok(meta) => match self.leftmost(meta.root_page_id, self.walk_limit()) {
                Err(e) => Err(e),
                Ok(leaf) => self.all_from(leaf, self.walk_limit()),
            },
        }
    }

    /// The report after looking at a page and everything below it, and whether the walk ended well.
    pub open spec fn validated(self, id: PageId, level: u16, report: ReportView, limit: nat) -> (
        ReportView,
        Result<()>,
    )
        decreases limit, 0nat,
    {
        if limit == 0 {
            (report, Err(cycle_error()))
        } else {
            match self.header(id) {
                Err(e) => (report, Err(e)),
                Ok(h) => match self.entries(id) {
                    Err(e) => (report, Err(e)),
                    Ok(es) => self.validated_all(
                        node_children(h, es),
                        if level == 0 {
                            0
                        } else {
                            (level - 1) as u16
                        },
                        reported(report, h, es, level, self.desc.index_id),
                        (limit - 1) as nat,
                    ),
                },
            }
        }
    }

    /// The report after looking at some pages, one after the other.
    pub open spec fn validated_all(self, ids: Seq<PageId>, level: u16, report: ReportView, limit: nat) -> (
        ReportView,
        Result<()>,
    )
        decreases limit, ids.len() + 1,
    {
        if ids.len() == 0 {
            (report, Ok(()))
        } else {
            let (next, r) = self.validated(ids[0], level, report, limit);
            match r {
                Err(e) => (next, Err(e)),
                Ok(_) => self.validated_all(ids.drop_first(), level, next, limit),
            }
        }
    }

    /// The report on the whole tree.
    pub open spec fn validation(self) -> (ReportView, Result<()>) {
        let empty = ReportView { pages_seen: 0, leaf_pages: 0, internal_pages: 0, errors: Seq::empty() };
        match self.meta() {
            Err(e) => (empty, Err(e)),
            Ok(meta) => self.validated(meta.root_page_id, meta.root_level, empty, self.walk_limit()),
        }
    }
}

} // verus!
