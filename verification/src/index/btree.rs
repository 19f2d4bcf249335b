//! The index itself.
use crate::error::{Error, Result};
use crate::format::bytes;
use crate::format::image;
use crate::format::order;
use crate::format::page::{Page, PageKind, PageView};
use crate::format::{Csn, Lsn, PageGeneration, PageId, TxId};
use crate::index::cell;
use crate::index::cell::{Entry, EntryView};
use crate::index::entries;
use crate::index::key;
use crate::index::model;
use crate::index::model::{FoundView, IndexView, Reader, ReportView, SinkView, UNLOGGED};
use crate::index::node;
use crate::index::node::{
    HeaderView, MetaHeader, PageHeader, INDEX_MAGIC, INDEX_SPECIAL_LEN, PAGE_INTERNAL_KIND, PAGE_LEAF_KIND,
};
use crate::index::shape;
use crate::index::unique::{KeyHold, UniqueKeyGuard, UniqueKeyLockTable};
use crate::index::{
    IndexDescriptor, IndexEntry, IndexId, IndexRowRef, IndexStats, IndexUniqueness, IndexValidationReport,
};
use crate::storage::buffer::BufferPool;
use crate::txn::{ConcurrentTxStatus, Snapshot};
use crate::wal::coordinator::WalQueue;
use crate::wal::record::WalRecordKind;
use crate::wal::{WalConfig, WalPayload};
use vstd::prelude::*;

verus! {

/// A log for the images of pages: its settings and the queue that leads to it.
#[derive(Debug)]
pub struct PageLog {
    pub config: WalConfig,
    pub queue: WalQueue,
}

impl PageLog {
    pub open spec fn wf(self) -> bool {
        self.config.problem() is None && self.queue.wf()
    }
}

/// What an index knows of its log.
pub open spec fn sink_view(log: Option<PageLog>) -> Option<SinkView> {
    match log {
        Some(log) => Some(SinkView { config: log.config, queue: log.queue@ }),
        None => None,
    }
}

/// An index over pages in memory. The pages that a transaction changes are logged, if there is a log.
#[derive(Debug)]
pub struct BtreeIndex {
    buffer: BufferPool,
    meta_page_id: PageId,
    desc: IndexDescriptor,
    unique_locks: UniqueKeyLockTable,
    log: Option<PageLog>,
    range_scan_leaves_visited: u64,
}

/// A sequence continued by a walk that may fail.
pub open spec fn continued<T>(so_far: Seq<T>, rest: Result<Seq<T>>) -> Result<Seq<T>> {
    match rest {
        Ok(rest) => Ok(so_far + rest),
        Err(e) => Err(e),
    }
}

/// What a list of found entries says.
pub open spec fn found_views(found: Seq<IndexEntry>) -> Seq<FoundView> {
    Seq::new(
        found.len(),
        |i: int|
            FoundView {
                logical_key: found[i].logical_key@,
                row: found[i].row,
                leaf_page_id: found[i].leaf_page_id,
            },
    )
}

/// What a report says.
pub open spec fn report_view(report: IndexValidationReport) -> ReportView {
    ReportView {
        pages_seen: report.pages_seen as nat,
        leaf_pages: report.leaf_pages as nat,
        internal_pages: report.internal_pages as nat,
        errors: report.errors@,
    }
}

impl View for BtreeIndex {
    type V = IndexView;

    closed spec fn view(&self) -> IndexView {
        IndexView {
            pool: self.buffer@,
            meta_page_id: self.meta_page_id,
            desc: self.desc,
            log: sink_view(self.log),
        }
    }
}

/// Whether a reader takes an entry into account.
fn reader_admits(reader: &Reader, entry: &Entry) -> (r: bool)
    ensures
        r == model::admits(*reader, entry@),
{
    match reader {
        Reader::Live => entry.physically_live(),
        Reader::At(txs, snapshot, owner) => entry.visible(*txs, snapshot, *owner),
    }
}

/// A counter that wraps counts on by one.
proof fn lemma_counted_on(start: int, seen: int)
    requires
        0 <= start,
        0 <= seen,
    ensures
        (start + seen + 1) % 0x1_0000_0000_0000_0000 == if (start + seen) % 0x1_0000_0000_0000_0000 == u64::MAX {
            0
        } else {
            (start + seen) % 0x1_0000_0000_0000_0000 + 1
        },
{
}

impl BtreeIndex {
    pub closed spec fn wf(self) -> bool {
        self.buffer.wf() && self.unique_locks.wf() && (self.log matches Some(log) ==> log.wf())
    }

    /// What well-formedness says about the pages.
    pub proof fn lemma_wf(&self)
        requires
            self.wf(),
        ensures
            shape::pages_fit(self@),
    {
        self.buffer.lemma_wf();
    }

    /// How many leaves range scans have visited, modulo two to the power of 64.
    pub closed spec fn leaves_visited(self) -> u64 {
        self.range_scan_leaves_visited
    }

    /// The reservations of unique keys.
    pub closed spec fn locks(self) -> UniqueKeyLockTable {
        self.unique_locks
    }

    fn meta(&self) -> (r: Result<MetaHeader>)
        ensures
            r == self@.meta(),
    {
        node::read_meta(self.buffer.pin(self.meta_page_id)?)
    }

    fn read_header(&self, id: PageId) -> (r: Result<PageHeader>)
        ensures
            match r {
                Ok(h) => self@.header(id) == Ok::<HeaderView, Error>(h@),
                Err(e) => self@.header(id) == Err::<HeaderView, Error>(e),
            },
    {
        node::read_page_header(self.buffer.pin(id)?)
    }

    fn read_entries(&self, id: PageId) -> (r: Result<Vec<Entry>>)
        ensures
            match r {
                Ok(es) => self@.entries(id) == Ok::<Seq<EntryView>, Error>(cell::entry_views(es@)),
                Err(e) => self@.entries(id) == Err::<Seq<EntryView>, Error>(e),
            },
    {
        node::read_entries(self.buffer.pin(id)?)
    }

    /// The child to follow for a key.
    fn choose_child(es: &Vec<Entry>, k: &[u8], left: PageId) -> (child: PageId)
        ensures
            child == model::child_for(cell::entry_views(es@), k@, left),
    {
        let ghost all = cell::entry_views(es@);
        let mut chosen = left;
        let mut i: usize = 0;
        proof {
            assert(all.subrange(0, all.len() as int) =~= all);
        }
        while i < es.len()
            invariant
                i <= es@.len(),
                all == cell::entry_views(es@),
                model::child_for(all, k@, left) == model::child_for(
                    all.subrange(i as int, all.len() as int),
                    k@,
                    chosen,
                ),
            decreases es@.len() - i,
        {
            proof {
                assert(all.subrange(i as int, all.len() as int).drop_first() =~= all.subrange(
                    i + 1,
                    all.len() as int,
                ));
            }
            if let Entry::Internal { separator, child } = &es[i] {
                if order::bytes_less(k, separator.as_slice()) {
                    return chosen;
                }
                chosen = *child;
            }
            i = i + 1;
        }
        chosen
    }

    /// Where a search goes from a page.
    fn next_hop(&self, id: PageId, k: &[u8]) -> (r: Result<Option<PageId>>)
        ensures
            r == self@.next_hop(id, k@),
    {
        let header = self.read_header(id)?;
        if header.high_key.len() > 0 && !order::bytes_less(k, header.high_key.as_slice()) {
            return Ok(header.right);
        }
        if header.kind == PAGE_LEAF_KIND {
            return Ok(None);
        }
        match header.left {
            None => Err(Error::CorruptPage("internal page missing leftmost child")),
            Some(left) => {
                let es = self.read_entries(id)?;
                Ok(Some(Self::choose_child(&es, k, left)))
            },
        }
    }

    /// The pages that a search visits, from the root to a leaf.
    fn find_leaf_path(&self, root: PageId, k: &[u8]) -> (r: Result<Vec<PageId>>)
        ensures
            match r {
                Ok(path) => self@.search_path(root, k@, self@.walk_limit()) == Ok::<Seq<PageId>, Error>(path@)
                    && path@.len() > 0,
                Err(e) => self@.search_path(root, k@, self@.walk_limit()) == Err::<Seq<PageId>, Error>(e),
            },
    {
        let mut path: Vec<PageId> = Vec::new();
        let mut id = root;
        let mut left: usize = self.buffer.page_count();
        proof {
            let whole = self@.search_path(root, k@, left as nat);
            assert(whole matches Ok(p) ==> path@ + p =~= p);
        }
        while left > 0
            invariant
                self@.search_path(root, k@, self@.walk_limit()) == continued(
                    path@,
                    self@.search_path(id, k@, left as nat),
                ),
            decreases left,
        {
            let ghost before = path@;
            path.push(id);
            match self.next_hop(id, k)? {
                Some(next) => {
                    if next == id {
                        proof {
                            assert(before + seq![id] =~= path@);
                        }
                        return Ok(path);
                    }
                    proof {
                        let rest = self@.search_path(next, k@, (left - 1) as nat);
                        assert(rest matches Ok(p) ==> before + (seq![id] + p) =~= path@ + p);
                    }
                    id = next;
                    left = left - 1;
                },
                None => {
                    proof {
                        assert(before + seq![id] =~= path@);
                    }
                    return Ok(path);
                },
            }
        }
        Err(Error::CorruptPage("index pages form a cycle"))
    }

    /// The leaf that a search from the root ends at.
    fn find_leaf(&self, k: &[u8]) -> (r: Result<PageId>)
        ensures
            match r {
                Ok(id) => self@.path(k@) is Ok && id == self@.path(k@)->Ok_0.last(),
                Err(e) => self@.path(k@) == Err::<Seq<PageId>, Error>(e),
            },
    {
        let root = self.meta()?.root_page_id;
        let path = self.find_leaf_path(root, k)?;
        Ok(path[path.len() - 1])
    }

    /// The rows of a leaf for a key, and whether the leaf starts behind the key.
    fn scan_leaf(es: &Vec<Entry>, logical_key: &[u8], reader: &Reader, out: &mut Vec<IndexRowRef>) -> (past: bool)
        ensures
            final(out)@ == old(out)@ + model::matching_rows(cell::entry_views(es@), logical_key@, *reader, false),
            past == model::starts_past(cell::entry_views(es@), logical_key@),
    {
        let ghost all = cell::entry_views(es@);
        let ghost n = all.len() as int;
        let mut past = false;
        let mut i: usize = 0;
        proof {
            assert(all.subrange(0, n) =~= all);
        }
        while i < es.len() && !es[i].is_leaf()
            invariant
                i <= es@.len(),
                n == all.len(),
                all == cell::entry_views(es@),
                model::starts_past(all, logical_key@) == model::starts_past(all.subrange(i as int, n), logical_key@),
            decreases es@.len() - i,
        {
            proof {
                assert(all.subrange(i as int, n).drop_first() =~= all.subrange(i + 1, n));
            }
            i = i + 1;
        }
        if i < es.len() {
            past = order::bytes_less(logical_key, es[i].logical_key());
        }
        let mut matched = false;
        let mut i: usize = 0;
        let ghost start = out@;
        proof {
            assert(start + model::matching_rows(all, logical_key@, *reader, false) =~= out@ + model::matching_rows(
                all.subrange(0, n),
                logical_key@,
                *reader,
                matched,
            ));
        }
        while i < es.len()
            invariant
                i <= es@.len(),
                n == all.len(),
                all == cell::entry_views(es@),
                start == old(out)@,
                past == model::starts_past(all, logical_key@),
                start + model::matching_rows(all, logical_key@, *reader, false) == out@ + model::matching_rows(
                    all.subrange(i as int, n),
                    logical_key@,
                    *reader,
                    matched,
                ),
            decreases es@.len() - i,
        {
            let ghost before = out@;
            let ghost rest = all.subrange(i as int, n);
            proof {
                assert(rest.drop_first() =~= all.subrange(i + 1, n));
                assert(rest[0] == es@[i as int]@);
            }
            if let Entry::Leaf { logical_key: found, row, .. } = &es[i] {
                if reader_admits(reader, &es[i]) {
                    if order::bytes_equal(found.as_slice(), logical_key) {
                        out.push(*row);
                        matched = true;
                        proof {
                            let more = model::matching_rows(rest.drop_first(), logical_key@, *reader, true);
                            assert(before + (seq![*row] + more) =~= out@ + more);
                        }
                    } else if matched {
                        proof {
                            assert(out@ + Seq::<IndexRowRef>::empty() =~= out@);
                        }
                        return past;
                    }
                }
            }
            i = i + 1;
        }
        proof {
            assert(out@ + Seq::<IndexRowRef>::empty() =~= out@);
        }
        past
    }

    fn point_lookup_filter(&self, logical_key: &[u8], reader: Reader) -> (r: Result<Vec<IndexRowRef>>)
        ensures
            match r {
                Ok(rows) => self@.lookup(logical_key@, reader) == Ok::<Seq<IndexRowRef>, Error>(rows@),
                Err(e) => self@.lookup(logical_key@, reader) == Err::<Seq<IndexRowRef>, Error>(e),
            },
    {
        let mut id = self.find_leaf(logical_key)?;
        let ghost start = id;
        let mut out: Vec<IndexRowRef> = Vec::new();
        let mut left: usize = self.buffer.page_count();
        proof {
            let whole = self@.lookup_from(start, logical_key@, reader, left as nat);
            assert(whole matches Ok(p) ==> out@ + p =~= p);
        }
        while left > 0
            invariant
                self@.path(logical_key@) is Ok,
                start == self@.path(logical_key@)->Ok_0.last(),
                self@.lookup_from(start, logical_key@, reader, self@.walk_limit()) == continued(
                    out@,
                    self@.lookup_from(id, logical_key@, reader, left as nat),
                ),
            decreases left,
        {
            let ghost before = out@;
            let header = self.read_header(id)?;
            let es = self.read_entries(id)?;
            let past = Self::scan_leaf(&es, logical_key, &reader, &mut out);
            if past {
                return Ok(out);
            }
            match header.right {
                Some(next) => {
                    proof {
                        let here = model::matching_rows(cell::entry_views(es@), logical_key@, reader, false);
                        let rest = self@.lookup_from(next, logical_key@, reader, (left - 1) as nat);
                        assert(rest matches Ok(p) ==> before + (here + p) =~= out@ + p);
                    }
                    id = next;
                    left = left - 1;
                },
                None => {
                    return Ok(out);
                },
            }
        }
        Err(Error::CorruptPage("index pages form a cycle"))
    }

    /// The rows of the entries of a key that nothing has marked deleted.
    pub fn point_lookup(&self, logical_key: &[u8]) -> (r: Result<Vec<IndexRowRef>>)
        ensures
            match r {
                Ok(rows) => self@.lookup(logical_key@, Reader::Live) == Ok::<Seq<IndexRowRef>, Error>(rows@),
                Err(e) => self@.lookup(logical_key@, Reader::Live) == Err::<Seq<IndexRowRef>, Error>(e),
            },
    {
        self.point_lookup_filter(logical_key, Reader::Live)
    }

    /// The rows of the entries of a key that a snapshot sees.
    pub fn point_lookup_visible(
        &self,
        tx_status: &ConcurrentTxStatus,
        snapshot: &Snapshot,
        owner: Option<TxId>,
        logical_key: &[u8],
    ) -> (r: Result<Vec<IndexRowRef>>)
        ensures
            match r {
                Ok(rows) => self@.lookup(logical_key@, Reader::At(tx_status, *snapshot, owner)) == Ok::<
                    Seq<IndexRowRef>,
                    Error,
                >(rows@),
                Err(e) => self@.lookup(logical_key@, Reader::At(tx_status, *snapshot, owner)) == Err::<
                    Seq<IndexRowRef>,
                    Error,
                >(e),
            },
    {
        self.point_lookup_filter(logical_key, Reader::At(tx_status, *snapshot, owner))
    }

    /// The rows of a leaf for a range of keys, and whether the leaf ends behind the range.
    fn scan_leaf_range(
        es: &Vec<Entry>,
        start: &[u8],
        end: &[u8],
        reader: &Reader,
        out: &mut Vec<IndexRowRef>,
    ) -> (past: bool)
        ensures
            final(out)@ == old(out)@ + model::rows_between(cell::entry_views(es@), start@, end@, *reader),
            past == model::ends_past(cell::entry_views(es@), end@, *reader),
    {
        let ghost all = cell::entry_views(es@);
        let ghost first = out@;
        let mut past = false;
        let mut i: usize = 0;
        proof {
            assert(all.subrange(0, 0) =~= Seq::empty());
            assert(first + Seq::<IndexRowRef>::empty() =~= first);
        }
        while i < es.len()
            invariant
                i <= es@.len(),
                all == cell::entry_views(es@),
                first == old(out)@,
                out@ == first + model::rows_between(all.subrange(0, i as int), start@, end@, *reader),
                past == model::ends_past(all.subrange(0, i as int), end@, *reader),
            decreases es@.len() - i,
        {
            let ghost before = out@;
            proof {
                let now = all.subrange(0, i + 1);
                assert(now.drop_last() =~= all.subrange(0, i as int));
                assert(now.last() == es@[i as int]@);
            }
            if reader_admits(reader, &es[i]) {
                if let Entry::Leaf { logical_key, row, .. } = &es[i] {
                    proof {
                        order::lemma_not_le(logical_key@, start@);
                        order::lemma_not_le(logical_key@, end@);
                    }
                    if !order::bytes_less(logical_key.as_slice(), start) && order::bytes_less(
                        logical_key.as_slice(),
                        end,
                    ) {
                        out.push(*row);
                        proof {
                            let now = all.subrange(0, i + 1);
                            assert(out@ =~= first + model::rows_between(now, start@, end@, *reader));
                        }
                    }
                    past = !order::bytes_less(logical_key.as_slice(), end);
                }
            }
            i = i + 1;
        }
        proof {
            assert(all.subrange(0, i as int) =~= all);
        }
        past
    }

    #[verifier::spinoff_prover]
    #[verifier::rlimit(40)]
    fn range_scan_filter(&mut self, start: &[u8], end: &[u8], reader: Reader) -> (r: Result<Vec<IndexRowRef>>)
        ensures
            final(self)@ == old(self)@,
            old(self).wf() ==> final(self).wf(),
            final(self).locks() == old(self).locks(),
            final(self).leaves_visited() == (old(self).leaves_visited() + old(self)@.range(start@, end@, reader).0)
                % 0x1_0000_0000_0000_0000,
            match r {
                Ok(rows) => old(self)@.range(start@, end@, reader).1 == Ok::<Seq<IndexRowRef>, Error>(rows@),
                Err(e) => old(self)@.range(start@, end@, reader).1 == Err::<Seq<IndexRowRef>, Error>(e),
            },
    {
        let mut id = self.find_leaf(start)?;
        let ghost first = id;
        let ghost whole = self@.range(start@, end@, reader);
        let ghost seen: nat = 0;
        let mut out: Vec<IndexRowRef> = Vec::new();
        let mut left: usize = self.buffer.page_count();
        proof {
            assert(whole.1 matches Ok(p) ==> out@ + p =~= p);
        }
        while left > 0
            invariant
                self@ == old(self)@,
                self.buffer == old(self).buffer,
                self.unique_locks == old(self).unique_locks,
                self.log == old(self).log,
                whole == old(self)@.range(start@, end@, reader),
                self.range_scan_leaves_visited as int == (old(self).range_scan_leaves_visited + seen)
                    % 0x1_0000_0000_0000_0000,
                whole.0 == seen + self@.range_from(id, start@, end@, reader, left as nat).0,
                whole.1 == continued(out@, self@.range_from(id, start@, end@, reader, left as nat).1),
            decreases left,
        {
            let ghost before = out@;
            let header_result = match self.buffer.pin(id) {
                Ok(page) => node::read_page_header(page),
                Err(e) => return Err(e),
            };
            self.range_scan_leaves_visited = if self.range_scan_leaves_visited == u64::MAX {
                0
            } else {
                self.range_scan_leaves_visited + 1
            };
            proof {
                lemma_counted_on(old(self).range_scan_leaves_visited as int, seen as int);
                seen = seen + 1;
            }
            let header = header_result?;
            let es = self.read_entries(id)?;
            let past = Self::scan_leaf_range(&es, start, end, &reader, &mut out);
            if past {
                return Ok(out);
            }
            match header.right {
                Some(next) => {
                    proof {
                        let here = model::rows_between(cell::entry_views(es@), start@, end@, reader);
                        let rest = self@.range_from(next, start@, end@, reader, (left - 1) as nat).1;
                        assert(rest matches Ok(p) ==> before + (here + p) =~= out@ + p);
                    }
                    id = next;
                    left = left - 1;
                },
                None => {
                    return Ok(out);
                },
            }
        }
        Err(Error::CorruptPage("index pages form a cycle"))
    }

    /// The rows of the live entries with a key from `start` up to but not including `end`.
    pub fn range_scan(&mut self, start: &[u8], end: &[u8]) -> (r: Result<Vec<IndexRowRef>>)
        ensures
            final(self)@ == old(self)@,
            old(self).wf() ==> final(self).wf(),
            final(self).locks() == old(self).locks(),
            final(self).leaves_visited() == (old(self).leaves_visited() + old(self)@.range(
                start@,
                end@,
                Reader::Live,
            ).0) % 0x1_0000_0000_0000_0000,
            match r {
                Ok(rows) => old(self)@.range(start@, end@, Reader::Live).1 == Ok::<Seq<IndexRowRef>, Error>(rows@),
                Err(e) => old(self)@.range(start@, end@, Reader::Live).1 == Err::<Seq<IndexRowRef>, Error>(e),
            },
    {
        self.range_scan_filter(start, end, Reader::Live)
    }

    /// The rows of the entries that a snapshot sees with a key from `start` up to but not including
    /// `end`.
    pub fn range_scan_visible(
        &mut self,
        tx_status: &ConcurrentTxStatus,
        snapshot: &Snapshot,
        owner: Option<TxId>,
        start: &[u8],
        end: &[u8],
    ) -> (r: Result<Vec<IndexRowRef>>)
        ensures
            final(self)@ == old(self)@,
            old(self).wf() ==> final(self).wf(),
            final(self).locks() == old(self).locks(),
            final(self).leaves_visited() == (old(self).leaves_visited() + old(self)@.range(
                start@,
                end@,
                Reader::At(tx_status, *snapshot, owner),
            ).0) % 0x1_0000_0000_0000_0000,
            match r {
                Ok(rows) => old(self)@.range(start@, end@, Reader::At(tx_status, *snapshot, owner)).1 == Ok::<
                    Seq<IndexRowRef>,
                    Error,
                >(rows@),
                Err(e) => old(self)@.range(start@, end@, Reader::At(tx_status, *snapshot, owner)).1 == Err::<
                    Seq<IndexRowRef>,
                    Error,
                >(e),
            },
    {
        self.range_scan_filter(start, end, Reader::At(tx_status, *snapshot, owner))
    }

    /// The leaf at the left end of the tree.
    fn leftmost_leaf(&self, root: PageId) -> (r: Result<PageId>)
        ensures
            r == self@.leftmost(root, self@.walk_limit()),
    {
        let mut id = root;
        let mut left: usize = self.buffer.page_count();
        while left > 0
            invariant
                self@.leftmost(root, self@.walk_limit()) == self@.leftmost(id, left as nat),
            decreases left,
        {
            let header = self.read_header(id)?;
            if header.kind == PAGE_LEAF_KIND {
                return Ok(id);
            }
            if header.kind != PAGE_INTERNAL_KIND {
                return Err(Error::CorruptPage("leftmost_leaf: unexpected page kind in tree"));
            }
            match header.left {
                None => {
                    return Err(Error::CorruptPage("internal page missing leftmost child"));
                },
                Some(child) => {
                    id = child;
                },
            }
            left = left - 1;
        }
        Err(Error::CorruptPage("index pages form a cycle"))
    }

    fn collect_live(es: &Vec<Entry>, at: PageId, out: &mut Vec<IndexEntry>)
        ensures
            found_views(final(out)@) == found_views(old(out)@) + model::live_found(cell::entry_views(es@), at),
    {
        let ghost all = cell::entry_views(es@);
        let ghost first = found_views(out@);
        let mut i: usize = 0;
        proof {
            assert(all.subrange(0, 0) =~= Seq::empty());
            assert(first + Seq::<FoundView>::empty() =~= first);
        }
        while i < es.len()
            invariant
                i <= es@.len(),
                all == cell::entry_views(es@),
                found_views(out@) == first + model::live_found(all.subrange(0, i as int), at),
            decreases es@.len() - i,
        {
            let ghost before = out@;
            let ghost now = all.subrange(0, i + 1);
            proof {
                assert(now.drop_last() =~= all.subrange(0, i as int));
                assert(now.last() == es@[i as int]@);
            }
            if es[i].physically_live() {
                if let Entry::Leaf { logical_key, row, .. } = &es[i] {
                    out.push(
                        IndexEntry {
                            logical_key: bytes::copy_bytes(logical_key.as_slice()),
                            row: *row,
                            leaf_page_id: at,
                        },
                    );
                    proof {
                        assert(found_views(out@) =~= found_views(before).push(
                            FoundView { logical_key: logical_key@, row: *row, leaf_page_id: at },
                        ));
                        assert(found_views(out@) =~= first + model::live_found(now, at));
                    }
                }
            }
            i = i + 1;
        }
        proof {
            assert(all.subrange(0, i as int) =~= all);
        }
    }

    /// Every live entry, in physical key order, with the leaf it stands on.
    pub fn iter_all_entries(&self) -> (r: Result<Vec<IndexEntry>>)
        ensures
            match r {
                Ok(found) => self@.all_entries() == Ok::<Seq<FoundView>, Error>(found_views(found@)),
                Err(e) => self@.all_entries() == Err::<Seq<FoundView>, Error>(e),
            },
    {
        let meta = self.meta()?;
        let mut id = self.leftmost_leaf(meta.root_page_id)?;
        let ghost start = id;
        let mut out: Vec<IndexEntry> = Vec::new();
        let mut left: usize = self.buffer.page_count();
        proof {
            let whole = self@.all_from(start, left as nat);
            assert(found_views(out@) =~= Seq::empty());
            assert(whole matches Ok(p) ==> found_views(out@) + p =~= p);
        }
        while left > 0
            invariant
                self@.all_entries() == self@.all_from(start, self@.walk_limit()),
                self@.all_from(start, self@.walk_limit()) == continued(
                    found_views(out@),
                    self@.all_from(id, left as nat),
                ),
            decreases left,
        {
            let ghost before = found_views(out@);
            let header = self.read_header(id)?;
            if header.kind != PAGE_LEAF_KIND {
                return Err(Error::CorruptPage("iter_all_entries: expected leaf in chain"));
            }
            let es = self.read_entries(id)?;
            Self::collect_live(&es, id, &mut out);
            match header.right {
                Some(next) if next != id => {
                    proof {
                        let here = model::live_found(cell::entry_views(es@), id);
                        let rest = self@.all_from(next, (left - 1) as nat);
                        assert(rest matches Ok(p) ==> before + (here + p) =~= found_views(out@) + p);
                    }
                    id = next;
                    left = left - 1;
                },
                _ => {
                    return Ok(out);
                },
            }
        }
        Err(Error::CorruptPage("index pages form a cycle"))
    }

    /// Adds what one node has to say to a report, and gives its children.
    fn report_node(
        header: &PageHeader,
        es: &Vec<Entry>,
        level: u16,
        index_id: IndexId,
        report: &mut IndexValidationReport,
    ) -> (children: Vec<PageId>)
        ensures
            report_view(*final(report)) == model::reported(
                report_view(*old(report)),
                header@,
                cell::entry_views(es@),
                level,
                index_id,
            ),
            children@ == model::node_children(header@, cell::entry_views(es@)),
    {
        let ghost r0 = report_view(*report);
        let ghost all = cell::entry_views(es@);
        report.pages_seen = report.pages_seen.saturating_add(1);
        if header.kind == PAGE_LEAF_KIND {
            report.leaf_pages = report.leaf_pages.saturating_add(1);
        } else if header.kind == PAGE_INTERNAL_KIND {
            report.internal_pages = report.internal_pages.saturating_add(1);
        } else {
            report.errors.push("unexpected page kind");
        }
        if header.level != level {
            report.errors.push("level mismatch");
        }
        if header.index_id != index_id {
            report.errors.push("index id mismatch");
        }
        if header.kind == PAGE_INTERNAL_KIND && header.left.is_none() {
            report.errors.push("internal page missing leftmost child");
        }
        let mut children: Vec<PageId> = Vec::new();
        if header.kind == PAGE_INTERNAL_KIND {
            if let Some(left) = header.left {
                children.push(left);
            }
        }
        let ghost head = children@;
        let ghost errors = report.errors@;
        proof {
            let e0 = if header.kind != PAGE_LEAF_KIND && header.kind != PAGE_INTERNAL_KIND {
                seq!["unexpected page kind"]
            } else {
                Seq::empty()
            };
            let e1 = if header.level != level {
                seq!["level mismatch"]
            } else {
                Seq::empty()
            };
            let e2 = if header.index_id != index_id {
                seq!["index id mismatch"]
            } else {
                Seq::empty()
            };
            let e3 = if header.kind == PAGE_INTERNAL_KIND && header.left is None {
                seq!["internal page missing leftmost child"]
            } else {
                Seq::empty()
            };
            let e4 = if header.kind == PAGE_INTERNAL_KIND && model::node_children(header@, all).len() != all.len() + 1 {
                seq!["internal child count mismatch"]
            } else {
                Seq::empty()
            };
            assert(errors =~= r0.errors + e0 + e1 + e2 + e3);
            assert(model::reported(r0, header@, all, level, index_id).errors == errors + model::order_findings(all)
                + e4);
        }
        let ghost counts = (report.pages_seen, report.leaf_pages, report.internal_pages);
        let mut i: usize = 0;
        proof {
            assert(all.subrange(0, 0) =~= Seq::empty());
            assert(head + Seq::<PageId>::empty() =~= head);
            assert(errors + Seq::<&'static str>::empty() =~= errors);
        }
        while i < es.len()
            invariant
                i <= es@.len(),
                all == cell::entry_views(es@),
                counts == (report.pages_seen, report.leaf_pages, report.internal_pages),
                children@ == head + model::children_of(all.subrange(0, i as int)),
                report.errors@ == errors + model::order_findings(all.subrange(0, i as int)),
            decreases es@.len() - i,
        {
            let ghost now = all.subrange(0, i + 1);
            proof {
                assert(now.drop_last() =~= all.subrange(0, i as int));
                assert(now.last() == es@[i as int]@);
            }
            if i > 0 && es[i].is_leaf() && es[i - 1].is_leaf() && order::bytes_less(
                es[i].sort_key(),
                es[i - 1].sort_key(),
            ) {
                report.errors.push("leaf entries out of order");
                proof {
                    assert(report.errors@ =~= errors + model::order_findings(now));
                }
            }
            if let Entry::Internal { child, .. } = &es[i] {
                children.push(*child);
                proof {
                    assert(children@ =~= head + model::children_of(now));
                }
            }
            i = i + 1;
        }
        proof {
            assert(all.subrange(0, i as int) =~= all);
            assert(children@ =~= model::node_children(header@, all));
        }
        let count: usize = children.len();
        if header.kind == PAGE_INTERNAL_KIND && (count == 0 || count - 1 != es.len()) {
            report.errors.push("internal child count mismatch");
        }
        proof {
            let want = model::reported(r0, header@, all, level, index_id);
            assert(report.errors@ =~= want.errors);
            assert(report_view(*report) =~= want);
        }
        children
    }

    fn validate_page(&self, id: PageId, level: u16, report: &mut IndexValidationReport, limit: usize) -> (r: Result<()>)
        ensures
            (report_view(*final(report)), r) == self@.validated(id, level, report_view(*old(report)), limit as nat),
        decreases limit, 0nat,
    {
        if limit == 0 {
            return Err(Error::CorruptPage("index pages form a cycle"));
        }
        let header = self.read_header(id)?;
        let es = self.read_entries(id)?;
        let children = Self::report_node(&header, &es, level, self.desc.index_id, report);
        let below: u16 = if level == 0 {
            0
        } else {
            level - 1
        };
        self.validate_all(&children, below, report, limit - 1)
    }

    fn validate_all(&self, ids: &Vec<PageId>, level: u16, report: &mut IndexValidationReport, limit: usize) -> (r: Result<
        (),
    >)
        ensures
            (report_view(*final(report)), r) == self@.validated_all(
                ids@,
                level,
                report_view(*old(report)),
                limit as nat,
            ),
        decreases limit, 1nat,
    {
        let mut i: usize = 0;
        proof {
            assert(ids@.subrange(0, ids@.len() as int) =~= ids@);
        }
        while i < ids.len()
            invariant
                i <= ids@.len(),
                self@.validated_all(ids@, level, report_view(*old(report)), limit as nat) == self@.validated_all(
                    ids@.subrange(i as int, ids@.len() as int),
                    level,
                    report_view(*report),
                    limit as nat,
                ),
            decreases ids@.len() - i,
        {
            proof {
                assert(ids@.subrange(i as int, ids@.len() as int).drop_first() =~= ids@.subrange(
                    i + 1,
                    ids@.len() as int,
                ));
            }
            self.validate_page(ids[i], level, report, limit)?;
            i = i + 1;
        }
        Ok(())
    }

    /// Walks the whole tree and reports what is wrong with it.
    pub fn validate(&self) -> (r: Result<IndexValidationReport>)
        ensures
            match r {
                Ok(report) => self@.validation() == (report_view(report), Ok::<(), Error>(())),
                Err(e) => self@.validation().1 == Err::<(), Error>(e),
            },
    {
        let meta = self.meta()?;
        let mut report = IndexValidationReport { pages_seen: 0, leaf_pages: 0, internal_pages: 0, errors: Vec::new() };
        proof {
            assert(report.errors@ =~= Seq::empty());
        }
        self.validate_page(meta.root_page_id, meta.root_level, &mut report, self.buffer.page_count())?;
        Ok(report)
    }

    /// A new index without a log.
    pub fn create(buffer: BufferPool, desc: IndexDescriptor) -> (r: Result<BtreeIndex>)
        requires
            buffer.wf(),
        ensures
            match r {
                Ok(index) => {
                    &&& index.wf()
                    &&& index@ == model::created(buffer@, desc, None)
                    &&& index.leaves_visited() == 0
                    &&& forall|k: Seq<u8>| index.locks().holder(k) is None
                    &&& buffer@.page_size >= 304 && buffer@.frames.len() + 2 < usize::MAX
                },
                Err(e) => if buffer@.frames.len() + 2 < usize::MAX {
                    &&& buffer@.page_size < 304
                    &&& e == (Error::BufferTooSmall { needed: 304, actual: buffer@.page_size as usize })
                } else {
                    e == Error::CorruptPage("page file is full")
                },
            },
    {
        Self::create_with_wal(buffer, desc, None)
    }

    /// A new index on the next two pages. With a log the pages cannot be written before their
    /// images are in it.
    pub fn create_with_wal(buffer: BufferPool, desc: IndexDescriptor, log: Option<PageLog>) -> (r: Result<BtreeIndex>)
        requires
            buffer.wf(),
            log matches Some(log) ==> log.wf(),
        ensures
            match r {
                Ok(index) => {
                    &&& index.wf()
                    &&& index@ == model::created(buffer@, desc, sink_view(log))
                    &&& index.leaves_visited() == 0
                    &&& forall|k: Seq<u8>| index.locks().holder(k) is None
                    &&& buffer@.page_size >= 304 && buffer@.frames.len() + 2 < usize::MAX
                },
                Err(e) => if buffer@.frames.len() + 2 < usize::MAX {
                    &&& buffer@.page_size < 304
                    &&& e == (Error::BufferTooSmall { needed: 304, actual: buffer@.page_size as usize })
                } else {
                    e == Error::CorruptPage("page file is full")
                },
            },
    {
        broadcast use bytes::lemma_le_bytes_len;

        let mut buffer = buffer;
        let ghost start = buffer@;
        let meta_id = buffer.allocate(PageKind::BtreeMeta, desc.rel_id)?;
        let root_id = buffer.allocate(PageKind::BtreeLeaf, desc.rel_id)?;
        let ghost two = buffer@;
        proof {
            buffer.lemma_wf();
        }
        let mut meta_page = buffer.pin(meta_id)?.duplicate();
        meta_page.reinitialize_with_special(
            PageKind::BtreeMeta,
            meta_id,
            desc.rel_id,
            PageGeneration(1),
            INDEX_SPECIAL_LEN,
        )?;
        let meta = MetaHeader {
            index_id: desc.index_id,
            root_page_id: root_id,
            root_level: 0,
            uniqueness: desc.uniqueness,
        };
        node::write_meta(&mut meta_page, &meta)?;
        let create_lsn = if log.is_some() {
            Lsn(UNLOGGED)
        } else {
            Lsn(1)
        };
        buffer.put(meta_id, meta_page)?;
        buffer.mark_dirty(meta_id, create_lsn)?;
        let mut root_page = buffer.pin(root_id)?.duplicate();
        let header = PageHeader {
            kind: PAGE_LEAF_KIND,
            level: 0,
            index_id: desc.index_id,
            left: None,
            right: None,
            high_key: Vec::new(),
        };
        let none: Vec<Entry> = Vec::new();
        proof {
            assert(header@ =~= model::empty_root_header(desc.index_id));
            assert(cell::entry_views(none@) =~= Seq::empty());
            assert(two.frames[meta_id.0 - 1] == start.grown(PageKind::BtreeMeta, desc.rel_id).frames.last());
        }
        node::rewrite_node(&mut root_page, true, &header, &none)?;
        buffer.put(root_id, root_page)?;
        buffer.mark_dirty(root_id, create_lsn)?;
        let index = BtreeIndex {
            buffer,
            meta_page_id: meta_id,
            desc,
            unique_locks: UniqueKeyLockTable::new(128),
            log,
            range_scan_leaves_visited: 0,
        };
        proof {
            assert(index@.pool =~= model::created(start, desc, sink_view(log)).pool);
            assert(index@ =~= model::created(start, desc, sink_view(log)));
        }
        Ok(index)
    }

    /// An index that stands on the pages of a pool, without a log.
    pub fn open(buffer: BufferPool, meta_page_id: PageId, desc: IndexDescriptor) -> (r: Result<BtreeIndex>)
        requires
            buffer.wf(),
        ensures
            ({
                let view = IndexView { pool: buffer@, meta_page_id, desc, log: None };
                match r {
                    Ok(index) => {
                        &&& index.wf()
                        &&& index@ == view
                        &&& index.leaves_visited() == 0
                        &&& forall|k: Seq<u8>| index.locks().holder(k) is None
                        &&& view.validation().1 is Ok
                    },
                    Err(e) => view.validation().1 == Err::<(), Error>(e),
                }
            }),
    {
        Self::open_with_wal(buffer, meta_page_id, desc, None)
    }

    /// An index that stands on the pages of a pool. It is opened if a walk over the tree ends well.
    pub fn open_with_wal(
        buffer: BufferPool,
        meta_page_id: PageId,
        desc: IndexDescriptor,
        log: Option<PageLog>,
    ) -> (r: Result<BtreeIndex>)
        requires
            buffer.wf(),
            log matches Some(log) ==> log.wf(),
        ensures
            ({
                let view = IndexView { pool: buffer@, meta_page_id, desc, log: sink_view(log) };
                match r {
                    Ok(index) => {
                        &&& index.wf()
                        &&& index@ == view
                        &&& index.leaves_visited() == 0
                        &&& forall|k: Seq<u8>| index.locks().holder(k) is None
                        &&& view.validation().1 is Ok
                    },
                    Err(e) => view.validation().1 == Err::<(), Error>(e),
                }
            }),
    {
        let index = BtreeIndex {
            buffer,
            meta_page_id,
            desc,
            unique_locks: UniqueKeyLockTable::new(128),
            log,
            range_scan_leaves_visited: 0,
        };
        index.validate()?;
        Ok(index)
    }

    /// The format version that a meta page carries.
    pub fn format_version(buffer: &BufferPool, meta_page_id: PageId) -> (r: Result<u16>)
        ensures
            r == (match buffer@.page(meta_page_id) {
                Err(e) => Err(e),
                Ok(page) => if page.special.len() < 4 {
                    Err(Error::BufferTooSmall { needed: 4, actual: page.special.len() as usize })
                } else if bytes::le_value(page.special.subrange(0, 4)) != INDEX_MAGIC {
                    Err(Error::CorruptPage("index magic mismatch"))
                } else if page.special.len() < 6 {
                    Err(Error::BufferTooSmall { needed: 6, actual: page.special.len() as usize })
                } else {
                    Ok(bytes::le_value(page.special.subrange(4, 6)) as u16)
                },
            }),
    {
        let page = buffer.pin(meta_page_id)?;
        let special: &[u8] = page.special_bytes();
        if bytes::read_u32(special, 0)? != INDEX_MAGIC {
            return Err(Error::CorruptPage("index magic mismatch"));
        }
        bytes::read_u16(special, 4)
    }

    /// The pages of the index, for whoever takes over after it.
    pub fn into_buffer(self) -> (buffer: BufferPool)
        requires
            self.wf(),
        ensures
            buffer.wf(),
            buffer@ == self@.pool,
    {
        self.buffer
    }

    /// The pages of the index.
    pub fn buffer(&self) -> (buffer: &BufferPool)
        ensures
            buffer@ == self@.pool,
            self.wf() ==> buffer.wf(),
    {
        &self.buffer
    }

    /// Exchanges the queue to the log for another one, if there is a log: whoever writes the log takes it
    /// and gives it back afterwards.
    pub fn swap_queue(&mut self, queue: &mut WalQueue)
        requires
            old(self).wf(),
            old(queue).wf(),
        ensures
            final(self).wf(),
            final(queue).wf(),
            final(self).locks() == old(self).locks(),
            final(self).leaves_visited() == old(self).leaves_visited(),
            match old(self)@.log {
                Some(sink) => {
                    &&& final(self)@ == (IndexView {
                        log: Some(SinkView { queue: old(queue)@, ..sink }),
                        ..old(self)@
                    })
                    &&& final(queue)@ == sink.queue
                },
                None => final(self)@ == old(self)@ && final(queue)@ == old(queue)@,
            },
    {
        let mut log: Option<PageLog> = None;
        std::mem::swap(&mut log, &mut self.log);
        if let Some(sink) = log {
            let mut sink = sink;
            std::mem::swap(&mut sink.queue, queue);
            self.log = Some(sink);
        }
    }

    /// Puts a page image back in place.
    pub fn redo_page_image(&mut self, page: Page) -> (r: Result<()>)
        requires
            old(self).wf(),
            page.wf(),
        ensures
            final(self).wf(),
            final(self).locks() == old(self).locks(),
            final(self).leaves_visited() == old(self).leaves_visited(),
            match r {
                Ok(_) => {
                    &&& page@.size == old(self)@.pool.page_size
                    &&& 0 < page@.page_id.0 < usize::MAX
                    &&& final(self)@ == old(self)@.with_pool(old(self)@.pool.written(page@))
                },
                Err(e) => {
                    &&& final(self)@ == old(self)@
                    &&& if page@.size != old(self)@.pool.page_size {
                        e == (Error::BufferTooSmall {
                            needed: old(self)@.pool.page_size as usize,
                            actual: page@.size as usize,
                        })
                    } else if page@.page_id.0 == 0 {
                        e == Error::CorruptPage("page id zero is invalid")
                    } else {
                        page@.page_id.0 >= usize::MAX && e == Error::CorruptPage("page file is full")
                    }
                },
            },
    {
        self.buffer.write_page_direct(page)
    }

    /// Notes a change of a page by a transaction.
    fn record_page_image(&mut self, id: PageId, tx_id: TxId) -> (r: Result<()>)
        requires
            old(self).wf(),
            old(self)@.pool.has(id),
        ensures
            final(self).wf(),
            final(self).locks() == old(self).locks(),
            final(self).leaves_visited() == old(self).leaves_visited(),
            (final(self)@, r) == old(self)@.record(id, tx_id),
    {
        broadcast use bytes::lemma_le_bytes_len;

        if tx_id == TxId(0) || self.log.is_none() {
            self.buffer.mark_dirty(id, Lsn(1))?;
            return Ok(());
        }
        let mut page = self.buffer.pin(id)?.duplicate();
        page.set_page_lsn(Lsn(0));
        proof {
            page.lemma_wf();
            image::lemma_page_image_len(page@);
        }
        let change = WalPayload::PageImage { page_id: id, page_lsn: Lsn(0), page_bytes: page.to_bytes() };
        let payload: Vec<u8> = change.encode()?;
        proof {
            assert(payload@ == IndexView::logged_image(id, old(self)@.pool.frames[id.0 - 1].page));
            assert(payload@.len() == 21 + page@.size);
        }
        let mut log: Option<PageLog> = None;
        std::mem::swap(&mut log, &mut self.log);
        let (append, log) = match log {
            Some(sink) => {
                let mut sink = sink;
                let append = sink.queue.append_now(&sink.config, WalRecordKind::PageImage, tx_id, payload);
                (append, Some(sink))
            },
            None => (Err(Error::CorruptWal("no log")), None),
        };
        self.log = log;
        let end_lsn = append?.end_lsn;
        self.buffer.mark_dirty(id, end_lsn)?;
        Ok(())
    }

    /// Logs the meta and root pages of a new index for the transaction that created it.
    pub fn record_initial_page_images(&mut self, tx_id: TxId) -> (r: Result<()>)
        requires
            old(self).wf(),
        ensures
            final(self).wf(),
            final(self).locks() == old(self).locks(),
            final(self).leaves_visited() == old(self).leaves_visited(),
            match old(self)@.meta() {
                Err(e) => r == Err::<(), Error>(e) && final(self)@ == old(self)@,
                Ok(meta) => {
                    let (one, noted) = old(self)@.record(old(self)@.meta_page_id, tx_id);
                    if noted is Err {
                        (final(self)@, r) == (one, noted)
                    } else if old(self)@.pool.has(meta.root_page_id) {
                        (final(self)@, r) == one.record(meta.root_page_id, tx_id)
                    } else {
                        r == Err::<(), Error>(old(self)@.pool.page(meta.root_page_id)->Err_0) && final(self)@ == one
                    }
                },
            },
    {
        let root_id = self.meta()?.root_page_id;
        self.record_page_image(self.meta_page_id, tx_id)?;
        if let Err(e) = self.buffer.pin(root_id) {
            return Err(e);
        }
        self.record_page_image(root_id, tx_id)
    }

    /// Replaces the node on a page.
    fn rewrite(&mut self, id: PageId, leaf: bool, header: &PageHeader, es: &Vec<Entry>) -> (r: Result<()>)
        requires
            old(self).wf(),
            old(self)@.pool.has(id),
        ensures
            final(self).wf(),
            final(self).locks() == old(self).locks(),
            final(self).leaves_visited() == old(self).leaves_visited(),
            (final(self)@, r) == old(self)@.rewrite(id, leaf, header@, cell::entry_views(es@)),
    {
        let mut page = self.buffer.pin(id)?.duplicate();
        let written = node::rewrite_node(&mut page, leaf, header, es);
        self.buffer.put(id, page)?;
        written
    }

    /// Replaces the entries of a leaf for a transaction.
    fn rewrite_leaf(&mut self, leaf: PageId, header: PageHeader, es: &Vec<Entry>, tx_id: TxId) -> (r: Result<()>)
        requires
            old(self).wf(),
            old(self)@.pool.has(leaf),
        ensures
            final(self).wf(),
            final(self).locks() == old(self).locks(),
            final(self).leaves_visited() == old(self).leaves_visited(),
            (final(self)@, r) == old(self)@.rewrite_leaf(leaf, header@, cell::entry_views(es@), tx_id),
    {
        let next = PageHeader { kind: PAGE_LEAF_KIND, level: 0, index_id: self.desc.index_id, ..header };
        self.rewrite(leaf, true, &next, es)?;
        self.record_page_image(leaf, tx_id)
    }

    /// Bytes for cells and slots on a page.
    fn page_body_capacity(&self, id: PageId) -> (r: Result<usize>)
        ensures
            match r {
                Ok(capacity) => self@.pool.has(id) && capacity == IndexView::capacity(
                    self@.pool.frames[id.0 - 1].page,
                ),
                Err(e) => self@.pool.page(id) == Err::<PageView, Error>(e),
            },
    {
        Ok(self.buffer.pin(id)?.size().saturating_sub(304))
    }

    /// The key that separates the halves of a leaf split.
    fn separator_of(left: &Vec<Entry>, right: &Vec<Entry>) -> (k: Vec<u8>)
        ensures
            k@ == model::leaf_separator(cell::entry_views(left@), cell::entry_views(right@)),
    {
        if right.len() == 0 {
            let none: Vec<u8> = Vec::new();
            proof {
                assert(none@ =~= Seq::empty());
            }
            return none;
        }
        let first = &right[0];
        if left.len() > 0 && order::bytes_equal(left[left.len() - 1].logical_key(), first.logical_key()) {
            match first.physical() {
                Some(physical) => bytes::copy_bytes(physical),
                None => {
                    let none: Vec<u8> = Vec::new();
                    proof {
                        assert(none@ =~= Seq::empty());
                    }
                    none
                },
            }
        } else {
            bytes::copy_bytes(first.logical_key())
        }
    }

    /// Adds an entry that belongs to no transaction.
    pub fn insert(&mut self, logical_key: &[u8], row: IndexRowRef) -> (r: Result<()>)
        requires
            old(self).wf(),
            key::key_fits(logical_key@.len()),
        ensures
            final(self).wf(),
            final(self).locks() == old(self).locks(),
            final(self).leaves_visited() == old(self).leaves_visited(),
            (final(self)@, r) == old(self)@.inserted(TxId(0), logical_key@, row),
    {
        self.insert_tx(TxId(0), logical_key, row)
    }

    /// Adds an entry for a transaction.
    pub fn insert_tx(&mut self, tx_id: TxId, logical_key: &[u8], row: IndexRowRef) -> (r: Result<()>)
        requires
            old(self).wf(),
            key::key_fits(logical_key@.len()),
        ensures
            final(self).wf(),
            final(self).locks() == old(self).locks(),
            final(self).leaves_visited() == old(self).leaves_visited(),
            (final(self)@, r) == old(self)@.inserted(tx_id, logical_key@, row),
    {
        let physical = key::encode_physical_key(logical_key, row);
        let meta = self.meta()?;
        let mut path = self.find_leaf_path(meta.root_page_id, physical.as_slice())?;
        let leaf = path[path.len() - 1];
        let header = self.read_header(leaf)?;
        if header.kind != PAGE_LEAF_KIND {
            return Err(Error::CorruptPage("expected leaf page"));
        }
        if header.high_key.len() > 0 && !order::bytes_less(physical.as_slice(), header.high_key.as_slice()) {
            return Err(Error::CorruptPage("index pages form a cycle"));
        }
        let mut es = self.read_entries(leaf)?;
        let candidate = Entry::Leaf {
            logical_key: bytes::copy_bytes(logical_key),
            row,
            physical: bytes::copy_bytes(physical.as_slice()),
            create_tx: tx_id,
            delete_tx: TxId(0),
        };
        let ghost entry = IndexView::new_entry(logical_key@, row, tx_id);
        let ghost before = cell::entry_views(es@);
        proof {
            assert(candidate@ =~= entry);
        }
        let (pos, equal) = entries::find_place(&es, &candidate);
        if equal && meta.uniqueness == IndexUniqueness::Unique {
            return Err(Error::WriteConflict);
        }
        let again = candidate.duplicate();
        es.insert(pos, candidate);
        proof {
            assert(cell::entry_views(es@) =~= before.insert(pos as int, entry));
        }
        let capacity: usize = self.page_body_capacity(leaf)?;
        proof {
            self.buffer.lemma_wf();
        }
        if entries::required_entries_len(&es) > capacity {
            let _leaf = path.pop();
            proof {
                assert(path@ =~= self@.path(entry.sort_key())->Ok_0.drop_last());
            }
            return self.split_leaf_and_insert(path, leaf, again, tx_id);
        }
        self.rewrite_leaf(leaf, header, &es, tx_id)
    }

    /// Splits a full leaf so that it takes one more entry.
    fn split_leaf_and_insert(&mut self, ancestors: Vec<PageId>, leaf: PageId, entry: Entry, tx_id: TxId) -> (r: Result<
        (),
    >)
        requires
            old(self).wf(),
            old(self)@.pool.has(leaf),
        ensures
            final(self).wf(),
            final(self).locks() == old(self).locks(),
            final(self).leaves_visited() == old(self).leaves_visited(),
            (final(self)@, r) == old(self)@.split_leaf(ancestors@, leaf, entry@, tx_id),
    {
        let mut es = self.read_entries(leaf)?;
        let header = self.read_header(leaf)?;
        let ghost before = cell::entry_views(es@);
        es.push(entry);
        proof {
            assert(cell::entry_views(es@) =~= before.push(entry@));
        }
        entries::sort_entries(&mut es);
        let ghost all = cell::entry_views(es@);
        let split: usize = entries::choose_leaf_split(&es);
        let right_entries: Vec<Entry> = es.split_off(split);
        proof {
            assert(cell::entry_views(es@) =~= all.subrange(0, split as int));
            assert(cell::entry_views(right_entries@) =~= all.subrange(split as int, all.len() as int));
        }
        let separator: Vec<u8> = Self::separator_of(&es, &right_entries);
        let right_id = self.buffer.allocate(PageKind::BtreeLeaf, self.desc.rel_id)?;
        let left_header = PageHeader {
            kind: PAGE_LEAF_KIND,
            level: 0,
            index_id: self.desc.index_id,
            left: header.left,
            right: Some(right_id),
            high_key: bytes::copy_bytes(separator.as_slice()),
        };
        self.rewrite(leaf, true, &left_header, &es)?;
        let right_header = PageHeader {
            kind: PAGE_LEAF_KIND,
            level: 0,
            index_id: self.desc.index_id,
            left: Some(leaf),
            right: header.right,
            high_key: header.high_key,
        };
        self.rewrite(right_id, true, &right_header, &right_entries)?;
        self.record_page_image(leaf, tx_id)?;
        self.record_page_image(right_id, tx_id)?;
        let meta = self.meta()?;
        self.propagate_split(meta.index_id, ancestors, leaf, right_id, separator, 1, tx_id)
    }

    /// Tells the ancestors of two halves of a split about the right one.
    fn propagate_split(
        &mut self,
        index_id: IndexId,
        ancestors: Vec<PageId>,
        left: PageId,
        right: PageId,
        separator: Vec<u8>,
        level: u16,
        tx_id: TxId,
    ) -> (r: Result<()>)
        requires
            old(self).wf(),
        ensures
            final(self).wf(),
            final(self).locks() == old(self).locks(),
            final(self).leaves_visited() == old(self).leaves_visited(),
            (final(self)@, r) == old(self)@.propagated(
                index_id,
                ancestors@,
                left,
                right,
                separator@,
                level,
                tx_id,
            ),
        decreases ancestors@.len(),
    {
        if ancestors.len() == 0 {
            return self.install_root(index_id, left, right, separator, level, tx_id);
        }
        let parent = ancestors[ancestors.len() - 1];
        let header = self.read_header(parent)?;
        let mut es = self.read_entries(parent)?;
        if header.kind != PAGE_INTERNAL_KIND {
            return Err(Error::CorruptPage("expected internal page"));
        }
        let ghost before = cell::entry_views(es@);
        let entry = Entry::Internal { separator, child: right };
        es.push(entry);
        proof {
            assert(cell::entry_views(es@) =~= before.push(entry@));
        }
        entries::sort_entries(&mut es);
        let capacity: usize = self.page_body_capacity(parent)?;
        proof {
            self.buffer.lemma_wf();
        }
        if entries::required_entries_len(&es) <= capacity {
            let next = PageHeader { index_id, ..header };
            self.rewrite(parent, false, &next, &es)?;
            return self.record_page_image(parent, tx_id);
        }
        let parent_level: u16 = header.level;
        let (id, next_separator) = self.split_internal(index_id, parent, header, es, tx_id)?;
        let mut rest = ancestors;
        let _parent = rest.pop();
        proof {
            assert(rest@ =~= ancestors@.drop_last());
        }
        self.propagate_split(index_id, rest, parent, id, next_separator, parent_level.saturating_add(1), tx_id)
    }

    /// Splits a full internal node. The separator that leads to the right half is the one that led to its
    /// first page.
    fn split_internal(
        &mut self,
        index_id: IndexId,
        parent: PageId,
        header: PageHeader,
        es: Vec<Entry>,
        tx_id: TxId,
    ) -> (r: Result<(PageId, Vec<u8>)>)
        requires
            old(self).wf(),
            old(self)@.pool.has(parent),
        ensures
            final(self).wf(),
            final(self).locks() == old(self).locks(),
            final(self).leaves_visited() == old(self).leaves_visited(),
            ({
                let (after, result) = old(self)@.split_internal(
                    index_id,
                    parent,
                    header@,
                    cell::entry_views(es@),
                    tx_id,
                );
                &&& final(self)@ == after
                &&& match r {
                    Ok((id, separator)) => result == Ok::<(PageId, Seq<u8>), Error>((id, separator@)),
                    Err(e) => result == Err::<(PageId, Seq<u8>), Error>(e),
                }
            }),
    {
        let ghost all = cell::entry_views(es@);
        let mut es = es;
        let split: usize = es.len() / 2;
        let right_entries: Vec<Entry> = es.split_off(split);
        proof {
            assert(cell::entry_views(es@) =~= all.subrange(0, split as int));
            assert(cell::entry_views(right_entries@) =~= all.subrange(split as int, all.len() as int));
        }
        let right_id = self.buffer.allocate(PageKind::BtreeInternal, self.desc.rel_id)?;
        if right_entries.len() == 0 {
            return Err(Error::CorruptPage("internal split produced empty right side"));
        }
        let (child, separator): (PageId, Vec<u8>) = match &right_entries[0] {
            Entry::Internal { child, separator } => (*child, bytes::copy_bytes(separator.as_slice())),
            Entry::Leaf { .. } => {
                return Err(Error::CorruptPage("internal split produced empty right side"));
            },
        };
        let left_header = PageHeader {
            kind: header.kind,
            level: header.level,
            index_id,
            left: header.left,
            right: Some(right_id),
            high_key: bytes::copy_bytes(separator.as_slice()),
        };
        self.rewrite(parent, false, &left_header, &es)?;
        let right_header = PageHeader {
            kind: header.kind,
            level: header.level,
            index_id,
            left: Some(child),
            right: header.right,
            high_key: header.high_key,
        };
        self.rewrite(right_id, false, &right_header, &right_entries)?;
        self.record_page_image(parent, tx_id)?;
        self.record_page_image(right_id, tx_id)?;
        Ok((right_id, separator))
    }

    /// Puts a new root above two pages.
    fn install_root(
        &mut self,
        index_id: IndexId,
        left: PageId,
        right: PageId,
        separator: Vec<u8>,
        level: u16,
        tx_id: TxId,
    ) -> (r: Result<()>)
        requires
            old(self).wf(),
        ensures
            final(self).wf(),
            final(self).locks() == old(self).locks(),
            final(self).leaves_visited() == old(self).leaves_visited(),
            (final(self)@, r) == old(self)@.new_root(index_id, left, right, separator@, level, tx_id),
    {
        let root = self.buffer.allocate(PageKind::BtreeInternal, self.desc.rel_id)?;
        let header = PageHeader {
            kind: PAGE_INTERNAL_KIND,
            level,
            index_id,
            left: Some(left),
            right: None,
            high_key: Vec::new(),
        };
        let mut es: Vec<Entry> = Vec::new();
        es.push(Entry::Internal { separator, child: right });
        proof {
            assert(header@.high_key =~= Seq::empty());
            assert(cell::entry_views(es@) =~= seq![EntryView::Internal { separator: separator@, child: right }]);
        }
        self.rewrite(root, false, &header, &es)?;
        self.record_page_image(root, tx_id)?;
        self.set_meta_root(root, level, tx_id)
    }

    /// Makes the meta page point to another root.
    fn set_meta_root(&mut self, root: PageId, level: u16, tx_id: TxId) -> (r: Result<()>)
        requires
            old(self).wf(),
        ensures
            final(self).wf(),
            final(self).locks() == old(self).locks(),
            final(self).leaves_visited() == old(self).leaves_visited(),
            (final(self)@, r) == old(self)@.set_root(root, level, tx_id),
    {
        let meta_id = self.meta_page_id;
        let meta = self.meta()?;
        let mut page = self.buffer.pin(meta_id)?.duplicate();
        let next = MetaHeader { root_page_id: root, root_level: level, ..meta };
        let written = node::write_meta(&mut page, &next);
        self.buffer.put(meta_id, page)?;
        written?;
        self.record_page_image(meta_id, tx_id)
    }

    /// Whether a delete mark hides an entry from the one that wants to delete it.
    fn delete_marker_visible(delete_tx: TxId, reader: &Reader) -> (r: bool)
        ensures
            r == model::mark_stands(delete_tx, *reader),
    {
        if delete_tx == TxId(0) {
            return false;
        }
        if delete_tx == TxId(cell::NON_TRANSACTIONAL_DELETE) {
            return true;
        }
        match reader {
            Reader::Live => true,
            Reader::At(txs, snapshot, owner) => txs.is_tx_visible(delete_tx, snapshot, *owner),
        }
    }

    /// Marks the entry of a key and row deleted, for good.
    pub fn delete_mark(&mut self, logical_key: &[u8], row: IndexRowRef) -> (r: Result<()>)
        requires
            old(self).wf(),
            key::key_fits(logical_key@.len()),
        ensures
            final(self).wf(),
            final(self).locks() == old(self).locks(),
            final(self).leaves_visited() == old(self).leaves_visited(),
            (final(self)@, r) == old(self)@.delete_marked(
                TxId(cell::NON_TRANSACTIONAL_DELETE),
                logical_key@,
                row,
                Reader::Live,
            ),
    {
        self.delete_mark_tx(TxId(cell::NON_TRANSACTIONAL_DELETE), logical_key, row)
    }

    /// Marks the entry of a key and row deleted by a transaction, unless it carries a mark.
    pub fn delete_mark_tx(&mut self, tx_id: TxId, logical_key: &[u8], row: IndexRowRef) -> (r: Result<()>)
        requires
            old(self).wf(),
            key::key_fits(logical_key@.len()),
        ensures
            final(self).wf(),
            final(self).locks() == old(self).locks(),
            final(self).leaves_visited() == old(self).leaves_visited(),
            (final(self)@, r) == old(self)@.delete_marked(tx_id, logical_key@, row, Reader::Live),
    {
        self.delete_mark_tx_inner(tx_id, logical_key, row, Reader::Live)
    }

    /// Marks the entry of a key and row deleted by a transaction, unless it carries a mark that the
    /// snapshot sees.
    pub fn delete_mark_tx_visible(
        &mut self,
        tx_status: &ConcurrentTxStatus,
        snapshot: &Snapshot,
        owner: Option<TxId>,
        tx_id: TxId,
        logical_key: &[u8],
        row: IndexRowRef,
    ) -> (r: Result<()>)
        requires
            old(self).wf(),
            key::key_fits(logical_key@.len()),
        ensures
            final(self).wf(),
            final(self).locks() == old(self).locks(),
            final(self).leaves_visited() == old(self).leaves_visited(),
            (final(self)@, r) == old(self)@.delete_marked(
                tx_id,
                logical_key@,
                row,
                Reader::At(tx_status, *snapshot, owner),
            ),
    {
        self.delete_mark_tx_inner(tx_id, logical_key, row, Reader::At(tx_status, *snapshot, owner))
    }

    /// The first entry of a key and row, and whether there was an entry of the key before it.
    fn find_entry(es: &Vec<Entry>, logical_key: &[u8], row: IndexRowRef) -> (r: (usize, bool))
        ensures
            r.0 == model::entry_pos(cell::entry_views(es@), logical_key@, row, 0),
            r.0 <= es@.len(),
            r.0 == es@.len() ==> r.1 == (exists|i: int|
                0 <= i < es@.len() && model::has_key(#[trigger] cell::entry_views(es@)[i], logical_key@)),
            r.0 < es@.len() ==> es@[r.0 as int]@ is Leaf,
    {
        let ghost all = cell::entry_views(es@);
        let mut key_seen = false;
        let mut i: usize = 0;
        while i < es.len()
            invariant
                i <= es@.len(),
                all == cell::entry_views(es@),
                model::entry_pos(all, logical_key@, row, 0) == model::entry_pos(all, logical_key@, row, i as int),
                key_seen == (exists|j: int| 0 <= j < i && model::has_key(#[trigger] all[j], logical_key@)),
            decreases es@.len() - i,
        {
            proof {
                assert(all[i as int] == es@[i as int]@);
            }
            if let Entry::Leaf { logical_key: found, row: found_row, .. } = &es[i] {
                if order::bytes_equal(found.as_slice(), logical_key) {
                    key_seen = true;
                    if *found_row == row {
                        return (i, key_seen);
                    }
                }
            }
            i = i + 1;
        }
        (i, key_seen)
    }

    /// The leaf, its node and the position of the entry to mark, looking from a leaf on; `None` where
    /// there is none to mark.
    fn find_mark(
        &self,
        start: PageId,
        logical_key: &[u8],
        row: IndexRowRef,
        reader: Reader,
        Ghost(tx_id): Ghost<TxId>,
    ) -> (r: Result<Option<(PageId, PageHeader, Vec<Entry>, usize)>>)
        ensures
            ({
                let want = self@.marked_from(start, tx_id, logical_key@, row, reader, self@.walk_limit());
                match r {
                    Err(e) => want == (self@, Err::<(), Error>(e)),
                    Ok(None) => want == (self@, Ok::<(), Error>(())),
                    Ok(Some((leaf, header, es, pos))) => {
                        let all = cell::entry_views(es@);
                        &&& self@.pool.has(leaf)
                        &&& pos < es@.len()
                        &&& all[pos as int] is Leaf
                        &&& want == self@.rewrite_leaf(
                            leaf,
                            header@,
                            all.update(pos as int, model::marked(all[pos as int], tx_id)),
                            tx_id,
                        )
                    },
                }
            }),
    {
        let mut leaf = start;
        let mut left: usize = self.buffer.page_count();
        while left > 0
            invariant
                self@.marked_from(start, tx_id, logical_key@, row, reader, self@.walk_limit()) == self@.marked_from(
                    leaf,
                    tx_id,
                    logical_key@,
                    row,
                    reader,
                    left as nat,
                ),
            decreases left,
        {
            let header = self.read_header(leaf)?;
            if header.kind != PAGE_LEAF_KIND {
                return Err(Error::CorruptPage("expected leaf page"));
            }
            let es = self.read_entries(leaf)?;
            let (pos, key_seen) = Self::find_entry(&es, logical_key, row);
            if pos < es.len() {
                if let Entry::Leaf { delete_tx, .. } = &es[pos] {
                    if Self::delete_marker_visible(*delete_tx, &reader) {
                        return Ok(None);
                    }
                }
                return Ok(Some((leaf, header, es, pos)));
            }
            match header.right {
                Some(right) if key_seen => {
                    leaf = right;
                    left = left - 1;
                },
                _ => {
                    return Ok(None);
                },
            }
        }
        Err(Error::CorruptPage("index pages form a cycle"))
    }

    fn delete_mark_tx_inner(&mut self, tx_id: TxId, logical_key: &[u8], row: IndexRowRef, reader: Reader) -> (r: Result<
        (),
    >)
        requires
            old(self).wf(),
            key::key_fits(logical_key@.len()),
        ensures
            final(self).wf(),
            final(self).locks() == old(self).locks(),
            final(self).leaves_visited() == old(self).leaves_visited(),
            (final(self)@, r) == old(self)@.delete_marked(tx_id, logical_key@, row, reader),
    {
        let probe = key::encode_physical_key(logical_key, row);
        let leaf = self.find_leaf(probe.as_slice())?;
        match self.find_mark(leaf, logical_key, row, reader, Ghost(tx_id))? {
            None => Ok(()),
            Some((leaf, header, mut es, pos)) => {
                let ghost all = cell::entry_views(es@);
                let entry = es[pos].duplicate();
                if let Entry::Leaf { logical_key: found, row: found_row, physical, create_tx, .. } = entry {
                    let next = Entry::Leaf {
                        logical_key: found,
                        row: found_row,
                        physical,
                        create_tx,
                        delete_tx: tx_id,
                    };
                    es.set(pos, next);
                }
                proof {
                    assert(cell::entry_views(es@) =~= all.update(pos as int, model::marked(all[pos as int], tx_id)));
                }
                self.rewrite_leaf(leaf, header, &es, tx_id)
            },
        }
    }

    /// Replaces the entries of a leaf by those that stay.
    fn sweep(
        &mut self,
        leaf: PageId,
        header: PageHeader,
        total: usize,
        kept: Vec<Entry>,
        Ghost(gone): Ghost<spec_fn(EntryView) -> bool>,
    ) -> (r: Result<()>)
        requires
            old(self).wf(),
            old(self)@.header(leaf) == Ok::<HeaderView, Error>(header@),
            header@.kind == PAGE_LEAF_KIND,
            old(self)@.entries(leaf) is Ok,
            total == old(self)@.entries(leaf)->Ok_0.len(),
            cell::entry_views(kept@) == model::without(old(self)@.entries(leaf)->Ok_0, gone),
        ensures
            final(self).wf(),
            final(self).locks() == old(self).locks(),
            final(self).leaves_visited() == old(self).leaves_visited(),
            (final(self)@, r) == old(self)@.swept(leaf, gone),
    {
        if kept.len() == total {
            return Ok(());
        }
        let next = PageHeader { kind: PAGE_LEAF_KIND, level: 0, index_id: self.desc.index_id, ..header };
        self.rewrite(leaf, true, &next, &kept)?;
        self.buffer.mark_dirty(leaf, Lsn(1))?;
        Ok(())
    }

    /// Takes the entries that carry a delete mark off a leaf.
    pub fn compact_leaf_page(&mut self, page_id: PageId) -> (r: Result<()>)
        requires
            old(self).wf(),
        ensures
            final(self).wf(),
            final(self).locks() == old(self).locks(),
            final(self).leaves_visited() == old(self).leaves_visited(),
            (final(self)@, r) == old(self)@.swept(page_id, model::dead()),
    {
        let header = self.read_header(page_id)?;
        if header.kind != PAGE_LEAF_KIND {
            return Err(Error::CorruptPage("expected leaf page"));
        }
        let es = self.read_entries(page_id)?;
        let ghost all = cell::entry_views(es@);
        let mut kept: Vec<Entry> = Vec::new();
        let mut i: usize = 0;
        proof {
            assert(all.subrange(0, 0) =~= Seq::empty());
            assert(cell::entry_views(kept@) =~= Seq::empty());
        }
        while i < es.len()
            invariant
                i <= es@.len(),
                all == cell::entry_views(es@),
                cell::entry_views(kept@) == model::without(all.subrange(0, i as int), model::dead()),
            decreases es@.len() - i,
        {
            let ghost before = cell::entry_views(kept@);
            proof {
                assert(all.subrange(0, i + 1).drop_last() =~= all.subrange(0, i as int));
                assert(all.subrange(0, i + 1).last() == es@[i as int]@);
            }
            if es[i].physically_live() {
                let entry = es[i].duplicate();
                kept.push(entry);
                proof {
                    assert(cell::entry_views(kept@) =~= before.push(entry@));
                }
            }
            i = i + 1;
        }
        proof {
            assert(all.subrange(0, i as int) =~= all);
        }
        self.sweep(page_id, header, es.len(), kept, Ghost(model::dead()))
    }

    /// Takes the entries off a leaf that were deleted by transactions that committed before
    /// `horizon`.
    pub fn prune_committed_deletes_before(
        &mut self,
        page_id: PageId,
        tx_status: &ConcurrentTxStatus,
        horizon: Csn,
    ) -> (r: Result<()>)
        requires
            old(self).wf(),
        ensures
            final(self).wf(),
            final(self).locks() == old(self).locks(),
            final(self).leaves_visited() == old(self).leaves_visited(),
            (final(self)@, r) == old(self)@.swept(page_id, model::dead_before(*tx_status, horizon)),
    {
        let header = self.read_header(page_id)?;
        if header.kind != PAGE_LEAF_KIND {
            return Err(Error::CorruptPage("expected leaf page"));
        }
        let es = self.read_entries(page_id)?;
        let ghost all = cell::entry_views(es@);
        let ghost gone = model::dead_before(*tx_status, horizon);
        let mut kept: Vec<Entry> = Vec::new();
        let mut i: usize = 0;
        proof {
            assert(all.subrange(0, 0) =~= Seq::empty());
            assert(cell::entry_views(kept@) =~= Seq::empty());
        }
        while i < es.len()
            invariant
                i <= es@.len(),
                all == cell::entry_views(es@),
                gone == model::dead_before(*tx_status, horizon),
                cell::entry_views(kept@) == model::without(all.subrange(0, i as int), gone),
            decreases es@.len() - i,
        {
            let ghost before = cell::entry_views(kept@);
            proof {
                assert(all.subrange(0, i + 1).drop_last() =~= all.subrange(0, i as int));
                assert(all.subrange(0, i + 1).last() == es@[i as int]@);
            }
            if !es[i].is_committed_deleted_before(tx_status, horizon) {
                let entry = es[i].duplicate();
                kept.push(entry);
                proof {
                    assert(cell::entry_views(kept@) =~= before.push(entry@));
                }
            }
            i = i + 1;
        }
        proof {
            assert(all.subrange(0, i as int) =~= all);
        }
        self.sweep(page_id, header, es.len(), kept, Ghost(gone))
    }

    /// Reserves a unique key. `None` means that another owner holds it and the caller has to wait.
    pub fn lock_unique_key(&mut self, owner: u64, logical_key: &[u8]) -> (r: Option<UniqueKeyGuard>)
        requires
            old(self).wf(),
            old(self).locks().holder(logical_key@) matches Some(hold) ==> hold.depth < usize::MAX,
        ensures
            final(self).wf(),
            final(self)@ == old(self)@,
            final(self).leaves_visited() == old(self).leaves_visited(),
            forall|g: UniqueKeyGuard| old(self).locks().issued(g) ==> final(self).locks().issued(g),
            r is None <==> (old(self).locks().holder(logical_key@) matches Some(hold) && hold.owner != owner),
            match r {
                None => forall|k: Seq<u8>| final(self).locks().holder(k) == old(self).locks().holder(k),
                Some(guard) => {
                    &&& guard.key() == logical_key@
                    &&& guard.owner() == owner
                    &&& final(self).locks().issued(guard)
                    &&& final(self).locks().holder(logical_key@) == Some(
                        KeyHold {
                            owner,
                            depth: match old(self).locks().holder(logical_key@) {
                                Some(hold) => (hold.depth + 1) as usize,
                                None => 1,
                            },
                        },
                    )
                    &&& forall|k: Seq<u8>|
                        k != logical_key@ ==> final(self).locks().holder(k) == old(self).locks().holder(k)
                },
            },
    {
        self.unique_locks.lock(logical_key, owner)
    }

    /// Gives the reservation of a unique key back.
    pub fn unlock_unique_key(&mut self, guard: UniqueKeyGuard)
        requires
            old(self).wf(),
            old(self).locks().issued(guard),
        ensures
            final(self).wf(),
            final(self)@ == old(self)@,
            final(self).leaves_visited() == old(self).leaves_visited(),
            forall|g: UniqueKeyGuard| old(self).locks().issued(g) ==> final(self).locks().issued(g),
            forall|k: Seq<u8>| k != guard.key() ==> final(self).locks().holder(k) == old(self).locks().holder(k),
            final(self).locks().holder(guard.key()) == (match old(self).locks().holder(guard.key()) {
                Some(hold) => if hold.owner != guard.owner() {
                    Some(hold)
                } else if hold.depth <= 1 {
                    None
                } else {
                    Some(KeyHold { owner: hold.owner, depth: (hold.depth - 1) as usize })
                },
                None => None,
            }),
    {
        self.unique_locks.unlock(guard)
    }

    /// Adds an entry of a key that has no live entry yet, under a reservation of the key.
    /// `Ok(false)` means that another owner has reserved the key and the caller has to wait.
    pub fn insert_unique(&mut self, owner: u64, logical_key: &[u8], row: IndexRowRef) -> (r: Result<bool>)
        requires
            old(self).wf(),
            key::key_fits(logical_key@.len()),
            old(self).locks().holder(logical_key@) matches Some(hold) ==> 0 < hold.depth < usize::MAX,
        ensures
            final(self).wf(),
            final(self).leaves_visited() == old(self).leaves_visited(),
            forall|k: Seq<u8>| final(self).locks().holder(k) == old(self).locks().holder(k),
            forall|g: UniqueKeyGuard| old(self).locks().issued(g) ==> final(self).locks().issued(g),
            if old(self).locks().holder(logical_key@) matches Some(hold) && hold.owner != owner {
                final(self)@ == old(self)@ && r == Ok::<bool, Error>(false)
            } else {
                match old(self)@.lookup(logical_key@, Reader::Live) {
                    Err(e) => final(self)@ == old(self)@ && r == Err::<bool, Error>(e),
                    Ok(rows) => if rows.len() > 0 {
                        final(self)@ == old(self)@ && r == Err::<bool, Error>(Error::WriteConflict)
                    } else {
                        let (after, result) = old(self)@.inserted(TxId(0), logical_key@, row);
                        final(self)@ == after && r == (match result {
                            Ok(_) => Ok::<bool, Error>(true),
                            Err(e) => Err(e),
                        })
                    },
                }
            },
    {
        let guard = match self.lock_unique_key(owner, logical_key) {
            Some(guard) => guard,
            None => return Ok(false),
        };
        let result = match self.point_lookup(logical_key) {
            Err(e) => Err(e),
            Ok(rows) => if rows.len() > 0 {
                Err(Error::WriteConflict)
            } else {
                match self.insert(logical_key, row) {
                    Ok(_) => Ok(true),
                    Err(e) => Err(e),
                }
            },
        };
        self.unlock_unique_key(guard);
        result
    }

    /// The counters of the index.
    pub fn stats(&self) -> (stats: IndexStats)
        ensures
            stats.range_scan_leaves_visited == self.leaves_visited(),
    {
        IndexStats { range_scan_leaves_visited: self.range_scan_leaves_visited }
    }

    pub fn descriptor(&self) -> (desc: IndexDescriptor)
        ensures
            desc == self@.desc,
    {
        self.desc
    }

    pub fn meta_page_id(&self) -> (id: PageId)
        ensures
            id == self@.meta_page_id,
    {
        self.meta_page_id
    }
}

} // verus!
