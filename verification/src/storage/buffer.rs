//! The pages of a file in memory, with what has to reach the log before they may reach the disk.
use crate::error::{Error, Result};
use crate::format::page;
use crate::format::page::{Page, PageKind, PageView};
use crate::format::{Lsn, PageId, RelId};
use vstd::prelude::*;

verus! {

/// A page in memory. `dirty` is the log position that has to be durable before the page is written.
#[verifier::ext_equal]
pub struct FrameView {
    pub page: PageView,
    pub dirty: Option<Lsn>,
}

impl FrameView {
    /// Whether the page is dirty and everything it depends on is durable.
    pub open spec fn may_flush(self, durable: Lsn) -> bool {
        match self.dirty {
            Some(lsn) => lsn.0 <= durable.0,
            None => false,
        }
    }
}

/// The contents of a buffer pool: page `p` stands at position `p - 1`.
#[verifier::ext_equal]
pub struct PoolView {
    pub page_size: nat,
    pub frames: Seq<FrameView>,
}

impl PoolView {
    /// Where a page stands.
    pub open spec fn locate(self, id: PageId) -> Result<int> {
        if id.0 == 0 {
            Err(Error::CorruptPage("page id zero is invalid"))
        } else if id.0 > self.frames.len() {
            Err(Error::CorruptPage("page is not allocated"))
        } else {
            Ok(id.0 - 1)
        }
    }

    pub open spec fn has(self, id: PageId) -> bool {
        1 <= id.0 <= self.frames.len()
    }

    /// The contents of a page.
    pub open spec fn page(self, id: PageId) -> Result<PageView> {
        match self.locate(id) {
            Err(e) => Err(e),
            Ok(i) => Ok(self.frames[i].page),
        }
    }

    /// The pool with other contents for a page.
    pub open spec fn put(self, id: PageId, page: PageView) -> PoolView {
        let i = id.0 - 1;
        PoolView { frames: self.frames.update(i, FrameView { page, ..self.frames[i] }), ..self }
    }

    /// The pool with a page that must not be written before `lsn` is durable.
    pub open spec fn dirtied(self, id: PageId, lsn: Lsn) -> PoolView {
        let i = id.0 - 1;
        PoolView { frames: self.frames.update(i, FrameView { dirty: Some(lsn), ..self.frames[i] }), ..self }
    }

    /// Whether the file can grow by a page.
    pub open spec fn can_grow(self) -> bool {
        self.frames.len() < usize::MAX - 1
    }

    /// The page id that is handed out next.
    pub open spec fn next_id(self) -> PageId {
        PageId((self.frames.len() + 1) as u64)
    }

    /// The pool with empty pages at the end up to page `id`.
    pub open spec fn stretched(self, id: nat) -> PoolView
        decreases id - self.frames.len(),
    {
        if self.frames.len() >= id {
            self
        } else {
            self.grown(PageKind::Heap, RelId(0)).stretched(id)
        }
    }

    /// The pool after a page is written where its id says, the file growing as far as needed.
    pub open spec fn written(self, page: PageView) -> PoolView {
        self.stretched(page.page_id.0 as nat).put(page.page_id, page).dirtied(page.page_id, page.page_lsn)
    }

    /// The pool with one more page.
    pub open spec fn grown(self, kind: PageKind, rel_id: RelId) -> PoolView {
        PoolView {
            frames: self.frames.push(
                FrameView { page: page::fresh_page(self.page_size, kind, self.next_id(), rel_id, 0), dirty: None },
            ),
            ..self
        }
    }
}

/// How many pages a pool holds, and how many of them wait to be written.
#[derive(Clone, Copy, Debug, PartialEq, Eq, Structural)]
pub struct BufferPoolStats {
    pub resident_pages: usize,
    pub dirty_pages: usize,
}

/// How many pages wait to be written.
pub open spec fn count_dirty(frames: Seq<FrameView>) -> nat
    decreases frames.len(),
{
    if frames.len() == 0 {
        0
    } else {
        count_dirty(frames.drop_last()) + if frames.last().dirty is Some {
            1nat
        } else {
            0
        }
    }
}

#[derive(Debug)]
struct Frame {
    page: Page,
    dirty: Option<Lsn>,
}

/// The pages of a file in memory.
#[derive(Debug)]
pub struct BufferPool {
    page_size: usize,
    frames: Vec<Frame>,
}

impl Frame {
    spec fn spec_view(self) -> FrameView {
        FrameView { page: self.page@, dirty: self.dirty }
    }
}

impl View for BufferPool {
    type V = PoolView;

    closed spec fn view(&self) -> PoolView {
        PoolView {
            page_size: self.page_size as nat,
            frames: Seq::new(self.frames@.len(), |i: int| self.frames@[i].spec_view()),
        }
    }
}

impl BufferPool {
    pub closed spec fn wf(self) -> bool {
        &&& page::page_size_ok(self.page_size as nat)
        &&& forall|i: int| 0 <= i < self.frames@.len() ==> (#[trigger] self.frames@[i]).page.wf()
    }

    /// The pages of the pool in numbers.
    pub fn stats(&self) -> (stats: BufferPoolStats)
        ensures
            stats.resident_pages == self@.frames.len(),
            stats.dirty_pages == count_dirty(self@.frames),
    {
        let mut dirty: usize = 0;
        proof {
            assert(self@.frames.take(0) =~= Seq::empty());
        }
        for i in 0..self.frames.len()
            invariant
                dirty == count_dirty(self@.frames.take(i as int)),
                dirty <= i,
                self@.frames.len() == self.frames@.len(),
        {
            proof {
                assert(self@.frames.take(i + 1).drop_last() =~= self@.frames.take(i as int));
                assert(self@.frames.take(i + 1).last() == self.frames@[i as int].spec_view());
            }
            if self.frames[i].dirty.is_some() {
                dirty = dirty + 1;
            }
        }
        proof {
            assert(self@.frames.take(self.frames@.len() as int) =~= self@.frames);
        }
        BufferPoolStats { resident_pages: self.frames.len(), dirty_pages: dirty }
    }

    /// What well-formedness says about the contents.
    pub proof fn lemma_wf(&self)
        requires
            self.wf(),
        ensures
            page::page_size_ok(self@.page_size),
            self@.frames.len() <= usize::MAX,
            forall|i: int| 0 <= i < self@.frames.len() ==> (#[trigger] self@.frames[i]).page.wf(),
    {
        assert(self.frames@.len() == self.frames.len());
        assert forall|i: int| 0 <= i < self@.frames.len() implies (#[trigger] self@.frames[i]).page.wf() by {
            assert(self.frames@[i].page.wf());
            self.frames@[i].page.lemma_wf();
        }
    }

    /// A pool without pages.
    pub fn new(page_size: usize) -> (r: Result<BufferPool>)
        ensures
            match r {
                Ok(pool) => {
                    &&& page::page_size_ok(page_size as nat)
                    &&& pool.wf()
                    &&& pool@ == (PoolView { page_size: page_size as nat, frames: Seq::empty() })
                },
                Err(e) => !page::page_size_ok(page_size as nat) && e == page::page_size_error(page_size),
            },
    {
        page::validate_page_size(page_size)?;
        let pool = BufferPool { page_size, frames: Vec::new() };
        proof {
            assert(pool@.frames =~= Seq::empty());
        }
        Ok(pool)
    }

    pub fn page_count(&self) -> (count: usize)
        ensures
            count == self@.frames.len(),
    {
        self.frames.len()
    }

    pub fn page_size(&self) -> (size: usize)
        ensures
            size == self@.page_size,
    {
        self.page_size
    }

    fn index_of(&self, id: PageId) -> (r: Result<usize>)
        ensures
            match r {
                Ok(i) => self@.locate(id) == Ok::<int, Error>(i as int) && i < self.frames@.len() && i == id.0 - 1,
                Err(e) => self@.locate(id) == Err::<int, Error>(e),
            },
    {
        if id.0 == 0 {
            return Err(Error::CorruptPage("page id zero is invalid"));
        }
        if id.0 > self.frames.len() as u64 {
            return Err(Error::CorruptPage("page is not allocated"));
        }
        Ok((id.0 - 1) as usize)
    }

    /// A page.
    pub fn pin(&self, id: PageId) -> (r: Result<&Page>)
        ensures
            match r {
                Ok(page) => self@.page(id) == Ok::<PageView, Error>(page@) && (self.wf() ==> page.wf()),
                Err(e) => self@.page(id) == Err::<PageView, Error>(e),
            },
    {
        let i: usize = self.index_of(id)?;
        let frame = &self.frames[i];
        proof {
            assert(self@.frames[i as int] == frame.spec_view());
        }
        Ok(&frame.page)
    }

    /// Replaces the contents of a page.
    pub fn put(&mut self, id: PageId, page: Page) -> (r: Result<()>)
        requires
            old(self).wf(),
            page.wf(),
        ensures
            final(self).wf(),
            match r {
                Ok(_) => old(self)@.has(id) && final(self)@ == old(self)@.put(id, page@),
                Err(e) => old(self)@.page(id) == Err::<PageView, Error>(e) && final(self)@ == old(self)@,
            },
    {
        let i: usize = self.index_of(id)?;
        let dirty = self.frames[i].dirty;
        self.frames.set(i, Frame { page, dirty });
        proof {
            assert(self@.frames =~= old(self)@.put(id, page@).frames);
        }
        Ok(())
    }

    /// Notes that a page must not be written before `lsn` is durable.
    pub fn mark_dirty(&mut self, id: PageId, lsn: Lsn) -> (r: Result<()>)
        requires
            old(self).wf(),
        ensures
            final(self).wf(),
            match r {
                Ok(_) => old(self)@.has(id) && final(self)@ == old(self)@.dirtied(id, lsn),
                Err(e) => old(self)@.page(id) == Err::<PageView, Error>(e) && final(self)@ == old(self)@,
            },
    {
        let i: usize = self.index_of(id)?;
        let page = self.frames[i].page.duplicate();
        proof {
            assert(self.frames@[i as int].page.wf());
        }
        self.frames.set(i, Frame { page, dirty: Some(lsn) });
        proof {
            assert(self@.frames =~= old(self)@.dirtied(id, lsn).frames);
        }
        Ok(())
    }

    /// Adds an empty page.
    pub fn allocate(&mut self, kind: PageKind, rel_id: RelId) -> (r: Result<PageId>)
        requires
            old(self).wf(),
        ensures
            final(self).wf(),
            match r {
                Ok(id) => {
                    &&& old(self)@.can_grow()
                    &&& id == old(self)@.next_id()
                    &&& id.0 == old(self)@.frames.len() + 1
                    &&& final(self)@ == old(self)@.grown(kind, rel_id)
                },
                Err(e) => {
                    &&& !old(self)@.can_grow()
                    &&& e == Error::CorruptPage("page file is full")
                    &&& final(self)@ == old(self)@
                },
            },
    {
        if self.frames.len() >= usize::MAX - 1 {
            return Err(Error::CorruptPage("page file is full"));
        }
        let id = PageId((self.frames.len() + 1) as u64);
        let page = Page::new(self.page_size, kind, id, rel_id)?;
        self.frames.push(Frame { page, dirty: None });
        proof {
            assert(self@.frames =~= old(self)@.grown(kind, rel_id).frames);
        }
        Ok(id)
    }

    /// Writes a page where its id says, growing the file as far as needed.
    pub fn write_page_direct(&mut self, page: Page) -> (r: Result<()>)
        requires
            old(self).wf(),
            page.wf(),
        ensures
            final(self).wf(),
            match r {
                Ok(_) => {
                    &&& page@.size == old(self)@.page_size
                    &&& 0 < page@.page_id.0 < usize::MAX
                    &&& final(self)@ == old(self)@.written(page@)
                },
                Err(e) => {
                    &&& final(self)@ == old(self)@
                    &&& if page@.size != old(self)@.page_size {
                        e == (Error::BufferTooSmall {
                            needed: old(self)@.page_size as usize,
                            actual: page@.size as usize,
                        })
                    } else if page@.page_id.0 == 0 {
                        e == Error::CorruptPage("page id zero is invalid")
                    } else {
                        page@.page_id.0 >= usize::MAX && e == Error::CorruptPage("page file is full")
                    }
                },
            },
    {
        if page.size() != self.page_size {
            return Err(Error::BufferTooSmall { needed: self.page_size, actual: page.size() });
        }
        let info = page.info();
        if info.page_id.0 == 0 {
            return Err(Error::CorruptPage("page id zero is invalid"));
        }
        if info.page_id.0 >= usize::MAX as u64 {
            return Err(Error::CorruptPage("page file is full"));
        }
        let count: usize = info.page_id.0 as usize;
        while self.frames.len() < count
            invariant
                self.wf(),
                count < usize::MAX,
                self@.stretched(count as nat) == old(self)@.stretched(count as nat),
                self@.page_size == old(self)@.page_size,
            decreases count - self@.frames.len(),
        {
            self.allocate(PageKind::Heap, RelId(0))?;
        }
        self.put(info.page_id, page)?;
        self.mark_dirty(info.page_id, info.page_lsn)?;
        Ok(())
    }

    /// The pages that may be written once the log is durable up to `durable`.
    pub fn flushable(&self, durable: Lsn) -> (ids: Vec<PageId>)
        ensures
            forall|k: int| 0 <= k < ids@.len() ==> self@.has(#[trigger] ids@[k]),
            forall|id: PageId|
                self@.has(id) ==> (ids@.contains(id) <==> (#[trigger] self@.frames[id.0 - 1]).may_flush(durable)),
    {
        let mut ids: Vec<PageId> = Vec::new();
        let mut i: usize = 0;
        while i < self.frames.len()
            invariant
                i <= self.frames@.len(),
                forall|k: int| 0 <= k < ids@.len() ==> 1 <= (#[trigger] ids@[k]).0 <= i,
                forall|id: PageId|
                    1 <= id.0 <= i ==> (ids@.contains(id) <==> (#[trigger] self@.frames[id.0 - 1]).may_flush(durable)),
            decreases self.frames@.len() - i,
        {
            let ghost before = ids@;
            let id = PageId(i as u64 + 1);
            proof {
                assert(self@.frames[i as int] == self.frames@[i as int].spec_view());
            }
            if let Some(lsn) = self.frames[i].dirty {
                if lsn.0 <= durable.0 {
                    ids.push(id);
                    proof {
                        assert(ids@[ids@.len() - 1] == id);
                        assert forall|other: PageId| other != id implies ids@.contains(other) == before.contains(other) by {
                            if before.contains(other) {
                                let k = choose|k: int| 0 <= k < before.len() && before[k] == other;
                                assert(ids@[k] == other);
                            }
                        }
                    }
                }
            }
            i = i + 1;
        }
        ids
    }
}

} // verus!
