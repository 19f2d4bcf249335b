//! Slotted pages: a special area for the page's owner and a list of cells.
use crate::error::{Error, Result};
use crate::format::bytes;
use crate::format::image;
use crate::format::{Lsn, PageGeneration, PageId, RelId};
use vstd::prelude::*;

verus! {

/// Bytes at the start of a page image that are not the owner's.
pub const PAGE_HEADER_LEN: usize = 48;

/// Bytes that a cell takes besides its own.
pub const SLOT_LEN: usize = 4;

/// The page size of a database that does not choose one.
pub const DEFAULT_PAGE_SIZE: usize = 8192;

/// The largest page that two-byte lengths can describe.
pub const MAX_PAGE_SIZE: usize = 65535;

/// Whether a page file can have pages of this size: room for one slot, and lengths in two bytes.
pub open spec fn page_size_ok(size: nat) -> bool {
    PAGE_HEADER_LEN + SLOT_LEN <= size <= MAX_PAGE_SIZE
}

/// Why a page file cannot have pages of this size.
pub open spec fn page_size_error(size: usize) -> Error {
    if size < PAGE_HEADER_LEN + SLOT_LEN {
        Error::BufferTooSmall { needed: (PAGE_HEADER_LEN + SLOT_LEN) as usize, actual: size }
    } else {
        Error::CorruptPage("page size exceeds on-page u16 bounds")
    }
}

/// Checks that a page file can have pages of this size.
pub fn validate_page_size(page_size: usize) -> (r: Result<()>)
    ensures
        match r {
            Ok(_) => page_size_ok(page_size as nat),
            Err(e) => !page_size_ok(page_size as nat) && e == page_size_error(page_size),
        },
{
    if page_size < PAGE_HEADER_LEN + SLOT_LEN {
        return Err(Error::BufferTooSmall { needed: PAGE_HEADER_LEN + SLOT_LEN, actual: page_size });
    }
    if page_size > MAX_PAGE_SIZE {
        return Err(Error::CorruptPage("page size exceeds on-page u16 bounds"));
    }
    Ok(())
}

/// What a page is used for.
#[derive(Clone, Copy, Debug, PartialEq, Eq, Structural)]
pub enum PageKind {
    Heap,
    BtreeMeta,
    BtreeLeaf,
    BtreeInternal,
}

impl PageKind {
    pub open spec fn code(self) -> u8 {
        match self {
            PageKind::Heap => 1,
            PageKind::BtreeMeta => 2,
            PageKind::BtreeLeaf => 3,
            PageKind::BtreeInternal => 4,
        }
    }

    pub open spec fn of_code(code: u8) -> Option<PageKind> {
        if code == 1 {
            Some(PageKind::Heap)
        } else if code == 2 {
            Some(PageKind::BtreeMeta)
        } else if code == 3 {
            Some(PageKind::BtreeLeaf)
        } else if code == 4 {
            Some(PageKind::BtreeInternal)
        } else {
            None
        }
    }

    fn to_code(self) -> (code: u8)
        ensures
            code == self.code(),
    {
        match self {
            PageKind::Heap => 1,
            PageKind::BtreeMeta => 2,
            PageKind::BtreeLeaf => 3,
            PageKind::BtreeInternal => 4,
        }
    }

    fn from_code(code: u8) -> (kind: Option<PageKind>)
        ensures
            kind == PageKind::of_code(code),
    {
        match code {
            1 => Some(PageKind::Heap),
            2 => Some(PageKind::BtreeMeta),
            3 => Some(PageKind::BtreeLeaf),
            4 => Some(PageKind::BtreeInternal),
            _ => None,
        }
    }
}

/// The contents of a page.
#[verifier::ext_equal]
pub struct PageView {
    pub size: nat,
    pub kind: PageKind,
    pub page_id: PageId,
    pub rel_id: RelId,
    pub generation: PageGeneration,
    pub page_lsn: Lsn,
    pub special: Seq<u8>,
    pub cells: Seq<Seq<u8>>,
}

/// Bytes that a list of cells takes, slots included.
pub open spec fn cells_len(cells: Seq<Seq<u8>>) -> nat
    decreases cells.len(),
{
    if cells.len() == 0 {
        0
    } else {
        cells_len(cells.drop_last()) + cells.last().len() + SLOT_LEN as nat
    }
}

/// The views of a list of byte vectors.
pub open spec fn cell_views(cells: Seq<Vec<u8>>) -> Seq<Seq<u8>> {
    Seq::new(cells.len(), |i: int| cells[i]@)
}

impl PageView {
    /// Bytes in use.
    pub open spec fn used(self) -> nat {
        PAGE_HEADER_LEN as nat + self.special.len() + cells_len(self.cells)
    }

    pub open spec fn wf(self) -> bool {
        self.size <= MAX_PAGE_SIZE && self.used() <= self.size
    }

    /// Whether a cell of `len` bytes still fits.
    pub open spec fn has_room(self, len: nat) -> bool {
        self.used() + len + SLOT_LEN <= self.size
    }

    /// The page with one more cell.
    pub open spec fn with_cell(self, cell: Seq<u8>) -> PageView {
        PageView { cells: self.cells.push(cell), ..self }
    }

    /// An empty page of the same size.
    pub open spec fn blank(
        self,
        kind: PageKind,
        page_id: PageId,
        rel_id: RelId,
        generation: PageGeneration,
        special_len: nat,
    ) -> PageView {
        PageView {
            size: self.size,
            kind,
            page_id,
            rel_id,
            generation,
            page_lsn: Lsn(0),
            special: Seq::new(special_len, |i: int| 0u8),
            cells: Seq::empty(),
        }
    }
}

/// A slotted page.
#[derive(Clone, Debug, PartialEq, Eq)]
pub struct Page {
    size: usize,
    kind: PageKind,
    page_id: PageId,
    rel_id: RelId,
    generation: PageGeneration,
    page_lsn: Lsn,
    special: Vec<u8>,
    cells: Vec<Vec<u8>>,
    used: usize,
}

/// The identifying part of a page.
#[derive(Clone, Copy, Debug, PartialEq, Eq, Structural)]
pub struct PageInfo {
    pub kind: PageKind,
    pub page_id: PageId,
    pub rel_id: RelId,
    pub generation: PageGeneration,
    pub page_lsn: Lsn,
}

impl View for Page {
    type V = PageView;

    closed spec fn view(&self) -> PageView {
        PageView {
            size: self.size as nat,
            kind: self.kind,
            page_id: self.page_id,
            rel_id: self.rel_id,
            generation: self.generation,
            page_lsn: self.page_lsn,
            special: self.special@,
            cells: cell_views(self.cells@),
        }
    }
}

impl Page {
    pub closed spec fn wf(self) -> bool {
        self@.wf() && self.used == self@.used()
    }

    pub proof fn lemma_wf(self)
        requires
            self.wf(),
        ensures
            self@.wf(),
    {
    }

    /// An empty page without a special area.
    pub fn new(size: usize, kind: PageKind, page_id: PageId, rel_id: RelId) -> (r: Result<Page>)
        ensures
            match r {
                Ok(page) => {
                    &&& PAGE_HEADER_LEN <= size <= MAX_PAGE_SIZE
                    &&& page.wf()
                    &&& page@ == fresh_page(size as nat, kind, page_id, rel_id, 0)
                },
                Err(e) => !(PAGE_HEADER_LEN <= size <= MAX_PAGE_SIZE) && e == size_error(size, 0),
            },
    {
        Page::new_with_special(size, kind, page_id, rel_id, 0)
    }

    /// An empty page with a zeroed special area.
    pub fn new_with_special(
        size: usize,
        kind: PageKind,
        page_id: PageId,
        rel_id: RelId,
        special_len: usize,
    ) -> (r: Result<Page>)
        requires
            special_len <= MAX_PAGE_SIZE,
        ensures
            match r {
                Ok(page) => {
                    &&& PAGE_HEADER_LEN + special_len <= size <= MAX_PAGE_SIZE
                    &&& page.wf()
                    &&& page@ == fresh_page(size as nat, kind, page_id, rel_id, special_len as nat)
                },
                Err(e) => {
                    &&& !(PAGE_HEADER_LEN + special_len <= size <= MAX_PAGE_SIZE)
                    &&& e == size_error(size, special_len)
                },
            },
    {
        if size > MAX_PAGE_SIZE {
            return Err(Error::CorruptPage("page size exceeds on-page u16 bounds"));
        }
        if size < PAGE_HEADER_LEN + special_len {
            return Err(Error::BufferTooSmall { needed: PAGE_HEADER_LEN + special_len, actual: size });
        }
        let mut special: Vec<u8> = Vec::new();
        bytes::push_zeros(&mut special, special_len);
        let page = Page {
            size,
            kind,
            page_id,
            rel_id,
            generation: PageGeneration(1),
            page_lsn: Lsn(0),
            special,
            cells: Vec::new(),
            used: PAGE_HEADER_LEN + special_len,
        };
        proof {
            assert(page@.special =~= Seq::new(special_len as nat, |i: int| 0u8));
            assert(page@.cells =~= Seq::empty());
            assert(page@ =~= fresh_page(size as nat, kind, page_id, rel_id, special_len as nat));
        }
        Ok(page)
    }

    /// Empties the page and gives it a zeroed special area of `special_len` bytes.
    pub fn reinitialize_with_special(
        &mut self,
        kind: PageKind,
        page_id: PageId,
        rel_id: RelId,
        generation: PageGeneration,
        special_len: usize,
    ) -> (r: Result<()>)
        requires
            old(self).wf(),
            special_len <= MAX_PAGE_SIZE,
        ensures
            final(self).wf(),
            match r {
                Ok(_) => {
                    &&& PAGE_HEADER_LEN + special_len <= old(self)@.size
                    &&& final(self)@ == old(self)@.blank(kind, page_id, rel_id, generation, special_len as nat)
                },
                Err(e) => {
                    &&& PAGE_HEADER_LEN + special_len > old(self)@.size
                    &&& final(self)@ == old(self)@
                    &&& e == (Error::BufferTooSmall {
                        needed: (PAGE_HEADER_LEN + special_len) as usize,
                        actual: old(self)@.size as usize,
                    })
                },
            },
    {
        if self.size < PAGE_HEADER_LEN + special_len {
            return Err(
                Error::BufferTooSmall { needed: PAGE_HEADER_LEN + special_len, actual: self.size },
            );
        }
        let mut special: Vec<u8> = Vec::new();
        bytes::push_zeros(&mut special, special_len);
        self.kind = kind;
        self.page_id = page_id;
        self.rel_id = rel_id;
        self.generation = generation;
        self.page_lsn = Lsn(0);
        self.special = special;
        self.cells = Vec::new();
        self.used = PAGE_HEADER_LEN + special_len;
        proof {
            assert(self@.special =~= Seq::new(special_len as nat, |i: int| 0u8));
            assert(self@.cells =~= Seq::empty());
            assert(self@ =~= old(self)@.blank(kind, page_id, rel_id, generation, special_len as nat));
        }
        Ok(())
    }

    /// Appends a cell.
    pub fn insert_cell(&mut self, cell: &[u8]) -> (r: Result<()>)
        requires
            old(self).wf(),
        ensures
            final(self).wf(),
            match r {
                Ok(_) => old(self)@.has_room(cell@.len()) && final(self)@ == old(self)@.with_cell(cell@),
                Err(e) => !old(self)@.has_room(cell@.len()) && final(self)@ == old(self)@ && e == Error::PageFull,
            },
    {
        let free: usize = self.size - self.used;
        if free < SLOT_LEN || cell.len() > free - SLOT_LEN {
            return Err(Error::PageFull);
        }
        let copy: Vec<u8> = bytes::copy_bytes(cell);
        self.cells.push(copy);
        self.used = self.used + cell.len() + SLOT_LEN;
        proof {
            assert(self@.cells =~= old(self)@.cells.push(cell@));
            assert(self@.cells.drop_last() =~= old(self)@.cells);
            assert(self@ =~= old(self)@.with_cell(cell@));
        }
        Ok(())
    }

    /// Replaces the special area by one of the same length.
    pub fn set_special(&mut self, special: Vec<u8>)
        requires
            old(self).wf(),
            special@.len() == old(self)@.special.len(),
        ensures
            final(self).wf(),
            final(self)@ == (PageView { special: special@, ..old(self)@ }),
    {
        self.special = special;
        proof {
            assert(self@ =~= (PageView { special: special@, ..old(self)@ }));
        }
    }

    /// Overwrites part of the special area.
    pub fn write_special(&mut self, offset: usize, data: &[u8]) -> (r: Result<()>)
        requires
            old(self).wf(),
            offset + data@.len() <= usize::MAX,
        ensures
            final(self).wf(),
            match r {
                Ok(_) => {
                    &&& offset + data@.len() <= old(self)@.special.len()
                    &&& final(self)@ == (PageView {
                        special: old(self)@.special.subrange(0, offset as int) + data@
                            + old(self)@.special.subrange(
                            offset + data@.len(),
                            old(self)@.special.len() as int,
                        ),
                        ..old(self)@
                    })
                },
                Err(e) => {
                    &&& offset + data@.len() > old(self)@.special.len()
                    &&& final(self)@ == old(self)@
                    &&& e == (Error::BufferTooSmall {
                        needed: (offset + data@.len()) as usize,
                        actual: old(self)@.special.len() as usize,
                    })
                },
            },
    {
        let len: usize = self.special.len();
        if offset + data.len() > len {
            return Err(Error::BufferTooSmall { needed: offset + data.len(), actual: len });
        }
        let mut special: Vec<u8> = bytes::copy_range(self.special.as_slice(), 0, offset);
        bytes::push_bytes(&mut special, data);
        let tail: Vec<u8> = bytes::copy_range(self.special.as_slice(), offset + data.len(), len);
        bytes::push_bytes(&mut special, tail.as_slice());
        self.set_special(special);
        Ok(())
    }

    pub fn info(&self) -> (info: PageInfo)
        ensures
            info == (PageInfo {
                kind: self@.kind,
                page_id: self@.page_id,
                rel_id: self@.rel_id,
                generation: self@.generation,
                page_lsn: self@.page_lsn,
            }),
    {
        PageInfo {
            kind: self.kind,
            page_id: self.page_id,
            rel_id: self.rel_id,
            generation: self.generation,
            page_lsn: self.page_lsn,
        }
    }

    pub fn size(&self) -> (size: usize)
        ensures
            size == self@.size,
    {
        self.size
    }

    pub fn special_bytes(&self) -> (special: &[u8])
        ensures
            special@ == self@.special,
    {
        self.special.as_slice()
    }

    pub fn slot_count(&self) -> (count: usize)
        ensures
            count == self@.cells.len(),
    {
        self.cells.len()
    }

    pub fn cell(&self, slot: usize) -> (cell: &[u8])
        requires
            slot < self@.cells.len(),
        ensures
            cell@ == self@.cells[slot as int],
    {
        self.cells[slot].as_slice()
    }

    pub fn set_page_lsn(&mut self, lsn: Lsn)
        ensures
            old(self).wf() ==> final(self).wf(),
            final(self)@ == (PageView { page_lsn: lsn, ..old(self)@ }),
    {
        self.page_lsn = lsn;
        proof {
            assert(self@ =~= (PageView { page_lsn: lsn, ..old(self)@ }));
        }
    }

    /// The byte image of the page.
    pub fn to_bytes(&self) -> (out: Vec<u8>)
        requires
            self.wf(),
        ensures
            out@ == image::page_image(self@),
            out@.len() == self@.size,
    {
        proof {
            image::lemma_page_image_len(self@);
            image::lemma_image_lens(self@.cells);
        }
        let mut out: Vec<u8> = Vec::new();
        bytes::push_le(&mut out, image::PAGE_MAGIC as u64, 4);
        bytes::push_le(&mut out, image::PAGE_VERSION as u64, 2);
        out.push(self.kind.to_code());
        out.push(0);
        bytes::push_le(&mut out, self.page_id.0, 8);
        bytes::push_le(&mut out, self.rel_id.0, 8);
        bytes::push_le(&mut out, self.page_lsn.0, 8);
        bytes::push_le(&mut out, self.generation.0 as u64, 4);
        bytes::push_le(&mut out, self.cells.len() as u64, 2);
        bytes::push_le(&mut out, self.special.len() as u64, 2);
        bytes::push_le(&mut out, 0, 8);
        proof {
            assert(out@ =~= image::header_image(self@));
        }
        bytes::push_bytes(&mut out, self.special.as_slice());
        let ghost head = out@;
        let mut i: usize = 0;
        while i < self.cells.len()
            invariant
                i <= self.cells@.len(),
                self@.cells == cell_views(self.cells@),
                out@ == head + image::slots_image(self@.cells.subrange(0, i as int)),
            decreases self.cells@.len() - i,
        {
            bytes::push_le(&mut out, self.cells[i].len() as u64, 4);
            proof {
                let now = self@.cells.subrange(0, i + 1);
                assert(now.drop_last() =~= self@.cells.subrange(0, i as int));
                assert(now.last() == self.cells@[i as int]@);
                assert(out@ =~= head + image::slots_image(now));
            }
            i = i + 1;
        }
        proof {
            assert(self@.cells.subrange(0, i as int) =~= self@.cells);
        }
        let ghost head = out@;
        let mut i: usize = 0;
        while i < self.cells.len()
            invariant
                i <= self.cells@.len(),
                self@.cells == cell_views(self.cells@),
                out@ == head + image::cells_image(self@.cells.subrange(0, i as int)),
            decreases self.cells@.len() - i,
        {
            bytes::push_bytes(&mut out, self.cells[i].as_slice());
            proof {
                let now = self@.cells.subrange(0, i + 1);
                assert(now.drop_last() =~= self@.cells.subrange(0, i as int));
                assert(now.last() == self.cells@[i as int]@);
                assert(out@ =~= head + image::cells_image(now));
            }
            i = i + 1;
        }
        proof {
            assert(self@.cells.subrange(0, i as int) =~= self@.cells);
            assert(out@ =~= image::content_image(self@));
        }
        bytes::push_zeros(&mut out, self.size);
        out
    }

    /// The page that a byte image stands for.
    pub fn from_bytes(data: Vec<u8>) -> (r: Result<Page>)
        ensures
            match r {
                Ok(page) => page.wf() && image::parse_image(data@) == Ok::<PageView, Error>(page@),
                Err(e) => image::parse_image(data@) == Err::<PageView, Error>(e),
            },
    {
        let view: &[u8] = data.as_slice();
        let size: usize = view.len();
        if size < PAGE_HEADER_LEN {
            return Err(Error::BufferTooSmall { needed: PAGE_HEADER_LEN, actual: size });
        }
        if size > MAX_PAGE_SIZE {
            return Err(Error::CorruptPage("page size exceeds on-page u16 bounds"));
        }
        if bytes::read_u32(view, 0)? != image::PAGE_MAGIC {
            return Err(Error::CorruptPage("page magic mismatch"));
        }
        let version: u16 = bytes::read_u16(view, 4)?;
        if version != image::PAGE_VERSION {
            return Err(Error::UnsupportedVersion(version));
        }
        let kind = match PageKind::from_code(view[6]) {
            Some(kind) => kind,
            None => return Err(Error::CorruptPage("unknown page kind")),
        };
        let page_id = PageId(bytes::read_u64(view, 8)?);
        let rel_id = RelId(bytes::read_u64(view, 16)?);
        let page_lsn = Lsn(bytes::read_u64(view, 24)?);
        let generation = PageGeneration(bytes::read_u32(view, 32)?);
        let count: usize = bytes::read_u16(view, 36)? as usize;
        let special_len: usize = bytes::read_u16(view, 38)? as usize;
        let slots: usize = PAGE_HEADER_LEN + special_len;
        let body: usize = slots + SLOT_LEN * count;
        if body > size {
            return Err(Error::CorruptPage("page slots overflow"));
        }
        let special: Vec<u8> = bytes::copy_range(view, PAGE_HEADER_LEN, slots);
        let (cells, used) = match read_cells(view, slots, body, count) {
            Some(found) => found,
            None => return Err(Error::CorruptPage("page cell overflow")),
        };
        let page = Page { size, kind, page_id, rel_id, generation, page_lsn, special, cells, used };
        Ok(page)
    }

    /// A copy of the page.
    pub fn duplicate(&self) -> (page: Page)
        ensures
            page@ == self@,
            self.wf() ==> page.wf(),
    {
        let mut cells: Vec<Vec<u8>> = Vec::new();
        let mut i: usize = 0;
        while i < self.cells.len()
            invariant
                i <= self.cells@.len(),
                cells@.len() == i,
                forall|j: int| 0 <= j < i ==> cells@[j]@ == self.cells@[j]@,
            decreases self.cells@.len() - i,
        {
            cells.push(bytes::copy_bytes(self.cells[i].as_slice()));
            i = i + 1;
        }
        let page = Page {
            size: self.size,
            kind: self.kind,
            page_id: self.page_id,
            rel_id: self.rel_id,
            generation: self.generation,
            page_lsn: self.page_lsn,
            special: bytes::copy_bytes(self.special.as_slice()),
            cells,
            used: self.used,
        };
        proof {
            assert(page@.cells =~= self@.cells);
            assert(page@ =~= self@);
        }
        page
    }
}

/// The cells of an image, and where they end.
fn read_cells(view: &[u8], slots: usize, body: usize, count: usize) -> (r: Option<(Vec<Vec<u8>>, usize)>)
    requires
        view@.len() <= MAX_PAGE_SIZE,
        body == slots + SLOT_LEN * count,
        body <= view@.len(),
    ensures
        match r {
            None => image::parse_cells(view@, slots as int, body as int, count as nat) is None,
            Some((cells, end)) => {
                &&& image::parse_cells(view@, slots as int, body as int, count as nat) == Some(cell_views(cells@))
                &&& end == slots + cells_len(cell_views(cells@))
                &&& end <= view@.len()
            },
        },
{
    let size: usize = view.len();
    let mut cells: Vec<Vec<u8>> = Vec::new();
    let mut at: usize = body;
    let mut i: usize = 0;
    proof {
        assert(cell_views(cells@) =~= Seq::empty());
        let whole = image::parse_cells(view@, slots as int, body as int, count as nat);
        assert(whole matches Some(rest) ==> cell_views(cells@) + rest =~= rest);
    }
    while i < count
        invariant
            i <= count,
            size == view@.len(),
            size <= MAX_PAGE_SIZE,
            body == slots + SLOT_LEN * count,
            body <= at <= size,
            cells@.len() == i,
            at == body + cells_len(cell_views(cells@)) - SLOT_LEN * i,
            match image::parse_cells(view@, slots as int, body as int, count as nat) {
                None => image::parse_cells(view@, slots + SLOT_LEN * i, at as int, (count - i) as nat) is None,
                Some(all) => image::parse_cells(view@, slots + SLOT_LEN * i, at as int, (count - i) as nat) matches Some(
                    rest,
                ) && all == cell_views(cells@) + rest,
            },
        decreases count - i,
    {
        let len: usize = match bytes::read_u32(view, slots + SLOT_LEN * i) {
            Ok(len) => len as usize,
            Err(_) => return None,
        };
        if len > size - at {
            return None;
        }
        let cell: Vec<u8> = bytes::copy_range(view, at, at + len);
        let ghost before = cell_views(cells@);
        let ghost tail = image::parse_cells(view@, slots + SLOT_LEN * i, at as int, (count - i) as nat);
        let ghost next = image::parse_cells(view@, slots + SLOT_LEN * (i + 1), at + len, (count - i - 1) as nat);
        proof {
            assert(slots + SLOT_LEN * i + 4 == slots + SLOT_LEN * (i + 1));
            assert(tail == match next {
                None => None,
                Some(rest) => Some(seq![cell@] + rest),
            });
        }
        cells.push(cell);
        proof {
            assert(cell_views(cells@) =~= before.push(cell@));
            assert(cell_views(cells@).drop_last() =~= before);
            if next is Some {
                assert(before + (seq![cell@] + next->0) =~= cell_views(cells@) + next->0);
            }
        }
        at = at + len;
        i = i + 1;
    }
    proof {
        assert(cell_views(cells@) + Seq::<Seq<u8>>::empty() =~= cell_views(cells@));
    }
    Some((cells, at))
}

/// A page with nothing in it.
pub open spec fn fresh_page(size: nat, kind: PageKind, page_id: PageId, rel_id: RelId, special_len: nat) -> PageView {
    PageView {
        size,
        kind,
        page_id,
        rel_id,
        generation: PageGeneration(1),
        page_lsn: Lsn(0),
        special: Seq::new(special_len, |i: int| 0u8),
        cells: Seq::empty(),
    }
}

/// Why a page of this size cannot be made.
pub open spec fn size_error(size: usize, special_len: usize) -> Error {
    if size > MAX_PAGE_SIZE {
        Error::CorruptPage("page size exceeds on-page u16 bounds")
    } else {
        Error::BufferTooSmall { needed: (PAGE_HEADER_LEN + special_len) as usize, actual: size }
    }
}

} // verus!
