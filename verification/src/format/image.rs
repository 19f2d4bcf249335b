//! The byte image of a page, as it stands in the page file and in log records.
//!
//! An image is the page header, the special area, one slot per cell, the cells one after the
//! other, and zeros up to the page size.
use crate::error::{Error, Result};
use crate::format::bytes;
use crate::format::page;
use crate::format::page::{PageKind, PageView, MAX_PAGE_SIZE, PAGE_HEADER_LEN, SLOT_LEN};
use crate::format::{Lsn, PageGeneration, PageId, RelId};
use vstd::prelude::*;

verus! {

pub const PAGE_MAGIC: u32 = 0x5244_5047;

pub const PAGE_VERSION: u16 = 1;

/// The fixed header of a page image.
pub open spec fn header_image(p: PageView) -> Seq<u8> {
    bytes::le_bytes(PAGE_MAGIC as nat, 4) + bytes::le_bytes(PAGE_VERSION as nat, 2) + seq![p.kind.code(), 0u8]
        + bytes::le_bytes(p.page_id.0 as nat, 8) + bytes::le_bytes(p.rel_id.0 as nat, 8)
        + bytes::le_bytes(p.page_lsn.0 as nat, 8) + bytes::le_bytes(p.generation.0 as nat, 4)
        + bytes::le_bytes(p.cells.len(), 2) + bytes::le_bytes(p.special.len(), 2)
        + bytes::le_bytes(0, 8)
}

/// One slot per cell: the cell's length and two bytes of zero.
pub open spec fn slots_image(cells: Seq<Seq<u8>>) -> Seq<u8>
    decreases cells.len(),
{
    if cells.len() == 0 {
        Seq::empty()
    } else {
        slots_image(cells.drop_last()) + bytes::le_bytes(cells.last().len(), 4)
    }
}

/// The cells one after the other.
pub open spec fn cells_image(cells: Seq<Seq<u8>>) -> Seq<u8>
    decreases cells.len(),
{
    if cells.len() == 0 {
        Seq::empty()
    } else {
        cells_image(cells.drop_last()) + cells.last()
    }
}

/// The part of an image that holds something.
pub open spec fn content_image(p: PageView) -> Seq<u8> {
    header_image(p) + p.special + slots_image(p.cells) + cells_image(p.cells)
}

/// The whole image of a page.
pub open spec fn page_image(p: PageView) -> Seq<u8> {
    content_image(p) + Seq::new((p.size - content_image(p).len()) as nat, |i: int| 0u8)
}

/// The cells of the lengths given by the slots at `slot`, read from `at` on; `None` where the
/// image ends before them.
pub open spec fn parse_cells(image: Seq<u8>, slot: int, at: int, count: nat) -> Option<Seq<Seq<u8>>>
    decreases count,
{
    if count == 0 {
        Some(Seq::empty())
    } else {
        let len = bytes::le_value(image.subrange(slot, slot + 4));
        if at + len > image.len() {
            None
        } else {
            match parse_cells(image, slot + 4, at + len, (count - 1) as nat) {
                None => None,
                Some(rest) => Some(seq![image.subrange(at, at + len)] + rest),
            }
        }
    }
}

/// The page that an image stands for.
pub open spec fn parse_image(image: Seq<u8>) -> Result<PageView> {
    if image.len() < PAGE_HEADER_LEN {
        Err(Error::BufferTooSmall { needed: PAGE_HEADER_LEN, actual: image.len() as usize })
    } else if image.len() > MAX_PAGE_SIZE {
        Err(Error::CorruptPage("page size exceeds on-page u16 bounds"))
    } else if bytes::le_value(image.subrange(0, 4)) != PAGE_MAGIC {
        Err(Error::CorruptPage("page magic mismatch"))
    } else if bytes::le_value(image.subrange(4, 6)) != PAGE_VERSION {
        Err(Error::UnsupportedVersion(bytes::le_value(image.subrange(4, 6)) as u16))
    } else {
        match PageKind::of_code(image[6]) {
            None => Err(Error::CorruptPage("unknown page kind")),
            Some(kind) => {
                let count = bytes::le_value(image.subrange(36, 38));
                let special_len = bytes::le_value(image.subrange(38, 40));
                let slots = PAGE_HEADER_LEN + special_len;
                let body = slots + SLOT_LEN * count;
                if body > image.len() {
                    Err(Error::CorruptPage("page slots overflow"))
                } else {
                    match parse_cells(image, slots, body, count) {
                        None => Err(Error::CorruptPage("page cell overflow")),
                        Some(cells) => Ok(
                            PageView {
                                size: image.len(),
                                kind,
                                page_id: PageId(bytes::le_value(image.subrange(8, 16)) as u64),
                                rel_id: RelId(bytes::le_value(image.subrange(16, 24)) as u64),
                                page_lsn: Lsn(bytes::le_value(image.subrange(24, 32)) as u64),
                                generation: PageGeneration(
                                    bytes::le_value(image.subrange(32, 36)) as u32,
                                ),
                                special: image.subrange(PAGE_HEADER_LEN as int, slots as int),
                                cells,
                            },
                        ),
                    }
                }
            },
        }
    }
}

pub proof fn lemma_image_lens(cells: Seq<Seq<u8>>)
    ensures
        slots_image(cells).len() == SLOT_LEN * cells.len(),
        cells_image(cells).len() + SLOT_LEN * cells.len() == page::cells_len(cells),
    decreases cells.len(),
{
    broadcast use bytes::lemma_le_bytes_len;

    if cells.len() > 0 {
        lemma_image_lens(cells.drop_last());
    }
}

/// The image of a page is as long as the page.
pub proof fn lemma_page_image_len(p: PageView)
    requires
        p.wf(),
    ensures
        header_image(p).len() == PAGE_HEADER_LEN,
        content_image(p).len() == p.used(),
        page_image(p).len() == p.size,
{
    broadcast use bytes::lemma_le_bytes_len;

    lemma_image_lens(p.cells);
}

/// A page image parses back to the page.
#[verifier::spinoff_prover]
#[verifier::rlimit(50)]
pub proof fn law_page_image_round_trips(p: PageView)
    requires
        p.wf(),
    ensures
        page_image(p).len() == p.size,
        parse_image(page_image(p)) == Ok::<PageView, Error>(p),
{
    broadcast use bytes::lemma_le_bytes_len;
    broadcast use bytes::lemma_le_value_of_bytes;

    lemma_page_image_len(p);
    lemma_image_lens(p.cells);
    bytes::lemma_pow256();
    let image = page_image(p);
    let n = p.cells.len();
    assert(image.subrange(0, 4) =~= bytes::le_bytes(PAGE_MAGIC as nat, 4));
    assert(image.subrange(4, 6) =~= bytes::le_bytes(PAGE_VERSION as nat, 2));
    assert(image[6] == p.kind.code());
    assert(image.subrange(8, 16) =~= bytes::le_bytes(p.page_id.0 as nat, 8));
    assert(image.subrange(16, 24) =~= bytes::le_bytes(p.rel_id.0 as nat, 8));
    assert(image.subrange(24, 32) =~= bytes::le_bytes(p.page_lsn.0 as nat, 8));
    assert(image.subrange(32, 36) =~= bytes::le_bytes(p.generation.0 as nat, 4));
    assert(image.subrange(36, 38) =~= bytes::le_bytes(n, 2));
    assert(image.subrange(38, 40) =~= bytes::le_bytes(p.special.len(), 2));
    let slots = PAGE_HEADER_LEN + p.special.len();
    assert(image.subrange(PAGE_HEADER_LEN as int, slots as int) =~= p.special);
    assert(image.subrange(slots as int, slots + SLOT_LEN * n) =~= slots_image(p.cells));
    let body = slots + SLOT_LEN * n;
    assert(image.subrange(body as int, body + cells_image(p.cells).len()) =~= cells_image(p.cells));
    lemma_parse_cells(image, slots as int, body as int, p.cells, 0);
    assert(p.cells.subrange(0, n as int) =~= p.cells);
}

/// Parsing from cell `k` on gives the cells from `k` on.
proof fn lemma_parse_cells(image: Seq<u8>, slots: int, body: int, cells: Seq<Seq<u8>>, k: int)
    requires
        0 <= k <= cells.len(),
        0 <= slots,
        0 <= body,
        slots + SLOT_LEN * cells.len() <= image.len(),
        body + cells_image(cells).len() <= image.len() <= MAX_PAGE_SIZE,
        image.subrange(slots, slots + SLOT_LEN * cells.len()) == slots_image(cells),
        image.subrange(body, body + cells_image(cells).len()) == cells_image(cells),
    ensures
        parse_cells(
            image,
            slots + SLOT_LEN * k,
            body + cells_image(cells.subrange(0, k)).len(),
            (cells.len() - k) as nat,
        ) == Some(cells.subrange(k, cells.len() as int)),
    decreases cells.len() - k,
{
    if k == cells.len() {
        assert(cells.subrange(k, cells.len() as int) =~= Seq::empty());
    } else {
        lemma_parse_cells(image, slots, body, cells, k + 1);
        lemma_cell_at(cells, k);
        let off = cells_image(cells.subrange(0, k)).len();
        let len = cells[k].len();
        let slot = slots + SLOT_LEN * k;
        assert(image.subrange(slot, slot + 4) =~= slots_image(cells).subrange(
            SLOT_LEN * k,
            SLOT_LEN * k + 4,
        ));
        bytes::lemma_pow256();
        bytes::lemma_le_value_of_bytes(len, 4);
        assert(image.subrange(body + off, body + off + len) =~= cells_image(cells).subrange(
            off as int,
            (off + len) as int,
        ));
        assert(cells.subrange(k, cells.len() as int) =~= seq![cells[k]] + cells.subrange(
            k + 1,
            cells.len() as int,
        ));
    }
}

/// Where slot and bytes of cell `k` stand.
proof fn lemma_cell_at(cells: Seq<Seq<u8>>, k: int)
    requires
        0 <= k < cells.len(),
    ensures
        SLOT_LEN * k + 4 <= slots_image(cells).len(),
        slots_image(cells).subrange(SLOT_LEN * k, SLOT_LEN * k + 4) == bytes::le_bytes(cells[k].len(), 4),
        cells_image(cells.subrange(0, k)).len() + cells[k].len() <= cells_image(cells).len(),
        cells_image(cells).subrange(
            cells_image(cells.subrange(0, k)).len() as int,
            (cells_image(cells.subrange(0, k)).len() + cells[k].len()) as int,
        ) == cells[k],
        cells_image(cells.subrange(0, k + 1)).len() == cells_image(cells.subrange(0, k)).len() + cells[k].len(),
    decreases cells.len(),
{
    broadcast use bytes::lemma_le_bytes_len;

    let init = cells.drop_last();
    lemma_image_lens(cells);
    lemma_image_lens(init);
    assert(cells.subrange(0, k + 1).drop_last() =~= cells.subrange(0, k));
    let off = cells_image(cells.subrange(0, k)).len() as int;
    let len = cells[k].len() as int;
    if k == cells.len() - 1 {
        assert(cells.subrange(0, k) =~= init);
        assert(cells_image(cells).subrange(off, off + len) =~= cells[k]);
        assert(slots_image(cells).subrange(SLOT_LEN * k, SLOT_LEN * k + 4) =~= bytes::le_bytes(
            cells[k].len(),
            4,
        ));
    } else {
        lemma_cell_at(init, k);
        assert(init.subrange(0, k) =~= cells.subrange(0, k));
        assert(slots_image(cells).subrange(SLOT_LEN * k, SLOT_LEN * k + 4) =~= slots_image(init).subrange(
            SLOT_LEN * k,
            SLOT_LEN * k + 4,
        ));
        assert(cells_image(cells).subrange(off, off + len) =~= cells_image(init).subrange(off, off + len));
    }
}

} // verus!
