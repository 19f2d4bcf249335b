//! Tree nodes on pages: the node header in the special area, one cell per entry.
use crate::error::{Error, Result};
use crate::format::bytes;
use crate::format::page::{Page, PageKind, PageView};
use crate::format::{PageGeneration, PageId};
use crate::index::cell;
use crate::index::cell::{Entry, EntryView};
use crate::index::{IndexId, IndexUniqueness};
use vstd::prelude::*;

verus! {

/// Bytes of the special area of an index page.
pub const INDEX_SPECIAL_LEN: usize = 256;

/// The version of the index page format.
pub const INDEX_VERSION: u16 = 2;

/// Marks the special area of an index page.
pub const INDEX_MAGIC: u32 = 0x5244_4958;

/// The node kind of a leaf.
pub const PAGE_LEAF_KIND: u8 = 2;

/// The node kind of an internal node.
pub const PAGE_INTERNAL_KIND: u8 = 3;

/// The node kind of the meta page.
pub const PAGE_META_KIND: u8 = 1;

/// Where the high key of a node starts in its special area.
pub const PAGE_HIGH_KEY_OFF: usize = 36;

/// The longest high key a node can hold.
pub const MAX_HIGH_KEY_LEN: usize = 220;

/// Written in place of a page id where there is no page.
pub const NO_PAGE: u64 = 0xffff_ffff_ffff_ffff;

/// The header of a node.
#[verifier::ext_equal]
pub struct HeaderView {
    pub kind: u8,
    pub level: u16,
    pub index_id: IndexId,
    pub left: Option<PageId>,
    pub right: Option<PageId>,
    pub high_key: Seq<u8>,
}

/// How an optional page id is written down.
pub open spec fn page_id_code(id: Option<PageId>) -> u64 {
    match id {
        Some(id) => id.0,
        None => NO_PAGE,
    }
}

/// What a written page id stands for.
pub open spec fn page_id_of(code: u64) -> Option<PageId> {
    if code == NO_PAGE {
        None
    } else {
        Some(PageId(code))
    }
}

/// `n`, or the largest machine size where `n` is larger.
pub open spec fn saturated(n: int) -> usize {
    if n <= usize::MAX {
        n as usize
    } else {
        usize::MAX
    }
}

/// `n` bytes of zero.
pub open spec fn zeros(n: int) -> Seq<u8> {
    Seq::new(n as nat, |i: int| 0u8)
}

impl HeaderView {
    /// The fixed part of the header.
    pub open spec fn fixed(self) -> Seq<u8> {
        bytes::le_bytes(INDEX_MAGIC as nat, 4) + bytes::le_bytes(INDEX_VERSION as nat, 2) + seq![self.kind, 0u8]
            + bytes::le_bytes(self.level as nat, 2) + bytes::le_bytes(self.index_id.0 as nat, 8)
            + bytes::le_bytes(page_id_code(self.left) as nat, 8)
            + bytes::le_bytes(page_id_code(self.right) as nat, 8)
            + bytes::le_bytes(self.high_key.len() % 65536, 2)
    }

    /// The special area that holds the header. A high key that does not fit is left out.
    pub open spec fn special(self) -> Seq<u8> {
        if self.high_key.len() <= MAX_HIGH_KEY_LEN {
            self.fixed() + self.high_key + zeros(MAX_HIGH_KEY_LEN - self.high_key.len())
        } else {
            self.fixed() + zeros(MAX_HIGH_KEY_LEN as int)
        }
    }

    /// Whether the header survives being written down.
    pub open spec fn encodable(self) -> bool {
        &&& self.high_key.len() <= MAX_HIGH_KEY_LEN
        &&& self.left != Some(PageId(NO_PAGE))
        &&& self.right != Some(PageId(NO_PAGE))
    }
}

/// The node header that a special area holds.
pub open spec fn parse_header(special: Seq<u8>) -> Result<HeaderView> {
    if special.len() < 34 {
        Err(Error::CorruptPage("index special header too small"))
    } else if special.len() < PAGE_HIGH_KEY_OFF {
        Err(Error::BufferTooSmall { needed: PAGE_HIGH_KEY_OFF, actual: special.len() as usize })
    } else {
        let high_len = bytes::le_value(special.subrange(34, 36));
        if PAGE_HIGH_KEY_OFF + high_len > special.len() {
            Err(Error::CorruptPage("index high key overflow"))
        } else {
            Ok(
                HeaderView {
                    kind: special[6],
                    level: bytes::le_value(special.subrange(8, 10)) as u16,
                    index_id: IndexId(bytes::le_value(special.subrange(10, 18)) as u64),
                    left: page_id_of(bytes::le_value(special.subrange(18, 26)) as u64),
                    right: page_id_of(bytes::le_value(special.subrange(26, 34)) as u64),
                    high_key: special.subrange(PAGE_HIGH_KEY_OFF as int, PAGE_HIGH_KEY_OFF + high_len),
                },
            )
        }
    }
}

/// A node header is read back as it was written.
#[verifier::spinoff_prover]
#[verifier::rlimit(50)]
pub proof fn law_header_round_trips(h: HeaderView)
    requires
        h.encodable(),
    ensures
        h.special().len() == INDEX_SPECIAL_LEN,
        parse_header(h.special()) == Ok::<HeaderView, Error>(h),
{
    broadcast use bytes::lemma_le_bytes_len;
    broadcast use bytes::lemma_le_value_of_bytes;

    bytes::lemma_pow256();
    let s = h.special();
    assert(s[6] == h.kind);
    assert(s.subrange(8, 10) =~= bytes::le_bytes(h.level as nat, 2));
    assert(s.subrange(10, 18) =~= bytes::le_bytes(h.index_id.0 as nat, 8));
    assert(s.subrange(18, 26) =~= bytes::le_bytes(page_id_code(h.left) as nat, 8));
    assert(s.subrange(26, 34) =~= bytes::le_bytes(page_id_code(h.right) as nat, 8));
    assert(s.subrange(34, 36) =~= bytes::le_bytes(h.high_key.len(), 2));
    assert(s.subrange(PAGE_HIGH_KEY_OFF as int, PAGE_HIGH_KEY_OFF + h.high_key.len()) =~= h.high_key);
}

pub proof fn lemma_special_len(h: HeaderView)
    ensures
        h.special().len() == INDEX_SPECIAL_LEN,
{
    broadcast use bytes::lemma_le_bytes_len;

}

/// What the meta page says about the tree.
#[derive(Clone, Copy, Debug, PartialEq, Eq, Structural)]
pub struct MetaHeader {
    pub index_id: IndexId,
    pub root_page_id: PageId,
    pub root_level: u16,
    pub uniqueness: IndexUniqueness,
}

impl MetaHeader {
    /// The bytes of the special area that say something.
    pub open spec fn fixed(self) -> Seq<u8> {
        bytes::le_bytes(INDEX_MAGIC as nat, 4) + bytes::le_bytes(INDEX_VERSION as nat, 2) + seq![PAGE_META_KIND, 0u8]
            + bytes::le_bytes(self.index_id.0 as nat, 8) + bytes::le_bytes(self.root_page_id.0 as nat, 8)
            + bytes::le_bytes(self.root_level as nat, 2) + seq![
            if self.uniqueness == IndexUniqueness::Unique {
                1u8
            } else {
                0u8
            },
        ]
    }

    /// A special area of `len` bytes that holds the header.
    pub open spec fn special(self, len: int) -> Seq<u8> {
        self.fixed() + zeros(len - 27)
    }
}

/// The tree header that a special area holds.
pub open spec fn parse_meta(special: Seq<u8>) -> Result<MetaHeader> {
    if special.len() < 6 {
        Err(Error::BufferTooSmall { needed: 6, actual: special.len() as usize })
    } else if bytes::le_value(special.subrange(4, 6)) != INDEX_VERSION {
        Err(Error::UnsupportedVersion(bytes::le_value(special.subrange(4, 6)) as u16))
    } else if special.len() < 16 {
        Err(Error::BufferTooSmall { needed: 16, actual: special.len() as usize })
    } else if special.len() < 24 {
        Err(Error::BufferTooSmall { needed: 24, actual: special.len() as usize })
    } else if special.len() < 26 {
        Err(Error::BufferTooSmall { needed: 26, actual: special.len() as usize })
    } else if special.len() < 27 {
        Err(Error::BufferTooSmall { needed: 27, actual: special.len() as usize })
    } else if special[26] > 1 {
        Err(Error::CorruptPage("unknown uniqueness"))
    } else {
        Ok(
            MetaHeader {
                index_id: IndexId(bytes::le_value(special.subrange(8, 16)) as u64),
                root_page_id: PageId(bytes::le_value(special.subrange(16, 24)) as u64),
                root_level: bytes::le_value(special.subrange(24, 26)) as u16,
                uniqueness: if special[26] == 1 {
                    IndexUniqueness::Unique
                } else {
                    IndexUniqueness::NonUnique
                },
            },
        )
    }
}

/// A tree header is read back as it was written.
pub proof fn law_meta_round_trips(m: MetaHeader, len: int)
    requires
        len >= 27,
    ensures
        m.special(len).len() == len,
        parse_meta(m.special(len)) == Ok::<MetaHeader, Error>(m),
{
    broadcast use bytes::lemma_le_bytes_len;
    broadcast use bytes::lemma_le_value_of_bytes;

    bytes::lemma_pow256();
    let s = m.special(len);
    assert(s.subrange(4, 6) =~= bytes::le_bytes(INDEX_VERSION as nat, 2));
    assert(s.subrange(8, 16) =~= bytes::le_bytes(m.index_id.0 as nat, 8));
    assert(s.subrange(16, 24) =~= bytes::le_bytes(m.root_page_id.0 as nat, 8));
    assert(s.subrange(24, 26) =~= bytes::le_bytes(m.root_level as nat, 2));
}

/// The entry that a cell of a page of this kind holds.
pub open spec fn parse_cell(kind: PageKind, cell: Seq<u8>) -> Result<EntryView> {
    match kind {
        PageKind::BtreeLeaf => cell::parse_leaf_cell(cell),
        PageKind::BtreeInternal => cell::parse_internal_cell(cell),
        _ => Err(Error::CorruptPage("unsupported index page kind")),
    }
}

/// The entries of a list of cells, or the error of the first damaged one.
pub open spec fn parse_entries(kind: PageKind, cells: Seq<Seq<u8>>) -> Result<Seq<EntryView>>
    decreases cells.len(),
{
    if cells.len() == 0 {
        Ok(Seq::empty())
    } else {
        match parse_entries(kind, cells.drop_last()) {
            Err(e) => Err(e),
            Ok(entries) => match parse_cell(kind, cells.last()) {
                Err(e) => Err(e),
                Ok(entry) => Ok(entries.push(entry)),
            },
        }
    }
}

/// The entries of a page.
pub open spec fn entries_of(page: PageView) -> Result<Seq<EntryView>> {
    parse_entries(page.kind, page.cells)
}

/// The node header of a page.
pub open spec fn header_of(page: PageView) -> Result<HeaderView> {
    parse_header(page.special)
}

/// The cells of the entries of one kind, in order.
pub open spec fn cells_of(entries: Seq<EntryView>, leaf: bool) -> Seq<Seq<u8>>
    decreases entries.len(),
{
    if entries.len() == 0 {
        Seq::empty()
    } else if (entries.last() is Leaf) == leaf {
        cells_of(entries.drop_last(), leaf).push(entries.last().cell())
    } else {
        cells_of(entries.drop_last(), leaf)
    }
}

/// The page after appending cells until one does not fit.
pub open spec fn filled(page: PageView, cells: Seq<Seq<u8>>) -> (PageView, Result<()>)
    decreases cells.len(),
{
    if cells.len() == 0 {
        (page, Ok(()))
    } else {
        let (p, r) = filled(page, cells.drop_last());
        match r {
            Err(e) => (p, Err(e)),
            Ok(_) => if p.has_room(cells.last().len()) {
                (p.with_cell(cells.last()), Ok(()))
            } else {
                (p, Err(Error::PageFull))
            },
        }
    }
}

/// The kind of page that holds a node.
pub open spec fn node_page_kind(leaf: bool) -> PageKind {
    if leaf {
        PageKind::BtreeLeaf
    } else {
        PageKind::BtreeInternal
    }
}

/// The page after the node on it is replaced, and whether that went well.
pub open spec fn rewritten(page: PageView, leaf: bool, h: HeaderView, entries: Seq<EntryView>) -> (
    PageView,
    Result<()>,
) {
    if page.size < 304 {
        (page, Err(Error::BufferTooSmall { needed: 304, actual: page.size as usize }))
    } else {
        let blank = page.blank(
            node_page_kind(leaf),
            page.page_id,
            page.rel_id,
            PageGeneration(1),
            INDEX_SPECIAL_LEN as nat,
        );
        let headed = PageView { special: h.special(), ..blank };
        if h.high_key.len() > MAX_HIGH_KEY_LEN {
            (
                headed,
                Err(
                    Error::BufferTooSmall {
                        needed: saturated(PAGE_HIGH_KEY_OFF + h.high_key.len()),
                        actual: INDEX_SPECIAL_LEN,
                    },
                ),
            )
        } else {
            filled(headed, cells_of(entries, leaf))
        }
    }
}

/// What was filled in stays when an earlier cell did not fit.
proof fn lemma_filled_stops(page: PageView, cells: Seq<Seq<u8>>, k: int)
    requires
        0 <= k <= cells.len(),
        filled(page, cells.subrange(0, k)).1 is Err,
    ensures
        filled(page, cells) == filled(page, cells.subrange(0, k)),
    decreases cells.len() - k,
{
    if k == cells.len() {
        assert(cells.subrange(0, k) =~= cells);
    } else {
        assert(cells.subrange(0, k + 1).drop_last() =~= cells.subrange(0, k));
        lemma_filled_stops(page, cells, k + 1);
    }
}

/// The header of a node.
#[derive(Debug, PartialEq, Eq)]
pub struct PageHeader {
    pub kind: u8,
    pub level: u16,
    pub index_id: IndexId,
    pub left: Option<PageId>,
    pub right: Option<PageId>,
    pub high_key: Vec<u8>,
}

impl View for PageHeader {
    type V = HeaderView;

    open spec fn view(&self) -> HeaderView {
        HeaderView {
            kind: self.kind,
            level: self.level,
            index_id: self.index_id,
            left: self.left,
            right: self.right,
            high_key: self.high_key@,
        }
    }
}

fn encode_opt_page_id(id: Option<PageId>) -> (code: u64)
    ensures
        code == page_id_code(id),
{
    match id {
        Some(id) => id.0,
        None => NO_PAGE,
    }
}

fn decode_opt_page_id(code: u64) -> (id: Option<PageId>)
    ensures
        id == page_id_of(code),
{
    if code == NO_PAGE {
        None
    } else {
        Some(PageId(code))
    }
}

/// The node header of a page.
pub fn read_page_header(page: &Page) -> (r: Result<PageHeader>)
    ensures
        match r {
            Ok(h) => header_of(page@) == Ok::<HeaderView, Error>(h@),
            Err(e) => header_of(page@) == Err::<HeaderView, Error>(e),
        },
{
    let special: &[u8] = page.special_bytes();
    if special.len() < 34 {
        return Err(Error::CorruptPage("index special header too small"));
    }
    let kind: u8 = special[6];
    let level: u16 = bytes::read_u16(special, 8)?;
    let index_id = IndexId(bytes::read_u64(special, 10)?);
    let left = decode_opt_page_id(bytes::read_u64(special, 18)?);
    let right = decode_opt_page_id(bytes::read_u64(special, 26)?);
    let high_len: usize = bytes::read_u16(special, 34)? as usize;
    if PAGE_HIGH_KEY_OFF + high_len > special.len() {
        return Err(Error::CorruptPage("index high key overflow"));
    }
    let high_key: Vec<u8> = bytes::copy_range(special, PAGE_HIGH_KEY_OFF, PAGE_HIGH_KEY_OFF + high_len);
    Ok(PageHeader { kind, level, index_id, left, right, high_key })
}

fn header_special(h: &PageHeader) -> (out: Vec<u8>)
    ensures
        out@ == h@.special(),
        out@.len() == INDEX_SPECIAL_LEN,
{
    broadcast use bytes::lemma_le_bytes_len;

    let mut out: Vec<u8> = Vec::new();
    bytes::push_le(&mut out, INDEX_MAGIC as u64, 4);
    bytes::push_le(&mut out, INDEX_VERSION as u64, 2);
    out.push(h.kind);
    out.push(0);
    bytes::push_le(&mut out, h.level as u64, 2);
    bytes::push_le(&mut out, h.index_id.0, 8);
    bytes::push_le(&mut out, encode_opt_page_id(h.left), 8);
    bytes::push_le(&mut out, encode_opt_page_id(h.right), 8);
    bytes::push_le(&mut out, (h.high_key.len() % 65536) as u64, 2);
    proof {
        assert(out@ =~= h@.fixed());
    }
    if h.high_key.len() <= MAX_HIGH_KEY_LEN {
        bytes::push_bytes(&mut out, h.high_key.as_slice());
    }
    bytes::push_zeros(&mut out, INDEX_SPECIAL_LEN);
    proof {
        assert(out@ =~= h@.special());
    }
    out
}

/// The tree header of a page.
pub fn read_meta(page: &Page) -> (r: Result<MetaHeader>)
    ensures
        r == parse_meta(page@.special),
{
    let special: &[u8] = page.special_bytes();
    let version: u16 = bytes::read_u16(special, 4)?;
    if version != INDEX_VERSION {
        return Err(Error::UnsupportedVersion(version));
    }
    let index_id = IndexId(bytes::read_u64(special, 8)?);
    let root_page_id = PageId(bytes::read_u64(special, 16)?);
    let root_level: u16 = bytes::read_u16(special, 24)?;
    if special.len() < 27 {
        return Err(Error::BufferTooSmall { needed: 27, actual: special.len() });
    }
    let uniqueness = match special[26] {
        0 => IndexUniqueness::NonUnique,
        1 => IndexUniqueness::Unique,
        _ => return Err(Error::CorruptPage("unknown uniqueness")),
    };
    Ok(MetaHeader { index_id, root_page_id, root_level, uniqueness })
}

/// Writes the tree header into the special area of a page.
pub fn write_meta(page: &mut Page, meta: &MetaHeader) -> (r: Result<()>)
    requires
        old(page).wf(),
        old(page)@.special.len() >= 27,
    ensures
        final(page).wf(),
        final(page)@ == (PageView { special: meta.special(old(page)@.special.len() as int), ..old(page)@ }),
        r == (if old(page)@.special.len() >= 34 {
            Ok::<(), Error>(())
        } else {
            Err(Error::BufferTooSmall { needed: 34, actual: old(page)@.special.len() as usize })
        }),
{
    broadcast use bytes::lemma_le_bytes_len;

    let len: usize = page.special_bytes().len();
    let mut out: Vec<u8> = Vec::new();
    bytes::push_le(&mut out, INDEX_MAGIC as u64, 4);
    bytes::push_le(&mut out, INDEX_VERSION as u64, 2);
    out.push(PAGE_META_KIND);
    out.push(0);
    bytes::push_le(&mut out, meta.index_id.0, 8);
    bytes::push_le(&mut out, meta.root_page_id.0, 8);
    bytes::push_le(&mut out, meta.root_level as u64, 2);
    out.push(
        if meta.uniqueness == IndexUniqueness::Unique {
            1
        } else {
            0
        },
    );
    proof {
        assert(out@ =~= meta.fixed());
    }
    bytes::push_zeros(&mut out, len);
    proof {
        assert(out@ =~= meta.special(len as int));
    }
    page.set_special(out);
    if len < 34 {
        return Err(Error::BufferTooSmall { needed: 34, actual: len });
    }
    Ok(())
}

/// The entries of a page.
pub fn read_entries(page: &Page) -> (r: Result<Vec<Entry>>)
    ensures
        match r {
            Ok(entries) => entries_of(page@) == Ok::<Seq<EntryView>, Error>(cell::entry_views(entries@)),
            Err(e) => entries_of(page@) == Err::<Seq<EntryView>, Error>(e),
        },
{
    let kind = page.info().kind;
    let count: usize = page.slot_count();
    let mut entries: Vec<Entry> = Vec::new();
    let mut slot: usize = 0;
    proof {
        assert(cell::entry_views(entries@) =~= Seq::empty());
        assert(page@.cells.subrange(0, 0) =~= Seq::empty());
    }
    while slot < count
        invariant
            slot <= count,
            kind == page@.kind,
            count == page@.cells.len(),
            parse_entries(kind, page@.cells.subrange(0, slot as int)) == Ok::<Seq<EntryView>, Error>(
                cell::entry_views(entries@),
            ),
        decreases count - slot,
    {
        let ghost before = cell::entry_views(entries@);
        let found = match kind {
            PageKind::BtreeLeaf => Entry::decode_leaf(page.cell(slot)),
            PageKind::BtreeInternal => Entry::decode_internal(page.cell(slot)),
            _ => Err(Error::CorruptPage("unsupported index page kind")),
        };
        proof {
            assert(page@.cells.subrange(0, slot + 1).drop_last() =~= page@.cells.subrange(0, slot as int));
        }
        match found {
            Ok(entry) => {
                entries.push(entry);
                proof {
                    assert(cell::entry_views(entries@) =~= before.push(entry@));
                }
            },
            Err(e) => {
                proof {
                    lemma_parse_entries_stops(kind, page@.cells, slot + 1);
                }
                return Err(e);
            },
        }
        slot = slot + 1;
    }
    proof {
        assert(page@.cells.subrange(0, slot as int) =~= page@.cells);
    }
    Ok(entries)
}

/// The error of a damaged cell stands for the whole page.
proof fn lemma_parse_entries_stops(kind: PageKind, cells: Seq<Seq<u8>>, k: int)
    requires
        0 <= k <= cells.len(),
        parse_entries(kind, cells.subrange(0, k)) is Err,
    ensures
        parse_entries(kind, cells) == parse_entries(kind, cells.subrange(0, k)),
    decreases cells.len() - k,
{
    if k == cells.len() {
        assert(cells.subrange(0, k) =~= cells);
    } else {
        assert(cells.subrange(0, k + 1).drop_last() =~= cells.subrange(0, k));
        lemma_parse_entries_stops(kind, cells, k + 1);
    }
}

/// Replaces the node on a page.
pub fn rewrite_node(page: &mut Page, leaf: bool, h: &PageHeader, entries: &Vec<Entry>) -> (r: Result<()>)
    requires
        old(page).wf(),
    ensures
        final(page).wf(),
        (final(page)@, r) == rewritten(old(page)@, leaf, h@, cell::entry_views(entries@)),
{
    let info = page.info();
    let kind = if leaf {
        PageKind::BtreeLeaf
    } else {
        PageKind::BtreeInternal
    };
    page.reinitialize_with_special(kind, info.page_id, info.rel_id, PageGeneration(1), INDEX_SPECIAL_LEN)?;
    page.set_special(header_special(h));
    if h.high_key.len() > MAX_HIGH_KEY_LEN {
        return Err(
            Error::BufferTooSmall {
                needed: h.high_key.len().saturating_add(PAGE_HIGH_KEY_OFF),
                actual: INDEX_SPECIAL_LEN,
            },
        );
    }
    append_cells(page, leaf, entries)
}

/// Appends the cells of the entries of one kind.
fn append_cells(page: &mut Page, leaf: bool, entries: &Vec<Entry>) -> (r: Result<()>)
    requires
        old(page).wf(),
    ensures
        final(page).wf(),
        (final(page)@, r) == filled(old(page)@, cells_of(cell::entry_views(entries@), leaf)),
{
    let ghost headed = page@;
    let ghost all = cell::entry_views(entries@);
    let mut i: usize = 0;
    proof {
        assert(all.subrange(0, 0) =~= Seq::empty());
    }
    while i < entries.len()
        invariant
            i <= entries@.len(),
            page.wf(),
            headed == old(page)@,
            all == cell::entry_views(entries@),
            filled(headed, cells_of(all.subrange(0, i as int), leaf)) == (page@, Ok::<(), Error>(())),
        decreases entries@.len() - i,
    {
        proof {
            assert(all.subrange(0, i + 1).drop_last() =~= all.subrange(0, i as int));
            assert(all.subrange(0, i + 1).last() == entries@[i as int]@);
        }
        if entries[i].is_leaf() == leaf {
            let ghost so_far = cells_of(all.subrange(0, i as int), leaf);
            let cell: Vec<u8> = entries[i].encode();
            proof {
                assert(so_far.push(cell@).drop_last() =~= so_far);
            }
            match page.insert_cell(cell.as_slice()) {
                Ok(_) => {},
                Err(e) => {
                    proof {
                        lemma_cells_of_prefix(all, leaf, i + 1);
                        let cells = cells_of(all, leaf);
                        let n = cells_of(all.subrange(0, i + 1), leaf).len() as int;
                        lemma_filled_stops(headed, cells, n);
                    }
                    return Err(e);
                },
            }
        }
        i = i + 1;
    }
    proof {
        assert(all.subrange(0, i as int) =~= all);
    }
    Ok(())
}

/// The cells of the first entries are the first cells.
proof fn lemma_cells_of_prefix(entries: Seq<EntryView>, leaf: bool, k: int)
    requires
        0 <= k <= entries.len(),
    ensures
        cells_of(entries.subrange(0, k), leaf).len() <= cells_of(entries, leaf).len(),
        cells_of(entries, leaf).subrange(0, cells_of(entries.subrange(0, k), leaf).len() as int) == cells_of(
            entries.subrange(0, k),
            leaf,
        ),
    decreases entries.len() - k,
{
    if k == entries.len() {
        assert(entries.subrange(0, k) =~= entries);
        assert(cells_of(entries, leaf).subrange(0, cells_of(entries, leaf).len() as int) =~= cells_of(entries, leaf));
    } else {
        lemma_cells_of_prefix(entries, leaf, k + 1);
        assert(entries.subrange(0, k + 1).drop_last() =~= entries.subrange(0, k));
        let a = cells_of(entries.subrange(0, k), leaf);
        let b = cells_of(entries.subrange(0, k + 1), leaf);
        let c = cells_of(entries, leaf);
        assert(c.subrange(0, a.len() as int) =~= b.subrange(0, a.len() as int));
        assert(b.subrange(0, a.len() as int) =~= a);
    }
}

} // verus!
