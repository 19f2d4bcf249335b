//! What pages in memory guarantee.
use crate::error::Error;
use crate::format::page;
use crate::format::page::{PageKind, PageView, MAX_PAGE_SIZE, PAGE_HEADER_LEN, SLOT_LEN};
use crate::format::{Lsn, PageId, RelId};
use crate::io;
use crate::storage::buffer;
use crate::storage::buffer::{FrameView, PoolView};
use crate::storage::control;
use crate::storage::control::ControlFile;
use crate::storage::page_file;
use vstd::prelude::*;

verus! {

/// The pages of a pool are numbered from one on; zero is no page.
pub proof fn law_pages_are_numbered_from_one(pool: PoolView, id: PageId)
    ensures
        pool.page(id) is Ok <==> 1 <= id.0 <= pool.frames.len(),
        pool.page(id) is Ok ==> pool.page(id)->Ok_0 == pool.frames[id.0 - 1].page,
        id.0 == 0 ==> pool.page(id) == Err::<PageView, Error>(Error::CorruptPage("page id zero is invalid")),
        id.0 > pool.frames.len() ==> pool.page(id) == Err::<PageView, Error>(
            Error::CorruptPage("page is not allocated"),
        ),
{
}

/// A page that is put in place is read back, still waits for what it waited for, and no other page
/// changes.
pub proof fn law_page_is_replaced(pool: PoolView, id: PageId, page: PageView, other: PageId)
    requires
        pool.has(id),
    ensures
        pool.put(id, page).page(id) == Ok::<PageView, Error>(page),
        pool.put(id, page).frames[id.0 - 1].dirty == pool.frames[id.0 - 1].dirty,
        pool.put(id, page).frames.len() == pool.frames.len(),
        pool.put(id, page).page_size == pool.page_size,
        other != id ==> pool.put(id, page).page(other) == pool.page(other),
        other != id && pool.has(other) ==> pool.put(id, page).frames[other.0 - 1] == pool.frames[other.0 - 1],
{
}

/// A page that was changed by a log record may be written once the log is durable up to the end of the
/// record, and not before. Its contents and all other pages stay.
pub proof fn law_changed_page_waits_for_log(pool: PoolView, id: PageId, lsn: Lsn, durable: Lsn, other: PageId)
    requires
        pool.has(id),
    ensures
        pool.dirtied(id, lsn).frames[id.0 - 1].may_flush(durable) <==> lsn.0 <= durable.0,
        pool.dirtied(id, lsn).page(id) == pool.page(id),
        pool.dirtied(id, lsn).frames.len() == pool.frames.len(),
        pool.dirtied(id, lsn).page_size == pool.page_size,
        other != id && pool.has(other) ==> pool.dirtied(id, lsn).frames[other.0 - 1] == pool.frames[other.0 - 1],
{
}

/// A page that has not changed is not written, and one that may be written may still be written once
/// more of the log is durable.
pub proof fn law_unchanged_page_is_not_written(frame: FrameView, durable: Lsn, later: Lsn)
    requires
        durable.0 <= later.0,
    ensures
        frame.may_flush(durable) ==> frame.dirty is Some,
        frame.may_flush(durable) ==> frame.may_flush(later),
{
}

/// A new page is empty, says what it is, waits for nothing, and comes behind all others, which stay as
/// they are.
pub proof fn law_new_page_is_empty(pool: PoolView, kind: PageKind, rel_id: RelId, other: PageId)
    requires
        pool.can_grow(),
    ensures
        ({
            let after = pool.grown(kind, rel_id);
            let page = after.page(pool.next_id())->Ok_0;
            &&& pool.next_id().0 == pool.frames.len() + 1
            &&& after.frames.len() == pool.frames.len() + 1
            &&& after.page_size == pool.page_size
            &&& after.page(pool.next_id()) is Ok
            &&& page.kind == kind
            &&& page.rel_id == rel_id
            &&& page.page_id == pool.next_id()
            &&& page.size == pool.page_size
            &&& page.page_lsn == Lsn(0)
            &&& page.cells.len() == 0
            &&& page.special.len() == 0
            &&& after.frames[pool.frames.len() as int].dirty is None
            &&& pool.has(other) ==> after.frames[other.0 - 1] == pool.frames[other.0 - 1]
        }),
{
}

/// A page that is written back stands where its number says and waits for the log up to its own
/// position. The pages between are empty, and those that were there stay.
pub proof fn law_page_is_written_back(pool: PoolView, page: PageView, other: PageId, durable: Lsn)
    requires
        page.page_id.0 > 0,
    ensures
        ({
            let after = pool.written(page);
            &&& after.page(page.page_id) == Ok::<PageView, Error>(page)
            &&& after.frames[page.page_id.0 - 1].may_flush(durable) <==> page.page_lsn.0 <= durable.0
            &&& after.frames.len() >= pool.frames.len()
            &&& after.frames.len() == if page.page_id.0 > pool.frames.len() {
                page.page_id.0 as nat
            } else {
                pool.frames.len()
            }
            &&& other != page.page_id && pool.has(other) ==> after.frames[other.0 - 1] == pool.frames[other.0 - 1]
            &&& other != page.page_id && !pool.has(other) && after.has(other) ==> {
                &&& after.frames[other.0 - 1].dirty is None
                &&& after.frames[other.0 - 1].page.cells.len() == 0
                &&& after.frames[other.0 - 1].page.kind == PageKind::Heap
                &&& after.frames[other.0 - 1].page.page_id == other
            }
        }),
{
    lemma_stretched(pool, page.page_id.0 as nat);
}

proof fn lemma_stretched(pool: PoolView, n: nat)
    requires
        n <= u64::MAX,
    ensures
        ({
            let after = pool.stretched(n);
            &&& after.frames.len() == if n > pool.frames.len() {
                n
            } else {
                pool.frames.len()
            }
            &&& forall|i: int| 0 <= i < pool.frames.len() ==> #[trigger] after.frames[i] == pool.frames[i]
            &&& forall|i: int|
                pool.frames.len() <= i < after.frames.len() ==> {
                    let frame = #[trigger] after.frames[i];
                    &&& frame.dirty is None
                    &&& frame.page.cells.len() == 0
                    &&& frame.page.kind == PageKind::Heap
                    &&& frame.page.page_id.0 == i + 1
                }
        }),
    decreases n - pool.frames.len(),
{
    if pool.frames.len() < n {
        let next = pool.grown(PageKind::Heap, RelId(0));
        lemma_stretched(next, n);
        let after = pool.stretched(n);
        assert(after == next.stretched(n));
        assert(next.frames[pool.frames.len() as int] == after.frames[pool.frames.len() as int]);
        assert forall|i: int| 0 <= i < pool.frames.len() implies #[trigger] after.frames[i] == pool.frames[i] by {
            assert(next.frames[i] == pool.frames[i]);
        }
    }
}

/// The pages that wait to be written are counted one by one.
pub proof fn law_waiting_pages_are_counted(frames: Seq<FrameView>)
    ensures
        buffer::count_dirty(frames) == frames.filter(|f: FrameView| f.dirty is Some).len(),
    decreases frames.len(),
{
    reveal(Seq::filter);
    if frames.len() > 0 {
        law_waiting_pages_are_counted(frames.drop_last());
    }
}

/// A page has room for a cell exactly if it still fits its size with the cell and its slot. A cell that
/// is added comes behind the others, and nothing else changes.
pub proof fn law_cell_fits_if_it_has_room(p: PageView, cell: Seq<u8>)
    requires
        p.wf(),
    ensures
        p.has_room(cell.len()) <==> p.with_cell(cell).wf(),
        p.with_cell(cell).cells == p.cells.push(cell),
        p.with_cell(cell).used() == p.used() + cell.len() + SLOT_LEN,
        p.with_cell(cell).special == p.special,
        p.with_cell(cell).size == p.size,
        p.with_cell(cell).page_id == p.page_id,
        p.with_cell(cell).kind == p.kind,
        p.with_cell(cell).rel_id == p.rel_id,
        p.with_cell(cell).generation == p.generation,
        p.with_cell(cell).page_lsn == p.page_lsn,
{
    assert(p.with_cell(cell).cells.drop_last() =~= p.cells);
}

/// A page size is accepted exactly if an empty page of it has room for the slot of a cell, and its
/// lengths fit two bytes.
pub proof fn law_page_sizes_hold_a_slot(size: usize, id: PageId, rel_id: RelId)
    ensures
        page::page_size_ok(size as nat) <==> size <= MAX_PAGE_SIZE && page::fresh_page(
            size as nat,
            PageKind::Heap,
            id,
            rel_id,
            0,
        ).has_room(0),
        MAX_PAGE_SIZE < 65536,
        size < PAGE_HEADER_LEN + SLOT_LEN ==> page::page_size_error(size) == (Error::BufferTooSmall {
            needed: (PAGE_HEADER_LEN + SLOT_LEN) as usize,
            actual: size,
        }),
        size > MAX_PAGE_SIZE ==> page::page_size_error(size) == Error::CorruptPage(
            "page size exceeds on-page u16 bounds",
        ),
{
}

/// Pages of a file follow each other without gaps: the first starts at the front, and each one starts
/// where the one before it ends.
pub proof fn law_pages_follow_each_other(id: PageId, page_size: int)
    requires
        page_size >= 0,
        id.0 < u64::MAX,
    ensures
        page_file::page_offset(PageId(1), page_size) == 0,
        page_file::page_offset(PageId((id.0 + 1) as u64), page_size) == page_file::page_offset(id, page_size) + page_size,
        page_file::place_error(PageId(0), page_size) is Some,
        id.0 > 0 && page_file::page_offset(id, page_size) <= u64::MAX ==> page_file::place_error(id, page_size) is None,
{
    assert((1 - 1) * page_size == 0) by (nonlinear_arith);
    assert(id.0 * page_size == (id.0 - 1) * page_size + page_size) by (nonlinear_arith);
}

/// Checkpoints are numbered one after the other, from one on.
pub proof fn law_checkpoints_are_numbered(last: ControlFile)
    ensures
        control::next_generation_spec(None) == 1,
        control::next_generation_spec(Some(last)) == last.generation + 1,
{
}

/// Bytes that are written stand where they were written; the bytes before and behind them stay, and where a
/// file did not reach, zeros fill the gap.
pub proof fn law_written_bytes_stand_in_place(content: Seq<u8>, offset: int, data: Seq<u8>, i: int)
    requires
        0 <= offset,
    ensures
        ({
            let after = io::overwritten(content, offset, data);
            &&& after.subrange(offset, offset + data.len()) == data
            &&& after.len() == if offset + data.len() > content.len() {
                (offset + data.len()) as nat
            } else {
                content.len()
            }
            &&& 0 <= i < offset && i < content.len() ==> after[i] == content[i]
            &&& offset + data.len() <= i < content.len() ==> after[i] == content[i]
            &&& content.len() <= i < offset ==> after[i] == 0
        }),
{
    let after = io::overwritten(content, offset, data);
    assert(after.subrange(offset, offset + data.len()) =~= data);
}

/// A file that is cut keeps its front; one that is made longer is filled up with zeros.
pub proof fn law_resized_file_keeps_its_front(content: Seq<u8>, len: int, i: int)
    requires
        0 <= len,
    ensures
        io::resized(content, len).len() == len,
        0 <= i < len && i < content.len() ==> io::resized(content, len)[i] == content[i],
        content.len() <= i < len ==> io::resized(content, len)[i] == 0,
        len == content.len() ==> io::resized(content, len) == content,
{
    if len == content.len() {
        assert(io::resized(content, len) =~= content);
    }
}

/// The path of a name in a directory ends with the name, and what stands in front of it is the directory
/// with one separator behind it; a name in the current directory stands for itself.
pub proof fn law_paths_end_with_their_names(dir: Seq<char>, name: Seq<char>)
    ensures
        dir.len() == 0 ==> io::joined(dir, name) == name,
        dir.len() > 0 && dir.last() != '/' ==> io::joined(dir, name) == dir + seq!['/'] + name,
        dir.len() > 0 && dir.last() == '/' ==> io::joined(dir, name) == dir + name,
        io::joined(dir, name).len() >= name.len(),
        io::joined(dir, name).skip(io::joined(dir, name).len() - name.len()) == name,
{
    let path = io::joined(dir, name);
    assert(path.skip(path.len() - name.len()) =~= name);
}

} // verus!
