//! Lists of index entries: order, placement, space and where to split.
use crate::format::order;
use crate::format::page::SLOT_LEN;
use crate::index::cell;
use crate::index::cell::{Entry, EntryView};
use crate::index::node;
use vstd::prelude::*;

verus! {

/// `entry` put behind the last entry that it does not sort before.
pub open spec fn insert_behind(entries: Seq<EntryView>, entry: EntryView) -> Seq<EntryView>
    decreases entries.len(),
{
    if entries.len() > 0 && entry.before(entries.last()) {
        insert_behind(entries.drop_last(), entry).push(entries.last())
    } else {
        entries.push(entry)
    }
}

/// The entries in order, equal ones in the order they came in.
pub open spec fn stable_sorted(entries: Seq<EntryView>) -> Seq<EntryView>
    decreases entries.len(),
{
    if entries.len() == 0 {
        Seq::empty()
    } else {
        insert_behind(stable_sorted(entries.drop_last()), entries.last())
    }
}

/// How many entries at the front sort before `entry`.
pub open spec fn lower_bound(entries: Seq<EntryView>, entry: EntryView) -> int
    decreases entries.len(),
{
    if entries.len() > 0 && entries[0].before(entry) {
        1 + lower_bound(entries.drop_first(), entry)
    } else {
        0
    }
}

/// Whether the entry at the lower bound has the same sort key.
pub open spec fn holds_equal(entries: Seq<EntryView>, entry: EntryView) -> bool {
    let pos = lower_bound(entries, entry);
    0 <= pos < entries.len() && !entry.before(entries[pos])
}

/// Bytes that the cells and slots of the entries take.
pub open spec fn required_len(entries: Seq<EntryView>) -> nat
    decreases entries.len(),
{
    if entries.len() == 0 {
        0
    } else {
        required_len(entries.drop_last()) + entries.last().cell_len() + SLOT_LEN as nat
    }
}

/// Whether a new logical key starts at position `i`.
pub open spec fn key_starts(entries: Seq<EntryView>, i: int) -> bool {
    0 < i < entries.len() && entries[i - 1].logical() != entries[i].logical()
}

/// The first position where a key starts, looking outward from `mid` from distance `offset` on,
/// to the right before to the left; `mid` where there is none.
pub open spec fn split_from(entries: Seq<EntryView>, mid: int, offset: int) -> int
    decreases entries.len() - offset,
{
    if offset >= entries.len() {
        mid
    } else if key_starts(entries, mid + offset) {
        mid + offset
    } else if key_starts(entries, mid - offset) {
        mid - offset
    } else {
        split_from(entries, mid, offset + 1)
    }
}

/// How many entries stay on the left of a leaf split.
pub open spec fn leaf_split(entries: Seq<EntryView>) -> int {
    if entries.len() <= 1 {
        entries.len() as int
    } else {
        split_from(entries, entries.len() as int / 2, 0)
    }
}

/// A leaf is split between two logical keys if it holds two, at the place nearest to the middle;
/// only a leaf with one logical key is split inside a run.
pub proof fn law_leaf_split(entries: Seq<EntryView>)
    requires
        entries.len() >= 2,
    ensures
        0 < leaf_split(entries) < entries.len(),
        (exists|i: int| key_starts(entries, i)) ==> key_starts(entries, leaf_split(entries)),
        forall|i: int| #[trigger]
            key_starts(entries, i) ==> {
                let mid = entries.len() as int / 2;
                let chosen = leaf_split(entries);
                (if chosen < mid {
                    mid - chosen
                } else {
                    chosen - mid
                }) <= (if i < mid {
                    mid - i
                } else {
                    i - mid
                })
            },
        (forall|i: int| !key_starts(entries, i)) ==> leaf_split(entries) == entries.len() as int / 2,
{
    lemma_split_from(entries, entries.len() as int / 2, 0);
}

proof fn lemma_split_from(entries: Seq<EntryView>, mid: int, offset: int)
    requires
        0 < mid < entries.len(),
        0 <= offset,
        forall|i: int| mid - offset < i < mid + offset ==> !key_starts(entries, i),
    ensures
        ({
            let chosen = split_from(entries, mid, offset);
            &&& 0 < chosen < entries.len()
            &&& (exists|i: int| key_starts(entries, i)) ==> key_starts(entries, chosen)
            &&& (forall|i: int| !key_starts(entries, i)) ==> chosen == mid
            &&& forall|i: int| #[trigger]
                key_starts(entries, i) ==> (if chosen < mid {
                    mid - chosen
                } else {
                    chosen - mid
                }) <= (if i < mid {
                    mid - i
                } else {
                    i - mid
                })
        }),
    decreases entries.len() - offset,
{
    if offset >= entries.len() {
        assert forall|i: int| !key_starts(entries, i) by {
            if key_starts(entries, i) {
                assert(mid - offset < i < mid + offset);
            }
        }
    } else if !key_starts(entries, mid + offset) && !key_starts(entries, mid - offset) {
        assert forall|i: int| mid - (offset + 1) < i < mid + (offset + 1) implies !key_starts(entries, i) by {
            if i != mid - offset && i != mid + offset {
                assert(mid - offset < i < mid + offset);
            }
        }
        lemma_split_from(entries, mid, offset + 1);
    }
}

proof fn lemma_insert_behind_at(entries: Seq<EntryView>, entry: EntryView, pos: int)
    requires
        0 <= pos <= entries.len(),
        forall|j: int| pos <= j < entries.len() ==> entry.before(#[trigger] entries[j]),
        pos > 0 ==> !entry.before(entries[pos - 1]),
    ensures
        insert_behind(entries, entry) == entries.insert(pos, entry),
    decreases entries.len(),
{
    if pos < entries.len() {
        lemma_insert_behind_at(entries.drop_last(), entry, pos);
        assert(insert_behind(entries, entry) =~= entries.insert(pos, entry));
    } else {
        assert(insert_behind(entries, entry) =~= entries.insert(pos, entry));
    }
}

/// Sorts entries; equal ones keep their order.
pub fn sort_entries(entries: &mut Vec<Entry>)
    ensures
        cell::entry_views(final(entries)@) == stable_sorted(cell::entry_views(old(entries)@)),
{
    let ghost orig = cell::entry_views(entries@);
    let n: usize = entries.len();
    let mut i: usize = 0;
    proof {
        assert(orig.subrange(0, 0) =~= Seq::empty());
        assert(cell::entry_views(entries@).subrange(0, 0) =~= Seq::empty());
    }
    while i < n
        invariant
            i <= n,
            n == entries@.len(),
            n == orig.len(),
            cell::entry_views(entries@).subrange(0, i as int) == stable_sorted(orig.subrange(0, i as int)),
            cell::entry_views(entries@).subrange(i as int, n as int) == orig.subrange(i as int, n as int),
        decreases n - i,
    {
        let ghost now = cell::entry_views(entries@);
        let ghost head = now.subrange(0, i as int);
        let mut pos: usize = i;
        while pos > 0 && entries[i].sorts_before(&entries[pos - 1])
            invariant
                pos <= i < n,
                n == entries@.len(),
                now == cell::entry_views(entries@),
                head == now.subrange(0, i as int),
                forall|j: int| pos <= j < i ==> now[i as int].before(#[trigger] head[j]),
            decreases pos,
        {
            pos = pos - 1;
        }
        proof {
            lemma_insert_behind_at(head, now[i as int], pos as int);
            assert(orig.subrange(0, i + 1).drop_last() =~= orig.subrange(0, i as int));
            assert(now[i as int] == now.subrange(i as int, n as int)[0]);
            assert(orig[i as int] == orig.subrange(i as int, n as int)[0]);
        }
        let entry: Entry = entries.remove(i);
        entries.insert(pos, entry);
        proof {
            let then = cell::entry_views(entries@);
            assert(then.subrange(0, i + 1) =~= head.insert(pos as int, now[i as int]));
            assert(then.subrange(i + 1, n as int) =~= now.subrange(i + 1, n as int));
            assert(now.subrange(i + 1, n as int) =~= now.subrange(i as int, n as int).subrange(1, n - i));
            assert(orig.subrange(i + 1, n as int) =~= orig.subrange(i as int, n as int).subrange(1, n - i));
        }
        i = i + 1;
    }
    proof {
        assert(orig.subrange(0, n as int) =~= orig);
        assert(cell::entry_views(entries@).subrange(0, n as int) =~= cell::entry_views(entries@));
    }
}

/// How many entries at the front sort before `entry`, and whether the next one is equal to it.
pub fn find_place(entries: &Vec<Entry>, entry: &Entry) -> (r: (usize, bool))
    ensures
        r.0 == lower_bound(cell::entry_views(entries@), entry@),
        r.0 <= entries@.len(),
        r.1 == holds_equal(cell::entry_views(entries@), entry@),
{
    let ghost all = cell::entry_views(entries@);
    let mut pos: usize = 0;
    proof {
        assert(all.subrange(0, all.len() as int) =~= all);
    }
    while pos < entries.len() && entries[pos].sorts_before(entry)
        invariant
            pos <= entries@.len(),
            all == cell::entry_views(entries@),
            lower_bound(all, entry@) == pos + lower_bound(all.subrange(pos as int, all.len() as int), entry@),
        decreases entries@.len() - pos,
    {
        proof {
            assert(all.subrange(pos as int, all.len() as int).drop_first() =~= all.subrange(
                pos + 1,
                all.len() as int,
            ));
        }
        pos = pos + 1;
    }
    let equal = pos < entries.len() && !entry.sorts_before(&entries[pos]);
    (pos, equal)
}

/// Bytes that the cells of the entries take, without their slots.
pub open spec fn cells_total(entries: Seq<EntryView>) -> nat
    decreases entries.len(),
{
    if entries.len() == 0 {
        0
    } else {
        cells_total(entries.drop_last()) + entries.last().cell_len()
    }
}

proof fn lemma_slots(entries: Seq<EntryView>)
    ensures
        required_len(entries) == cells_total(entries) + entries.len() * SLOT_LEN,
    decreases entries.len(),
{
    if entries.len() > 0 {
        lemma_slots(entries.drop_last());
    }
}

/// Bytes that the entries take with their slots, or the largest size where they take more.
pub fn required_entries_len(entries: &Vec<Entry>) -> (len: usize)
    ensures
        len == node::saturated(required_len(cell::entry_views(entries@)) as int),
{
    proof {
        lemma_slots(cell::entry_views(entries@));
    }
    match entries.len().checked_mul(SLOT_LEN) {
        Some(slots) => encoded_entries_len(entries).saturating_add(slots),
        None => usize::MAX,
    }
}

/// Bytes that the cells of the entries take, or the largest size where they take more.
pub fn encoded_entries_len(entries: &Vec<Entry>) -> (len: usize)
    ensures
        len == node::saturated(cells_total(cell::entry_views(entries@)) as int),
{
    let ghost all = cell::entry_views(entries@);
    let mut total: usize = 0;
    let mut i: usize = 0;
    while i < entries.len()
        invariant
            i <= entries@.len(),
            all == cell::entry_views(entries@),
            total == node::saturated(cells_total(all.subrange(0, i as int)) as int),
        decreases entries@.len() - i,
    {
        proof {
            assert(all.subrange(0, i + 1).drop_last() =~= all.subrange(0, i as int));
        }
        let (fixed, keys): (usize, usize) = match &entries[i] {
            Entry::Leaf { logical_key, physical, .. } => (
                cell::LEAF_CELL_HEADER,
                logical_key.len().saturating_add(physical.len()),
            ),
            Entry::Internal { separator, .. } => (cell::INTERNAL_CELL_HEADER, separator.len()),
        };
        total = total.saturating_add(keys).saturating_add(fixed);
        i = i + 1;
    }
    proof {
        assert(all.subrange(0, i as int) =~= all);
    }
    total
}

/// How many entries stay on the left of a leaf split.
pub fn choose_leaf_split(entries: &Vec<Entry>) -> (split: usize)
    ensures
        split == leaf_split(cell::entry_views(entries@)),
        split <= entries@.len(),
        entries@.len() >= 2 ==> 0 < split < entries@.len(),
{
    let ghost all = cell::entry_views(entries@);
    let n: usize = entries.len();
    if n <= 1 {
        return n;
    }
    proof {
        law_leaf_split(all);
    }
    let mid: usize = n / 2;
    let mut offset: usize = 0;
    while offset < n
        invariant
            offset <= n,
            n == entries@.len(),
            n >= 2,
            mid == n / 2,
            all == cell::entry_views(entries@),
            0 < leaf_split(all) < n,
            leaf_split(all) == split_from(all, mid as int, offset as int),
        decreases n - offset,
    {
        if offset < n - mid && starts_key(entries, mid + offset) {
            return mid + offset;
        }
        if offset < mid && starts_key(entries, mid - offset) {
            return mid - offset;
        }
        offset = offset + 1;
    }
    mid
}

fn starts_key(entries: &Vec<Entry>, i: usize) -> (r: bool)
    ensures
        r == key_starts(cell::entry_views(entries@), i as int),
{
    0 < i && i < entries.len() && !order::bytes_equal(entries[i - 1].logical_key(), entries[i].logical_key())
}

} // verus!
