//! Physical index keys: a logical key followed by the row it points to.
use crate::format::bytes;
use crate::format::order;
use crate::index::IndexRowRef;
use smallvec::SmallVec;
use vstd::prelude::*;

verus! {

/// A `smallvec::SmallVec`, which keeps short contents in place.
#[derive(Debug, PartialEq, Eq)]
#[verifier::external_body]
pub struct SmallBytes {
    inner: SmallVec<[u8; 96]>,
}

/// The bytes that a small vector holds, first to last.
pub uninterp spec fn small_bytes(v: SmallBytes) -> Seq<u8>;

/// `SmallVec::new` makes an empty vector.
#[verifier::external_body]
fn small_new() -> (v: SmallBytes)
    ensures
        small_bytes(v) == Seq::<u8>::empty(),
{
    SmallBytes { inner: SmallVec::new() }
}

/// `SmallVec::clear` takes every byte out.
#[verifier::external_body]
fn small_clear(v: &mut SmallBytes)
    ensures
        small_bytes(*final(v)) == Seq::<u8>::empty(),
{
    v.inner.clear()
}

/// `SmallVec::extend_from_slice` appends the bytes of the slice, in order. It panics where the
/// length, rounded up to a power of two, is more than can be allocated.
#[verifier::external_body]
fn small_extend(v: &mut SmallBytes, more: &[u8])
    requires
        small_bytes(*old(v)).len() + more@.len() <= usize::MAX / 4,
    ensures
        small_bytes(*final(v)) == small_bytes(*old(v)) + more@,
{
    v.inner.extend_from_slice(more)
}

/// `SmallVec::as_slice` gives the bytes held.
#[verifier::external_body]
fn small_slice(v: &SmallBytes) -> (s: &[u8])
    ensures
        s@ == small_bytes(*v),
{
    v.inner.as_slice()
}

/// `SmallVec::clone` makes a vector with the same bytes.
#[verifier::external_body]
fn small_clone(v: &SmallBytes) -> (copy: SmallBytes)
    ensures
        small_bytes(copy) == small_bytes(*v),
{
    SmallBytes { inner: v.inner.clone() }
}

/// The bytes that tell the entries of one logical key apart: row id, page id, slot and generation,
/// each big-endian.
pub open spec fn row_suffix(row: IndexRowRef) -> Seq<u8> {
    bytes::be_bytes(row.row_id.0 as nat, 8) + bytes::be_bytes(row.tuple.page_id.0 as nat, 8)
        + bytes::be_bytes(row.tuple.slot as nat, 2) + bytes::be_bytes(row.tuple.generation.0 as nat, 4)
}

/// The length of a row suffix.
pub const ROW_SUFFIX_LEN: usize = 22;

pub proof fn lemma_row_suffix_len(row: IndexRowRef)
    ensures
        row_suffix(row).len() == ROW_SUFFIX_LEN,
{
    broadcast use bytes::lemma_be_bytes_len;

}

/// The suffix of a row with a small row id starts with a zero.
pub proof fn lemma_small_row_suffix(row: IndexRowRef)
    requires
        row.row_id.0 < 0x100_0000_0000_0000,
    ensures
        row_suffix(row).len() > 0,
        row_suffix(row)[0] == 0,
{
    broadcast use bytes::lemma_be_bytes_len;

    reveal_with_fuel(bytes::be_bytes, 9);
    let x = row.row_id.0 as nat;
    assert(bytes::be_bytes(x, 8)[0] == 0);
}

/// Whether a physical key with a logical key of this length can be held in memory.
pub open spec fn key_fits(logical_len: nat) -> bool {
    logical_len + ROW_SUFFIX_LEN <= usize::MAX / 4
}

/// The physical key of an entry.
pub open spec fn physical_key(logical: Seq<u8>, row: IndexRowRef) -> Seq<u8> {
    logical + row_suffix(row)
}

/// A key under construction.
#[derive(Debug, PartialEq, Eq)]
pub struct KeyBuf {
    bytes: SmallBytes,
    logical_len: usize,
}

impl View for KeyBuf {
    type V = Seq<u8>;

    closed spec fn view(&self) -> Seq<u8> {
        small_bytes(self.bytes)
    }
}

impl KeyBuf {
    pub closed spec fn spec_logical_len(self) -> nat {
        self.logical_len as nat
    }

    pub fn new() -> (key: KeyBuf)
        ensures
            key@ == Seq::<u8>::empty(),
            key.spec_logical_len() == 0,
    {
        KeyBuf { bytes: small_new(), logical_len: 0 }
    }

    pub fn clear(&mut self)
        ensures
            final(self)@ == Seq::<u8>::empty(),
            final(self).spec_logical_len() == 0,
    {
        small_clear(&mut self.bytes);
        self.logical_len = 0;
    }

    /// Appends a logical key and remembers its length.
    pub fn extend_logical(&mut self, key: &[u8])
        requires
            old(self)@.len() + key@.len() <= usize::MAX / 4,
        ensures
            final(self)@ == old(self)@ + key@,
            final(self).spec_logical_len() == key@.len(),
    {
        self.logical_len = key.len();
        small_extend(&mut self.bytes, key);
    }

    /// Appends the suffix that makes the key of a row.
    pub fn append_row_ref_suffix(&mut self, row: IndexRowRef)
        requires
            old(self)@.len() + ROW_SUFFIX_LEN <= usize::MAX / 4,
        ensures
            final(self)@ == old(self)@ + row_suffix(row),
            final(self).spec_logical_len() == old(self).spec_logical_len(),
    {
        broadcast use bytes::lemma_be_bytes_len;

        small_extend(&mut self.bytes, bytes::be_array(row.row_id.0, 8).as_slice());
        small_extend(&mut self.bytes, bytes::be_array(row.tuple.page_id.0, 8).as_slice());
        small_extend(&mut self.bytes, bytes::be_array(row.tuple.slot as u64, 2).as_slice());
        small_extend(&mut self.bytes, bytes::be_array(row.tuple.generation.0 as u64, 4).as_slice());
        proof {
            assert(self@ =~= old(self)@ + row_suffix(row));
        }
    }

    pub fn logical_len(&self) -> (len: usize)
        ensures
            len == self.spec_logical_len(),
    {
        self.logical_len
    }

    pub fn as_slice(&self) -> (s: &[u8])
        ensures
            s@ == self@,
    {
        small_slice(&self.bytes)
    }
}

impl Clone for KeyBuf {
    fn clone(&self) -> (key: KeyBuf)
        ensures
            key@ == self@,
            key.spec_logical_len() == self.spec_logical_len(),
    {
        KeyBuf { bytes: small_clone(&self.bytes), logical_len: self.logical_len }
    }
}

impl Default for KeyBuf {
    fn default() -> (key: KeyBuf)
        ensures
            key@ == Seq::<u8>::empty(),
            key.spec_logical_len() == 0,
    {
        KeyBuf::new()
    }
}

/// The physical key of a row under a logical key.
pub fn encode_physical_key(logical_key: &[u8], row: IndexRowRef) -> (key: KeyBuf)
    requires
        key_fits(logical_key@.len()),
    ensures
        key@ == physical_key(logical_key@, row),
        key.spec_logical_len() == logical_key@.len(),
{
    let mut key = KeyBuf::new();
    key.extend_logical(logical_key);
    key.append_row_ref_suffix(row);
    proof {
        assert(key@ =~= physical_key(logical_key@, row));
    }
    key
}

/// Whether a row comes before another: by row id, then by where it stands.
pub open spec fn row_before(a: IndexRowRef, b: IndexRowRef) -> bool {
    ||| a.row_id.0 < b.row_id.0
    ||| a.row_id == b.row_id && a.tuple.page_id.0 < b.tuple.page_id.0
    ||| a.row_id == b.row_id && a.tuple.page_id == b.tuple.page_id && a.tuple.slot < b.tuple.slot
    ||| a.row_id == b.row_id && a.tuple.page_id == b.tuple.page_id && a.tuple.slot == b.tuple.slot
        && a.tuple.generation.0 < b.tuple.generation.0
}

proof fn lemma_row_order(k: Seq<u8>, a: IndexRowRef, b: IndexRowRef)
    requires
        row_before(a, b),
    ensures
        order::bytes_lt(physical_key(k, a), physical_key(k, b)),
{
    broadcast use bytes::lemma_be_bytes_len;

    bytes::lemma_pow256();
    let a1 = bytes::be_bytes(a.row_id.0 as nat, 8);
    let a2 = bytes::be_bytes(a.tuple.page_id.0 as nat, 8);
    let a3 = bytes::be_bytes(a.tuple.slot as nat, 2);
    let a4 = bytes::be_bytes(a.tuple.generation.0 as nat, 4);
    let b1 = bytes::be_bytes(b.row_id.0 as nat, 8);
    let b2 = bytes::be_bytes(b.tuple.page_id.0 as nat, 8);
    let b3 = bytes::be_bytes(b.tuple.slot as nat, 2);
    let b4 = bytes::be_bytes(b.tuple.generation.0 as nat, 4);
    let none = Seq::<u8>::empty();
    if a.row_id.0 < b.row_id.0 {
        order::lemma_be_order(a.row_id.0 as nat, b.row_id.0 as nat, 8);
        order::lemma_order_in_context(k, a1, b1, a2 + a3 + a4, b2 + b3 + b4);
        assert(k + a1 + (a2 + a3 + a4) =~= physical_key(k, a));
        assert(k + b1 + (b2 + b3 + b4) =~= physical_key(k, b));
    } else if a.tuple.page_id.0 < b.tuple.page_id.0 {
        order::lemma_be_order(a.tuple.page_id.0 as nat, b.tuple.page_id.0 as nat, 8);
        order::lemma_order_in_context(k + a1, a2, b2, a3 + a4, b3 + b4);
        assert(k + a1 + a2 + (a3 + a4) =~= physical_key(k, a));
        assert(k + b1 + b2 + (b3 + b4) =~= physical_key(k, b));
    } else if a.tuple.slot < b.tuple.slot {
        order::lemma_be_order(a.tuple.slot as nat, b.tuple.slot as nat, 2);
        order::lemma_order_in_context(k + a1 + a2, a3, b3, a4, b4);
        assert(k + a1 + a2 + a3 + a4 =~= physical_key(k, a));
        assert(k + b1 + b2 + b3 + b4 =~= physical_key(k, b));
    } else {
        order::lemma_be_order(a.tuple.generation.0 as nat, b.tuple.generation.0 as nat, 4);
        order::lemma_order_in_context(k + a1 + a2 + a3, a4, b4, none, none);
        assert(k + a1 + a2 + a3 + a4 + none =~= physical_key(k, a));
        assert(k + b1 + b2 + b3 + b4 + none =~= physical_key(k, b));
    }
}

/// The physical keys of one logical key are ordered by their rows, and those of different rows differ.
pub proof fn law_physical_keys_follow_rows(k: Seq<u8>, a: IndexRowRef, b: IndexRowRef)
    ensures
        row_before(a, b) ==> order::bytes_lt(physical_key(k, a), physical_key(k, b)),
        a != b ==> physical_key(k, a) != physical_key(k, b),
        order::is_prefix(k, physical_key(k, a)),
{
    if row_before(a, b) {
        lemma_row_order(k, a, b);
        order::lemma_lt_asymmetric(physical_key(k, a), physical_key(k, b));
    } else if row_before(b, a) {
        lemma_row_order(k, b, a);
        order::lemma_lt_asymmetric(physical_key(k, b), physical_key(k, a));
    }
    assert(physical_key(k, a).subrange(0, k.len() as int) =~= k);
}

/// A physical key says which logical key and which row it stands for.
pub proof fn law_physical_key_is_unique(j: Seq<u8>, a: IndexRowRef, k: Seq<u8>, b: IndexRowRef)
    requires
        physical_key(j, a) == physical_key(k, b),
    ensures
        j == k,
        a == b,
{
    lemma_row_suffix_len(a);
    lemma_row_suffix_len(b);
    let p = physical_key(j, a);
    assert(j.len() == p.len() - ROW_SUFFIX_LEN);
    assert(k.len() == p.len() - ROW_SUFFIX_LEN);
    assert(j =~= p.subrange(0, j.len() as int));
    assert(k =~= p.subrange(0, k.len() as int));
    law_physical_keys_follow_rows(k, a, b);
}

} // verus!
