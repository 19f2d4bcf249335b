//! Fixed-width integers and byte runs at offsets of a byte buffer.
use vstd::prelude::*;
use crate::error::{Error, Result};

verus! {

/// The little-endian value of a byte string.
pub open spec fn le_value(s: Seq<u8>) -> nat
    decreases s.len(),
{
    if s.len() == 0 {
        0
    } else {
        s[0] as nat + 256 * le_value(s.drop_first())
    }
}

/// The `n` low bytes of `x`, least significant first.
pub open spec fn le_bytes(x: nat, n: nat) -> Seq<u8>
    decreases n,
{
    if n == 0 {
        Seq::empty()
    } else {
        seq![(x % 256) as u8] + le_bytes(x / 256, (n - 1) as nat)
    }
}

/// The `n` low bytes of `x`, most significant first.
pub open spec fn be_bytes(x: nat, n: nat) -> Seq<u8>
    decreases n,
{
    if n == 0 {
        Seq::empty()
    } else {
        be_bytes(x / 256, (n - 1) as nat).push((x % 256) as u8)
    }
}

/// `256` to the power `n`.
pub open spec fn pow256(n: nat) -> nat
    decreases n,
{
    if n == 0 {
        1
    } else {
        256 * pow256((n - 1) as nat)
    }
}

pub proof fn lemma_pow256()
    ensures
        pow256(1) == 0x100,
        pow256(2) == 0x1_0000,
        pow256(4) == 0x1_0000_0000,
        pow256(8) == 0x1_0000_0000_0000_0000,
{
    reveal_with_fuel(pow256, 9);
}

pub broadcast proof fn lemma_le_bytes_len(x: nat, n: nat)
    ensures
        (#[trigger] le_bytes(x, n)).len() == n,
    decreases n,
{
    if n > 0 {
        lemma_le_bytes_len(x / 256, (n - 1) as nat);
    }
}

pub broadcast proof fn lemma_be_bytes_len(x: nat, n: nat)
    ensures
        (#[trigger] be_bytes(x, n)).len() == n,
    decreases n,
{
    if n > 0 {
        lemma_be_bytes_len(x / 256, (n - 1) as nat);
    }
}

pub proof fn lemma_le_value_bound(s: Seq<u8>)
    ensures
        le_value(s) < pow256(s.len()),
    decreases s.len(),
{
    if s.len() > 0 {
        lemma_le_value_bound(s.drop_first());
    }
}

/// Reading back the bytes that were written for a value gives the value.
pub broadcast proof fn lemma_le_value_of_bytes(x: nat, n: nat)
    requires
        x < pow256(n),
    ensures
        #[trigger] le_value(le_bytes(x, n)) == x,
    decreases n,
{
    if n > 0 {
        lemma_le_value_of_bytes(x / 256, (n - 1) as nat);
        let s = le_bytes(x, n);
        assert(s.drop_first() =~= le_bytes(x / 256, (n - 1) as nat));
    }
}

/// Writing back the value that was read from bytes gives the bytes.
pub proof fn lemma_le_bytes_of_value(s: Seq<u8>)
    ensures
        le_bytes(le_value(s), s.len()) == s,
    decreases s.len(),
{
    if s.len() > 0 {
        let t = s.drop_first();
        lemma_le_bytes_of_value(t);
        let v = le_value(s);
        assert(v % 256 == s[0] as nat && v / 256 == le_value(t));
        assert(le_bytes(v, s.len()) =~= seq![s[0]] + t);
        assert(seq![s[0]] + t =~= s);
    } else {
        assert(le_bytes(le_value(s), s.len()) =~= s);
    }
}

/// The value held by the `n` bytes at `offset`, or the error for a buffer that ends before them.
pub open spec fn read_le_spec(bytes: Seq<u8>, offset: int, n: int) -> Result<nat> {
    if offset + n <= bytes.len() {
        Ok(le_value(bytes.subrange(offset, offset + n)))
    } else {
        Err(Error::BufferTooSmall { needed: (offset + n) as usize, actual: bytes.len() as usize })
    }
}

fn read_le(bytes: &[u8], offset: usize, n: usize) -> (r: Result<u64>)
    requires
        0 < n <= 8,
        offset + n <= usize::MAX,
    ensures
        r is Ok <==> offset + n <= bytes@.len(),
        match r {
            Ok(v) => read_le_spec(bytes@, offset as int, n as int) == Ok::<nat, Error>(v as nat) && v < pow256(n as nat),
            Err(e) => e == (Error::BufferTooSmall { needed: (offset + n) as usize, actual: bytes@.len() as usize }),
        },
{
    let len: usize = bytes.len();
    if offset + n > len {
        return Err(Error::BufferTooSmall { needed: offset + n, actual: len });
    }
    let ghost field = bytes@.subrange(offset as int, offset + n);
    let mut value: u64 = 0;
    let mut k: usize = n;
    proof {
        lemma_pow256();
        assert(field.subrange(n as int, n as int).len() == 0);
    }
    while k > 0
        invariant
            0 < n <= 8,
            k <= n,
            offset + n <= usize::MAX,
            offset + n <= bytes@.len(),
            field == bytes@.subrange(offset as int, offset + n),
            value == le_value(field.subrange(k as int, n as int)),
        decreases k,
    {
        k = k - 1;
        let byte: u8 = bytes[offset + k];
        proof {
            let rest = field.subrange(k + 1, n as int);
            let here = field.subrange(k as int, n as int);
            assert(here.drop_first() =~= rest);
            lemma_le_value_bound(rest);
            lemma_pow256_le((n - k - 1) as nat, 7);
            lemma_pow256();
            reveal_with_fuel(pow256, 8);
        }
        value = value * 256 + byte as u64;
    }
    proof {
        assert(field.subrange(0, n as int) =~= field);
        lemma_le_value_bound(field);
    }
    Ok(value)
}

/// Reads a little-endian `u16` at `offset`.
pub fn read_u16(bytes: &[u8], offset: usize) -> (r: Result<u16>)
    requires
        offset + 2 <= usize::MAX,
    ensures
        match r {
            Ok(v) => read_le_spec(bytes@, offset as int, 2) == Ok::<nat, Error>(v as nat),
            Err(e) => read_le_spec(bytes@, offset as int, 2) == Err::<nat, Error>(e),
        },
{
    proof {
        lemma_pow256();
    }
    match read_le(bytes, offset, 2) {
        Ok(v) => Ok(v as u16),
        Err(e) => Err(e),
    }
}

/// Reads a little-endian `u32` at `offset`.
pub fn read_u32(bytes: &[u8], offset: usize) -> (r: Result<u32>)
    requires
        offset + 4 <= usize::MAX,
    ensures
        match r {
            Ok(v) => read_le_spec(bytes@, offset as int, 4) == Ok::<nat, Error>(v as nat),
            Err(e) => read_le_spec(bytes@, offset as int, 4) == Err::<nat, Error>(e),
        },
{
    proof {
        lemma_pow256();
    }
    match read_le(bytes, offset, 4) {
        Ok(v) => Ok(v as u32),
        Err(e) => Err(e),
    }
}

/// Reads a little-endian `u64` at `offset`.
pub fn read_u64(bytes: &[u8], offset: usize) -> (r: Result<u64>)
    requires
        offset + 8 <= usize::MAX,
    ensures
        match r {
            Ok(v) => read_le_spec(bytes@, offset as int, 8) == Ok::<nat, Error>(v as nat),
            Err(e) => read_le_spec(bytes@, offset as int, 8) == Err::<nat, Error>(e),
        },
{
    read_le(bytes, offset, 8)
}

/// Appends the `n` low bytes of `value`, least significant first.
pub fn push_le(out: &mut Vec<u8>, value: u64, n: usize)
    ensures
        final(out)@ == old(out)@ + le_bytes(value as nat, n as nat),
{
    let mut rest: u64 = value;
    let mut k: usize = 0;
    proof {
        assert(old(out)@ + le_bytes(value as nat, n as nat) =~= out@ + le_bytes(rest as nat, (n - k) as nat));
    }
    while k < n
        invariant
            k <= n,
            old(out)@ + le_bytes(value as nat, n as nat) == out@ + le_bytes(rest as nat, (n - k) as nat),
        decreases n - k,
    {
        let ghost before = out@;
        let byte: u8 = (rest % 256) as u8;
        out.push(byte);
        proof {
            assert(before + le_bytes(rest as nat, (n - k) as nat) =~= out@ + le_bytes(
                (rest / 256) as nat,
                (n - k - 1) as nat,
            ));
        }
        rest = rest / 256;
        k = k + 1;
    }
    proof {
        assert(out@ + le_bytes(rest as nat, 0) =~= out@);
    }
}

/// The eight big-endian bytes of `value`, cut to the last `n`.
pub fn be_array(value: u64, n: usize) -> (out: Vec<u8>)
    ensures
        out@ == be_bytes(value as nat, n as nat),
{
    let mut out: Vec<u8> = Vec::new();
    if n > 0 {
        out = be_array_from(value / 256, n - 1);
        out.push((value % 256) as u8);
    }
    proof {
        assert(out@ =~= be_bytes(value as nat, n as nat));
    }
    out
}

fn be_array_from(value: u64, n: usize) -> (out: Vec<u8>)
    ensures
        out@ == be_bytes(value as nat, n as nat),
    decreases n,
{
    if n == 0 {
        let out: Vec<u8> = Vec::new();
        proof {
            assert(out@ =~= be_bytes(value as nat, 0));
        }
        out
    } else {
        let mut out: Vec<u8> = be_array_from(value / 256, n - 1);
        out.push((value % 256) as u8);
        out
    }
}

/// Appends a byte run.
pub fn push_bytes(out: &mut Vec<u8>, more: &[u8])
    ensures
        final(out)@ == old(out)@ + more@,
{
    out.extend_from_slice(more);
    proof {
        assert(out@ =~= old(out)@ + more@);
    }
}

/// Appends zero bytes until the buffer is `len` long.
pub fn push_zeros(out: &mut Vec<u8>, len: usize)
    requires
        old(out)@.len() <= len,
    ensures
        final(out)@ == old(out)@ + Seq::new((len - old(out)@.len()) as nat, |i: int| 0u8),
{
    while out.len() < len
        invariant
            old(out)@.len() <= out@.len() <= len,
            out@ == old(out)@ + Seq::new((out@.len() - old(out)@.len()) as nat, |i: int| 0u8),
        decreases len - out@.len(),
    {
        out.push(0);
        proof {
            assert(out@ =~= old(out)@ + Seq::new((out@.len() - old(out)@.len()) as nat, |i: int| 0u8));
        }
    }
}

/// Copies the bytes from `start` to `end`.
pub fn copy_range(bytes: &[u8], start: usize, end: usize) -> (out: Vec<u8>)
    requires
        start <= end <= bytes@.len(),
    ensures
        out@ == bytes@.subrange(start as int, end as int),
{
    let mut out: Vec<u8> = Vec::new();
    let mut i: usize = start;
    while i < end
        invariant
            start <= i <= end <= bytes@.len(),
            out@ == bytes@.subrange(start as int, i as int),
        decreases end - i,
    {
        out.push(bytes[i]);
        i = i + 1;
        proof {
            assert(out@ =~= bytes@.subrange(start as int, i as int));
        }
    }
    proof {
        assert(out@ =~= bytes@.subrange(start as int, end as int));
    }
    out
}

/// A copy of a byte run.
pub fn copy_bytes(bytes: &[u8]) -> (out: Vec<u8>)
    ensures
        out@ == bytes@,
{
    let out: Vec<u8> = copy_range(bytes, 0, bytes.len());
    proof {
        assert(bytes@.subrange(0, bytes@.len() as int) =~= bytes@);
    }
    out
}

pub proof fn lemma_pow256_le(a: nat, b: nat)
    requires
        a <= b,
    ensures
        pow256(a) <= pow256(b),
    decreases b,
{
    if a < b {
        lemma_pow256_le(a, (b - 1) as nat);
    }
}

} // verus!
