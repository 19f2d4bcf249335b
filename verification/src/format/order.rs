//! The lexicographic order of byte strings.
use std::cmp::Ordering;
use crate::format::bytes;
use vstd::prelude::*;

verus! {

/// `a` and `b` agree before position `i`, and `a` comes first because of what stands there.
pub open spec fn precedes_at(a: Seq<u8>, b: Seq<u8>, i: int) -> bool {
    &&& 0 <= i <= a.len()
    &&& i < b.len()
    &&& forall|j: int| 0 <= j < i ==> a[j] == b[j]
    &&& i == a.len() || a[i] < b[i]
}

/// `a` comes strictly before `b` in lexicographic order.
#[verifier::opaque]
pub open spec fn bytes_lt(a: Seq<u8>, b: Seq<u8>) -> bool {
    exists|i: int| precedes_at(a, b, i)
}

/// `a` comes before `b` or is the same byte string.
pub open spec fn bytes_le(a: Seq<u8>, b: Seq<u8>) -> bool {
    a == b || bytes_lt(a, b)
}

/// `a` is the beginning of `b`.
pub open spec fn is_prefix(a: Seq<u8>, b: Seq<u8>) -> bool {
    a.len() <= b.len() && b.subrange(0, a.len() as int) == a
}

pub proof fn lemma_lt_irreflexive(a: Seq<u8>)
    ensures
        !bytes_lt(a, a),
{
    reveal(bytes_lt);
}

pub proof fn lemma_lt_transitive(a: Seq<u8>, b: Seq<u8>, c: Seq<u8>)
    requires
        bytes_lt(a, b),
        bytes_lt(b, c),
    ensures
        bytes_lt(a, c),
{
    reveal(bytes_lt);
    let i = choose|i: int| precedes_at(a, b, i);
    let j = choose|j: int| precedes_at(b, c, j);
    let k = if i < j { i } else { j };
    assert(precedes_at(a, c, k));
}

/// Any two byte strings are equal or one comes before the other.
pub proof fn lemma_lt_total(a: Seq<u8>, b: Seq<u8>)
    ensures
        a == b || bytes_lt(a, b) || bytes_lt(b, a),
{
    lemma_lt_total_from(a, b, 0);
}

proof fn lemma_lt_total_from(a: Seq<u8>, b: Seq<u8>, i: int)
    requires
        0 <= i <= a.len(),
        i <= b.len(),
        forall|j: int| 0 <= j < i ==> a[j] == b[j],
    ensures
        a == b || bytes_lt(a, b) || bytes_lt(b, a),
    decreases a.len() - i,
{
    reveal(bytes_lt);
    if i == a.len() || i == b.len() {
        if a.len() == b.len() {
            assert(a =~= b);
        } else if i == a.len() {
            assert(precedes_at(a, b, i));
        } else {
            assert(precedes_at(b, a, i));
        }
    } else if a[i] < b[i] {
        assert(precedes_at(a, b, i));
    } else if b[i] < a[i] {
        assert(precedes_at(b, a, i));
    } else {
        lemma_lt_total_from(a, b, i + 1);
    }
}

pub proof fn lemma_lt_asymmetric(a: Seq<u8>, b: Seq<u8>)
    requires
        bytes_lt(a, b),
    ensures
        !bytes_lt(b, a),
        a != b,
{
    lemma_lt_irreflexive(a);
    if bytes_lt(b, a) {
        lemma_lt_transitive(a, b, a);
    }
}

/// `a <= b` and `b <= c` give `a <= c`, strictly if one of them is strict.
pub proof fn lemma_le_transitive(a: Seq<u8>, b: Seq<u8>, c: Seq<u8>)
    requires
        bytes_le(a, b),
        bytes_le(b, c),
    ensures
        bytes_le(a, c),
        bytes_lt(a, b) || bytes_lt(b, c) ==> bytes_lt(a, c),
{
    if bytes_lt(a, b) && bytes_lt(b, c) {
        lemma_lt_transitive(a, b, c);
    }
}

/// `a < b` exactly when `b <= a` does not hold.
pub proof fn lemma_not_le(a: Seq<u8>, b: Seq<u8>)
    ensures
        bytes_lt(a, b) <==> !bytes_le(b, a),
{
    lemma_lt_total(a, b);
    if bytes_lt(a, b) {
        lemma_lt_asymmetric(a, b);
    }
}

/// The empty byte string comes first.
pub proof fn lemma_empty_first(a: Seq<u8>)
    ensures
        bytes_le(Seq::empty(), a),
{
    reveal(bytes_lt);
    if a.len() > 0 {
        assert(precedes_at(Seq::empty(), a, 0));
    } else {
        assert(a =~= Seq::empty());
    }
}

/// A byte string comes before or at every extension of it.
pub proof fn lemma_prefix_first(a: Seq<u8>, suffix: Seq<u8>)
    ensures
        bytes_le(a, a + suffix),
        suffix.len() > 0 ==> bytes_lt(a, a + suffix),
{
    reveal(bytes_lt);
    if suffix.len() > 0 {
        assert(precedes_at(a, a + suffix, a.len() as int));
    } else {
        assert(a + suffix =~= a);
    }
}

/// A byte string stays before a larger one without zeros when something that starts with a zero
/// What stands in front of both of two strings, or behind the place where they differ, does not matter for
/// their order.
pub proof fn lemma_order_in_context(front: Seq<u8>, a: Seq<u8>, b: Seq<u8>, x: Seq<u8>, y: Seq<u8>)
    requires
        a.len() == b.len(),
        bytes_lt(a, b),
    ensures
        bytes_lt(front + a + x, front + b + y),
{
    reveal(bytes_lt);
    let i = choose|i: int| precedes_at(a, b, i);
    assert(precedes_at(front + a + x, front + b + y, front.len() + i));
}

/// Numbers are ordered as their big-endian bytes are.
pub proof fn lemma_be_order(x: nat, y: nat, n: nat)
    requires
        x < y < bytes::pow256(n),
    ensures
        bytes_lt(bytes::be_bytes(x, n), bytes::be_bytes(y, n)),
    decreases n,
{
    broadcast use bytes::lemma_be_bytes_len;

    reveal(bytes_lt);
    let m = (n - 1) as nat;
    let a = bytes::be_bytes(x, n);
    let b = bytes::be_bytes(y, n);
    if x / 256 < y / 256 {
        lemma_be_order(x / 256, y / 256, m);
        let a1 = bytes::be_bytes(x / 256, m);
        let b1 = bytes::be_bytes(y / 256, m);
        let i = choose|i: int| precedes_at(a1, b1, i);
        assert(i < m);
        assert(precedes_at(a, b, i));
    } else {
        assert(x / 256 == y / 256 && x % 256 < y % 256);
        assert(precedes_at(a, b, m as int));
    }
}

/// Nothing lies between a byte string and the same string with a zero byte behind it.
pub proof fn lemma_next_string(a: Seq<u8>, b: Seq<u8>)
    ensures
        bytes_le(a, b) && bytes_lt(b, a.push(0)) <==> a == b,
{
    reveal(bytes_lt);
    let next = a.push(0);
    if a == b {
        assert(precedes_at(a, next, a.len() as int));
    } else if bytes_le(a, b) && bytes_lt(b, next) {
        let i = choose|i: int| precedes_at(b, next, i);
        let j = choose|j: int| precedes_at(a, b, j);
        if i < a.len() {
            assert(next[i] == a[i]);
            if j < i {
                assert(b[j] == next[j] && next[j] == a[j]);
            }
        } else {
            assert forall|k: int| 0 <= k < a.len() implies b[k] == a[k] by {
                assert(next[k] == a[k]);
            }
            assert(b =~= a);
        }
    }
}

/// follows.
pub proof fn lemma_small_extension(a: Seq<u8>, b: Seq<u8>, suffix: Seq<u8>)
    requires
        bytes_lt(a, b),
        suffix.len() > 0,
        suffix[0] == 0,
        forall|i: int| 0 <= i < b.len() ==> #[trigger] b[i] != 0,
    ensures
        bytes_lt(a + suffix, b),
{
    reveal(bytes_lt);
    let i = choose|i: int| precedes_at(a, b, i);
    assert(b[i] != 0);
    assert(precedes_at(a + suffix, b, i));
}

/// Two byte strings of which neither is a prefix of the other keep their order whatever follows.
pub proof fn lemma_order_of_extensions(a: Seq<u8>, b: Seq<u8>, s: Seq<u8>, t: Seq<u8>)
    requires
        !is_prefix(a, b),
        !is_prefix(b, a),
    ensures
        bytes_lt(a, b) <==> bytes_lt(a + s, b + t),
        bytes_lt(a, b) <==> bytes_lt(a + s, b),
        bytes_lt(a, b) <==> bytes_lt(a, b + t),
        a != b,
{
    lemma_lt_total(a, b);
    if a == b {
        assert(a.subrange(0, a.len() as int) =~= a);
    } else {
        lemma_extensions_directed(a, b, s, t);
        lemma_extensions_directed(b, a, t, s);
        if bytes_lt(a, b) {
            lemma_lt_asymmetric(a, b);
        } else {
            lemma_lt_asymmetric(b, a);
            lemma_lt_asymmetric(b + t, a + s);
            lemma_lt_asymmetric(b, a + s);
            lemma_lt_asymmetric(b + t, a);
        }
    }
}

proof fn lemma_extensions_directed(a: Seq<u8>, b: Seq<u8>, s: Seq<u8>, t: Seq<u8>)
    requires
        !is_prefix(a, b),
    ensures
        bytes_lt(a, b) ==> bytes_lt(a + s, b + t) && bytes_lt(a + s, b) && bytes_lt(a, b + t),
{
    reveal(bytes_lt);
    if bytes_lt(a, b) {
        let i = choose|i: int| precedes_at(a, b, i);
        if i == a.len() {
            assert(b.subrange(0, a.len() as int) =~= a);
        }
        assert(precedes_at(a + s, b + t, i));
        assert(precedes_at(a + s, b, i));
        assert(precedes_at(a, b + t, i));
    }
}

/// Whether `a` comes strictly before `b`.
pub fn bytes_less(a: &[u8], b: &[u8]) -> (r: bool)
    ensures
        r == bytes_lt(a@, b@),
{
    proof {
        reveal(bytes_lt);
    }
    let mut i: usize = 0;
    while i < a.len() && i < b.len() && a[i] == b[i]
        invariant
            i <= a@.len(),
            i <= b@.len(),
            forall|j: int| 0 <= j < i ==> a@[j] == b@[j],
        decreases a@.len() - i,
    {
        i = i + 1;
    }
    if i >= b.len() {
        proof {
            if bytes_lt(a@, b@) {
                let k = choose|k: int| precedes_at(a@, b@, k);
                assert(a@[k] == b@[k]);
            }
        }
        false
    } else if i >= a.len() {
        proof {
            assert(precedes_at(a@, b@, i as int));
        }
        true
    } else {
        proof {
            if a@[i as int] < b@[i as int] {
                assert(precedes_at(a@, b@, i as int));
            } else {
                assert(precedes_at(b@, a@, i as int));
                lemma_lt_asymmetric(b@, a@);
            }
        }
        a[i] < b[i]
    }
}

/// Whether two byte runs are the same.
pub fn bytes_equal(a: &[u8], b: &[u8]) -> (r: bool)
    ensures
        r == (a@ == b@),
{
    if a.len() != b.len() {
        return false;
    }
    let mut i: usize = 0;
    while i < a.len()
        invariant
            i <= a@.len(),
            a@.len() == b@.len(),
            forall|j: int| 0 <= j < i ==> a@[j] == b@[j],
        decreases a@.len() - i,
    {
        if a[i] != b[i] {
            return false;
        }
        i = i + 1;
    }
    proof {
        assert(a@ =~= b@);
    }
    true
}

/// The lexicographic comparison of two byte strings.
pub fn compare_bytes(a: &[u8], b: &[u8]) -> (r: Ordering)
    ensures
        match r {
            Ordering::Less => bytes_lt(a@, b@),
            Ordering::Equal => a@ == b@,
            Ordering::Greater => bytes_lt(b@, a@),
        },
{
    proof {
        lemma_lt_total(a@, b@);
    }
    if bytes_less(a, b) {
        Ordering::Less
    } else if bytes_equal(a, b) {
        Ordering::Equal
    } else {
        Ordering::Greater
    }
}

} // verus!
