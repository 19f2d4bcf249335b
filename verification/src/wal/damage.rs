//! Damaged records are found out.
use crate::format::bytes;
use crate::wal::record;
use crate::wal::record::{RecordView, CHECKSUM_SEED};
use vstd::prelude::*;

verus! {

/// What a step of the checksum started from can be told from where it ends.
proof fn lemma_step_apart(x: nat, y: nat, c: nat)
    requires
        x < 0x1_0000_0000,
        y < 0x1_0000_0000,
        (x * 16777619 + c) % 0x1_0000_0000 == (y * 16777619 + c) % 0x1_0000_0000,
    ensures
        x == y,
{
    let p = x * 16777619;
    let q = y * 16777619;
    lemma_same_remainder(p as int, q as int, c as int);
    lemma_undone(x);
    lemma_undone(y);
}

proof fn lemma_same_remainder(p: int, q: int, c: int)
    requires
        (p + c) % 0x1_0000_0000 == (q + c) % 0x1_0000_0000,
    ensures
        p % 0x1_0000_0000 == q % 0x1_0000_0000,
{
    let u = (p + c) / 0x1_0000_0000;
    let v = (q + c) / 0x1_0000_0000;
    assert(p == 0x1_0000_0000 * (u - v) + q);
    vstd::arithmetic::div_mod::lemma_mod_multiples_vanish(u - v, q, 0x1_0000_0000);
}

proof fn lemma_undone(x: nat)
    requires
        x < 0x1_0000_0000,
    ensures
        (((x * 16777619) % 0x1_0000_0000) * 899433627) % 0x1_0000_0000 == x,
{
    let p = (x * 16777619) as int;
    let q = p / 0x1_0000_0000;
    let r = p % 0x1_0000_0000;
    assert(p == q * 0x1_0000_0000 + r);
    assert(p * 899433627 == x * 3513497 * 0x1_0000_0000 + x);
    let z = x * 3513497 - q * 899433627;
    assert(r * 899433627 == z * 0x1_0000_0000 + x);
}

/// A checksum that goes on from different values ends with different values.
proof fn lemma_seed_counts(b: Seq<u8>, s: nat, t: nat)
    requires
        s < 0x1_0000_0000,
        t < 0x1_0000_0000,
        s != t,
    ensures
        record::checksum(b, s) != record::checksum(b, t),
        record::checksum(b, s) < 0x1_0000_0000,
        record::checksum(b, t) < 0x1_0000_0000,
    decreases b.len(),
{
    if b.len() > 0 {
        lemma_seed_counts(b.drop_last(), s, t);
        let x = record::checksum(b.drop_last(), s);
        let y = record::checksum(b.drop_last(), t);
        let c = b.last() as nat + 1;
        assert(record::checksum(b, s) == (x * 16777619 + c) % 0x1_0000_0000);
        assert(record::checksum(b, t) == (y * 16777619 + c) % 0x1_0000_0000);
        if record::checksum(b, s) == record::checksum(b, t) {
            lemma_step_apart(x, y, c);
        }
    }
}

proof fn lemma_sum_bound(b: Seq<u8>, s: nat)
    requires
        s < 0x1_0000_0000,
    ensures
        record::checksum(b, s) < 0x1_0000_0000,
{
}

/// Bytes that differ in one place have different checksums.
pub proof fn law_checksum_tells_bytes_apart(b: Seq<u8>, i: int, c: u8, seed: nat)
    requires
        0 <= i < b.len(),
        b[i] != c,
        seed < 0x1_0000_0000,
    ensures
        record::checksum(b.update(i, c), seed) != record::checksum(b, seed),
    decreases b.len(),
{
    let d = b.update(i, c);
    let init = b.drop_last();
    lemma_sum_bound(init, seed);
    if i == b.len() - 1 {
        assert(d.drop_last() =~= init);
        let x = record::checksum(init, seed) * 16777619;
        assert(record::checksum(b, seed) == (x + b.last() as nat + 1) % 0x1_0000_0000);
        assert(record::checksum(d, seed) == (x + c as nat + 1) % 0x1_0000_0000);
    } else {
        assert(d.drop_last() =~= init.update(i, c));
        assert(d.last() == b.last());
        law_checksum_tells_bytes_apart(init, i, c, seed);
        lemma_sum_bound(init.update(i, c), seed);
        let x = record::checksum(init, seed);
        let y = record::checksum(init.update(i, c), seed);
        let e = b.last() as nat + 1;
        assert(record::checksum(b, seed) == (x * 16777619 + e) % 0x1_0000_0000);
        assert(record::checksum(d, seed) == (y * 16777619 + e) % 0x1_0000_0000);
        if record::checksum(b, seed) == record::checksum(d, seed) {
            lemma_step_apart(x, y, e);
        }
    }
}

/// A record of which a single byte was changed, wherever it stands, is refused.
#[verifier::spinoff_prover]
pub proof fn law_changed_record_is_refused(r: RecordView, i: int, c: u8)
    requires
        r.payload.len() <= u32::MAX,
        0 <= i < r.frame().len(),
        r.frame()[i] != c,
    ensures
        record::parse_record(r.frame().update(i, c)) is Err,
{
    broadcast use bytes::lemma_le_bytes_len;

    record::law_record_round_trips(r);
    let b = r.frame();
    let d = b.update(i, c);
    let n = b.len() as int;
    let front = b.subrange(0, 8);
    let sum = b.subrange(8, 12);
    let back = b.subrange(12, n);
    let first = record::checksum(front, CHECKSUM_SEED as nat);
    lemma_sum_bound(front, CHECKSUM_SEED as nat);
    assert(record::parse_record(b) is Ok);
    assert(bytes::le_value(sum) == record::checksum(back, first));
    if i < 8 {
        let changed = front.update(i, c);
        assert(d.subrange(0, 8) =~= changed);
        assert(d.subrange(8, 12) =~= sum);
        assert(d.subrange(12, n) =~= back);
        law_checksum_tells_bytes_apart(front, i, c, CHECKSUM_SEED as nat);
        lemma_sum_bound(changed, CHECKSUM_SEED as nat);
        lemma_seed_counts(back, first, record::checksum(changed, CHECKSUM_SEED as nat));
    } else if i < 12 {
        assert(d.subrange(0, 8) =~= front);
        assert(d.subrange(12, n) =~= back);
        let changed = d.subrange(8, 12);
        assert(changed[i - 8] == c && sum[i - 8] == b[i]);
        bytes::lemma_le_bytes_of_value(sum);
        bytes::lemma_le_bytes_of_value(changed);
    } else {
        assert(d.subrange(0, 8) =~= front);
        assert(d.subrange(8, 12) =~= sum);
        assert(d.subrange(12, n) =~= back.update(i - 12, c));
        law_checksum_tells_bytes_apart(back, i - 12, c, first);
    }
}

} // verus!
