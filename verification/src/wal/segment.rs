//! Where log positions stand in segment files, and what the files are called.
use crate::format::Lsn;
use crate::text;
use vstd::prelude::*;
use vstd::string::*;

verus! {

/// Digits in the name of a segment file.
pub const SEGMENT_DIGITS: usize = 20;

/// The segment that holds a position; the first one is segment one.
pub open spec fn segment_of(lsn: int, segment_bytes: int) -> int {
    lsn / segment_bytes + 1
}

/// The offset of a position in its segment.
pub open spec fn offset_of(lsn: int, segment_bytes: int) -> int {
    lsn % segment_bytes
}

/// The position at an offset of a segment.
pub open spec fn position(segment: int, offset: int, segment_bytes: int) -> int {
    (segment - 1) * segment_bytes + offset
}

/// A position is the one at its offset in its segment.
pub proof fn law_position_of_lsn(lsn: int, segment_bytes: int)
    requires
        segment_bytes > 0,
        lsn >= 0,
    ensures
        position(segment_of(lsn, segment_bytes), offset_of(lsn, segment_bytes), segment_bytes) == lsn,
        0 <= offset_of(lsn, segment_bytes) < segment_bytes,
        segment_of(lsn, segment_bytes) >= 1,
{
    assert(lsn == segment_bytes * (lsn / segment_bytes) + lsn % segment_bytes) by (nonlinear_arith)
        requires
            segment_bytes > 0,
    ;
    assert((lsn / segment_bytes) * segment_bytes == segment_bytes * (lsn / segment_bytes)) by (nonlinear_arith);
    assert(0 <= lsn % segment_bytes < segment_bytes) by (nonlinear_arith)
        requires
            segment_bytes > 0,
    ;
    assert(lsn / segment_bytes >= 0) by (nonlinear_arith)
        requires
            segment_bytes > 0,
            lsn >= 0,
    ;
}

/// An offset inside a segment is found again from its position.
pub proof fn law_lsn_of_position(segment: int, offset: int, segment_bytes: int)
    requires
        segment_bytes > 0,
        segment >= 1,
        0 <= offset < segment_bytes,
    ensures
        segment_of(position(segment, offset, segment_bytes), segment_bytes) == segment,
        offset_of(position(segment, offset, segment_bytes), segment_bytes) == offset,
{
    let a = segment - 1;
    assert((a * segment_bytes + offset) / segment_bytes == a) by (nonlinear_arith)
        requires
            segment_bytes > 0,
            0 <= offset < segment_bytes,
            a >= 0,
    ;
    assert((a * segment_bytes + offset) % segment_bytes == offset) by (nonlinear_arith)
        requires
            segment_bytes > 0,
            0 <= offset < segment_bytes,
            a >= 0,
    ;
}

/// The segment that holds a position.
pub fn segment_for_lsn(lsn: Lsn, segment_bytes: u64) -> (segment: u64)
    requires
        segment_bytes > 1,
    ensures
        segment == segment_of(lsn.0 as int, segment_bytes as int),
{
    proof {
        let l = lsn.0 as int;
        let b = segment_bytes as int;
        assert(l / b + 1 <= u64::MAX) by (nonlinear_arith)
            requires
                0 <= l <= u64::MAX,
                b > 1,
        ;
    }
    lsn.0 / segment_bytes + 1
}

/// The offset of a position in its segment.
pub fn offset_for_lsn(lsn: Lsn, segment_bytes: u64) -> (offset: u64)
    requires
        segment_bytes > 0,
    ensures
        offset == offset_of(lsn.0 as int, segment_bytes as int),
{
    lsn.0 % segment_bytes
}

/// The name of a segment file: twenty digits and the extension.
pub open spec fn segment_name_spec(segment: nat) -> Seq<char> {
    text::padded(segment, SEGMENT_DIGITS as nat) + ".wal"@
}

/// The segment that a file name stands for.
pub open spec fn parse_name(name: Seq<char>) -> Option<u64> {
    if name.len() != SEGMENT_DIGITS + 4 || name.subrange(SEGMENT_DIGITS as int, name.len() as int) != ".wal"@ {
        None
    } else if !(forall|i: int| 0 <= i < SEGMENT_DIGITS ==> text::is_digit(#[trigger] name[i])) {
        None
    } else if text::decimal_value(name.subrange(0, SEGMENT_DIGITS as int)) > u64::MAX {
        None
    } else {
        Some(text::decimal_value(name.subrange(0, SEGMENT_DIGITS as int)) as u64)
    }
}

/// The name of every segment stands for that segment.
pub proof fn law_segment_names_round_trip(segment: u64)
    ensures
        parse_name(segment_name_spec(segment as nat)) == Some(segment),
{
    reveal_strlit(".wal");
    assert(text::pow10(20) == 100_000_000_000_000_000_000) by {
        reveal_with_fuel(text::pow10, 21);
    }
    text::lemma_padded(segment as nat, 20);
    let digits = text::padded(segment as nat, 20);
    let name = segment_name_spec(segment as nat);
    assert(name.subrange(20, 24) =~= ".wal"@);
    assert(name.subrange(0, 20) =~= digits);
    assert forall|i: int| 0 <= i < 20 implies text::is_digit(#[trigger] name[i]) by {
        assert(name[i] == digits[i]);
    }
}

/// Only the name of a segment stands for it.
pub proof fn law_segment_names_are_unique(name: Seq<char>)
    requires
        parse_name(name) is Some,
    ensures
        name == segment_name_spec(parse_name(name)->0 as nat),
{
    let digits = name.subrange(0, 20);
    assert forall|i: int| 0 <= i < digits.len() implies text::is_digit(#[trigger] digits[i]) by {
        assert(digits[i] == name[i]);
    }
    text::lemma_padded_of_value(digits);
    assert(name =~= digits + name.subrange(20, 24));
}

/// The name of a segment file.
pub fn segment_name(segment: u64) -> (name: String)
    ensures
        name@ == segment_name_spec(segment as nat),
{
    let mut name = String::new();
    text::push_padded(&mut name, segment, SEGMENT_DIGITS);
    name.append(".wal");
    proof {
        assert(name@ =~= segment_name_spec(segment as nat));
    }
    name
}

/// The segment that a file name stands for.
pub fn parse_segment_name(name: &str) -> (segment: Option<u64>)
    ensures
        segment == parse_name(name@),
{
    proof {
        reveal_strlit(".wal");
    }
    let len: usize = name.unicode_len();
    if len != SEGMENT_DIGITS + 4 {
        return None;
    }
    if name.get_char(20) != '.' || name.get_char(21) != 'w' || name.get_char(22) != 'a' || name.get_char(23) != 'l' {
        proof {
            let tail = name@.subrange(20, 24);
            assert(tail[0] == name@[20] && tail[1] == name@[21] && tail[2] == name@[22] && tail[3] == name@[23]);
        }
        return None;
    }
    proof {
        assert(name@.subrange(20, 24) =~= ".wal"@);
    }
    let mut value: u128 = 0;
    let mut i: usize = 0;
    let ghost bound = 1nat;
    while i < SEGMENT_DIGITS
        invariant
            i <= SEGMENT_DIGITS,
            len == SEGMENT_DIGITS + 4,
            name@.len() == len,
            parse_name(name@) is Some ==> forall|j: int| 0 <= j < SEGMENT_DIGITS ==> text::is_digit(#[trigger] name@[j]),
            forall|j: int| 0 <= j < i ==> text::is_digit(#[trigger] name@[j]),
            value == text::decimal_value(name@.subrange(0, i as int)),
            value < bound,
            bound == text::pow10(i as nat),
            bound <= 100_000_000_000_000_000_000,
            i < SEGMENT_DIGITS ==> bound <= 10_000_000_000_000_000_000,
        decreases SEGMENT_DIGITS - i,
    {
        let c: char = name.get_char(i);
        if !('0' <= c && c <= '9') {
            return None;
        }
        proof {
            assert(name@.subrange(0, i + 1).drop_last() =~= name@.subrange(0, i as int));
            lemma_pow10_steps(i as nat);
            bound = 10 * bound;
        }
        value = value * 10 + (c as u32 - 48) as u128;
        i = i + 1;
    }
    if value > u64::MAX as u128 {
        return None;
    }
    Some(value as u64)
}

proof fn lemma_pow10_steps(i: nat)
    requires
        i < 20,
    ensures
        text::pow10(i + 1) == 10 * text::pow10(i),
        text::pow10(i + 1) <= 100_000_000_000_000_000_000,
        i + 1 < 20 ==> text::pow10(i + 1) <= 10_000_000_000_000_000_000,
{
    reveal_with_fuel(text::pow10, 22);
}

} // verus!
