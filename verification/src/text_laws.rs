//! What trimming, splitting, ordering and reading texts guarantee.
use crate::text;
use vstd::prelude::*;

verus! {

/// Whether nothing but white space stands in a text.
pub open spec fn all_white(s: Seq<char>) -> bool {
    forall|i: int| 0 <= i < s.len() ==> text::is_white(#[trigger] s[i])
}

/// Whether no white space stands in a text.
pub open spec fn none_white(s: Seq<char>) -> bool {
    forall|i: int| 0 <= i < s.len() ==> !text::is_white(#[trigger] s[i])
}

/// Blanks, tabulators and line ends are white space; what prints is not.
pub proof fn law_what_is_white(c: char)
    ensures
        c == ' ' || c == '\t' || c == '\n' || c == '\r' ==> text::is_white(c),
        '!' <= c <= '~' ==> !text::is_white(c),
{
}

proof fn lemma_trim_front(s: Seq<char>) -> (front: Seq<char>)
    ensures
        s == front + text::trim_front(s),
        all_white(front),
        text::trim_front(s).len() > 0 ==> !text::is_white(text::trim_front(s)[0]),
    decreases s.len(),
{
    if s.len() > 0 && text::is_white(s[0]) {
        let rest = lemma_trim_front(s.drop_first());
        let front = seq![s[0]] + rest;
        assert(s =~= seq![s[0]] + s.drop_first());
        assert(s =~= front + text::trim_front(s));
        front
    } else {
        assert(s =~= Seq::<char>::empty() + s);
        Seq::empty()
    }
}

proof fn lemma_trim_back(s: Seq<char>) -> (back: Seq<char>)
    ensures
        s == text::trim_back(s) + back,
        all_white(back),
        text::trim_back(s).len() > 0 ==> !text::is_white(text::trim_back(s).last()) && text::trim_back(s)[0] == s[0],
    decreases s.len(),
{
    if s.len() > 0 && text::is_white(s.last()) {
        let rest = lemma_trim_back(s.drop_last());
        let back = rest.push(s.last());
        assert(s =~= s.drop_last().push(s.last()));
        assert(s =~= text::trim_back(s) + back);
        back
    } else {
        assert(s =~= s + Seq::<char>::empty());
        Seq::empty()
    }
}

/// Trimming takes white space off both ends and nothing else: what is left neither starts nor ends with
/// white space.
pub proof fn law_trimming_takes_white_space_off(s: Seq<char>) -> (ends: (Seq<char>, Seq<char>))
    ensures
        s == ends.0 + text::trimmed(s) + ends.1,
        all_white(ends.0),
        all_white(ends.1),
        text::trimmed(s).len() > 0 ==> !text::is_white(text::trimmed(s)[0]) && !text::is_white(text::trimmed(s).last()),
        all_white(s) ==> text::trimmed(s).len() == 0,
{
    let front = lemma_trim_front(s);
    let mid = text::trim_front(s);
    let back = lemma_trim_back(mid);
    let core = text::trimmed(s);
    assert(s =~= front + core + back);
    if core.len() > 0 {
        assert(core[0] == s[front.len() as int]);
        if all_white(s) {
            assert(text::is_white(s[front.len() as int]));
        }
    }
    (front, back)
}

/// A text that stands between white space is what trimming leaves.
pub proof fn law_what_stands_between_white_space_is_left(a: Seq<char>, s: Seq<char>, b: Seq<char>)
    requires
        all_white(a),
        all_white(b),
        s.len() > 0,
        !text::is_white(s[0]),
        !text::is_white(s.last()),
    ensures
        text::trimmed(a + s + b) == s,
{
    let all = a + s + b;
    let (x, y) = law_trimming_takes_white_space_off(all);
    let core = text::trimmed(all);
    let first = a.len() as int;
    let last = a.len() + s.len() - 1;
    assert(all[first] == s[0] && all[last] == s.last());
    if core.len() == 0 {
        if first < x.len() {
            assert(x[first] == all[first]);
        } else {
            assert(y[first - x.len()] == all[first]);
        }
    }
    assert(all[x.len() as int] == core[0]);
    assert(all[x.len() + core.len() - 1] == core.last());
    if x.len() < first {
        assert(a[x.len() as int] == all[x.len() as int]);
    }
    if x.len() > first {
        assert(x[first] == all[first]);
    }
    if x.len() + core.len() - 1 > last {
        let k = x.len() + core.len() - 1 - (a.len() + s.len());
        assert(b[k] == all[x.len() + core.len() - 1]);
    }
    if x.len() + core.len() - 1 < last {
        assert(y[last - x.len() - core.len()] == all[last]);
    }
    assert(x.len() == first && core.len() == s.len());
    assert(core =~= all.subrange(first, first + s.len()));
    assert(s =~= all.subrange(first, first + s.len()));
}

proof fn lemma_words_add(a: Seq<char>, w: char, b: Seq<char>)
    requires
        text::is_white(w),
    ensures
        text::words(a.push(w) + b) == text::words(a) + text::words(b),
        b.len() > 0 && !text::is_white(b.last()) ==> text::words(b).len() > 0,
    decreases b.len(),
{
    let all = a.push(w) + b;
    if b.len() == 0 {
        assert(all =~= a.push(w));
        assert(all.drop_last() =~= a);
        assert(text::words(a) + Seq::<Seq<char>>::empty() =~= text::words(a));
    } else {
        let init = b.drop_last();
        lemma_words_add(a, w, init);
        assert(all.drop_last() =~= a.push(w) + init);
        assert(all.last() == b.last());
        let before = text::words(init);
        if !text::is_white(b.last()) {
            assert(all[all.len() - 2] == if b.len() == 1 {
                w
            } else {
                b[b.len() - 2]
            });
            if b.len() == 1 || text::is_white(b[b.len() - 2]) {
                assert((text::words(a) + before).push(seq![b.last()]) =~= text::words(a) + before.push(seq![b.last()]));
            } else {
                assert(init.last() == b[b.len() - 2]);
                assert(before.len() > 0);
                let grown = before.last().push(b.last());
                assert((text::words(a) + before).drop_last().push(grown) =~= text::words(a) + before.drop_last().push(
                    grown,
                ));
                assert((text::words(a) + before).last() == before.last());
            }
        }
    }
}

/// White space separates words: the words of what stands before it come first, those of what stands
/// behind it follow.
pub proof fn law_white_space_separates_words(a: Seq<char>, w: char, b: Seq<char>)
    requires
        text::is_white(w),
    ensures
        text::words(a.push(w) + b) == text::words(a) + text::words(b),
{
    lemma_words_add(a, w, b);
}

/// A text without white space is one word, and a text with nothing else has none.
pub proof fn law_text_without_white_space_is_a_word(s: Seq<char>)
    ensures
        none_white(s) && s.len() > 0 ==> text::words(s) == seq![s],
        all_white(s) ==> text::words(s) == Seq::<Seq<char>>::empty(),
    decreases s.len(),
{
    if s.len() > 0 {
        let init = s.drop_last();
        law_text_without_white_space_is_a_word(init);
        if none_white(s) {
            assert(none_white(init)) by {
                assert forall|i: int| 0 <= i < init.len() implies !text::is_white(#[trigger] init[i]) by {
                    assert(init[i] == s[i]);
                }
            }
            assert(!text::is_white(s[s.len() - 1]));
            if s.len() == 1 {
                assert(init =~= Seq::empty());
                assert(s =~= seq![s.last()]);
                assert(text::words(s) =~= seq![s]);
            } else {
                assert(!text::is_white(s[s.len() - 2]));
                assert(init.push(s.last()) =~= s);
                assert(text::words(s) =~= seq![s]);
            }
        }
        if all_white(s) {
            assert(all_white(init)) by {
                assert forall|i: int| 0 <= i < init.len() implies text::is_white(#[trigger] init[i]) by {
                    assert(init[i] == s[i]);
                }
            }
            assert(text::is_white(s[s.len() - 1]));
        }
    }
}

/// Upper-case letters of ASCII become lower-case ones; everything else stays, and what is in lower case
/// stays too.
pub proof fn law_lower_case(s: Seq<char>, i: int)
    requires
        0 <= i < s.len(),
    ensures
        text::lowered(s).len() == s.len(),
        'A' <= s[i] <= 'Z' ==> text::lowered(s)[i] as u32 == s[i] as u32 + 32 && 'a' <= text::lowered(s)[i] <= 'z',
        !('A' <= s[i] <= 'Z') ==> text::lowered(s)[i] == s[i],
        text::lowered(text::lowered(s)) == text::lowered(s),
{
    assert(text::lowered(text::lowered(s)) =~= text::lowered(s));
}

/// A text comes before another exactly if they agree up to a place at which it ends or has the smaller
/// character.
pub proof fn law_order_of_texts(a: Seq<char>, b: Seq<char>)
    ensures
        text::text_before(a, b) <==> exists|i: int|
            #![trigger a.take(i)]
            0 <= i <= a.len() && i < b.len() && a.take(i) == b.take(i) && (i == a.len() || a[i] < b[i]),
    decreases a.len(),
{
    if b.len() > 0 && a.len() == 0 {
        assert(a.take(0) =~= b.take(0));
    } else if b.len() > 0 && a[0] != b[0] {
        assert(a.take(0) =~= b.take(0));
        assert forall|i: int| 0 < i <= a.len() && i < b.len() implies #[trigger] a.take(i) != b.take(i) by {
            assert(a.take(i)[0] == a[0] && b.take(i)[0] == b[0]);
        }
    } else if b.len() > 0 {
        let x = a.drop_first();
        let y = b.drop_first();
        law_order_of_texts(x, y);
        if text::text_before(x, y) {
            let i = choose|i: int|
                #![trigger x.take(i)]
                0 <= i <= x.len() && i < y.len() && x.take(i) == y.take(i) && (i == x.len() || x[i] < y[i]);
            assert(a.take(i + 1) =~= seq![a[0]] + x.take(i));
            assert(b.take(i + 1) =~= seq![b[0]] + y.take(i));
        }
        if exists|i: int|
            #![trigger a.take(i)]
            0 <= i <= a.len() && i < b.len() && a.take(i) == b.take(i) && (i == a.len() || a[i] < b[i]) {
            let i = choose|i: int|
                #![trigger a.take(i)]
                0 <= i <= a.len() && i < b.len() && a.take(i) == b.take(i) && (i == a.len() || a[i] < b[i]);
            assert(i > 0);
            assert(x.take(i - 1) =~= a.take(i).drop_first());
            assert(y.take(i - 1) =~= b.take(i).drop_first());
        }
    }
}

/// The digits of a number with a sign are read back as that number.
pub proof fn law_signed_decimal_round_trips(n: i32)
    ensures
        text::parsed_i32(text::decimal_int(n as int)) == Some(n),
        n >= 0 ==> text::parsed_i32(seq!['+'] + text::decimal(n as nat)) == Some(n),
{
    let m = if n < 0 {
        (-(n as int)) as nat
    } else {
        n as nat
    };
    let digits = text::decimal(m);
    text::lemma_decimal(m);
    assert(text::is_digit(digits[0]));
    if n < 0 {
        assert((seq!['-'] + digits).skip(1) =~= digits);
    } else {
        assert((seq!['+'] + digits).skip(1) =~= digits);
    }
}

/// A text that is filled up is as long as asked for, or as long as it was if that is more; the text stands
/// at its end, behind as many of the character as are needed.
pub proof fn law_filled_text_ends_with_the_text(s: Seq<char>, width: nat, fill: char)
    ensures
        ({
            let f = text::filled(s, width, fill);
            &&& f.len() == if s.len() < width {
                width
            } else {
                s.len()
            }
            &&& f.skip(f.len() - s.len()) == s
            &&& forall|i: int| 0 <= i < f.len() - s.len() ==> #[trigger] f[i] == fill
        }),
{
    let f = text::filled(s, width, fill);
    assert(f.skip(f.len() - s.len()) =~= s);
}

/// Numbers have their own digits: different ones are written differently, without a zero in front.
pub proof fn law_digits_are_unique(a: nat, b: nat)
    ensures
        text::decimal(a) == text::decimal(b) ==> a == b,
        a >= 10 ==> text::decimal(a)[0] != '0',
        a < 10 ==> text::decimal(a).len() == 1,
    decreases a,
{
    text::lemma_decimal(a);
    text::lemma_decimal(b);
    if a >= 10 {
        law_digits_are_unique(a / 10, a / 10);
        text::lemma_decimal(a / 10);
        assert(text::decimal(a)[0] == text::decimal(a / 10)[0]);
    }
}

} // verus!
