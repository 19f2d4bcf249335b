//! Building strings.
use vstd::prelude::*;
use vstd::string::*;

verus! {

/// `String::push` appends a character.
pub assume_specification[ String::push ](s: &mut String, c: char)
    ensures
        final(s)@ == old(s)@.push(c),
;

/// The digit of a value below ten.
pub open spec fn digit_char(d: int) -> char {
    (d + 48) as char
}

/// Whether a character is a decimal digit.
pub open spec fn is_digit(c: char) -> bool {
    '0' <= c <= '9'
}

/// The value of a decimal digit.
pub open spec fn digit_of(c: char) -> int {
    c as int - 48
}

/// The number that decimal digits stand for.
pub open spec fn decimal_value(s: Seq<char>) -> nat
    decreases s.len(),
{
    if s.len() == 0 {
        0
    } else {
        (decimal_value(s.drop_last()) * 10 + digit_of(s.last())) as nat
    }
}

/// The last `width` decimal digits of a number, with zeros in front.
pub open spec fn padded(n: nat, width: nat) -> Seq<char>
    decreases width,
{
    if width == 0 {
        Seq::empty()
    } else {
        padded(n / 10, (width - 1) as nat).push(digit_char((n % 10) as int))
    }
}

/// Ten to the power `n`.
pub open spec fn pow10(n: nat) -> nat
    decreases n,
{
    if n == 0 {
        1
    } else {
        10 * pow10((n - 1) as nat)
    }
}

/// The padded digits of a number are digits and stand for the number.
pub proof fn lemma_padded(n: nat, width: nat)
    requires
        n < pow10(width),
    ensures
        padded(n, width).len() == width,
        forall|i: int| 0 <= i < width ==> is_digit(#[trigger] padded(n, width)[i]),
        decimal_value(padded(n, width)) == n,
    decreases width,
{
    if width > 0 {
        lemma_padded(n / 10, (width - 1) as nat);
        let s = padded(n, width);
        assert(s.drop_last() =~= padded(n / 10, (width - 1) as nat));
        assert forall|i: int| 0 <= i < width implies is_digit(#[trigger] s[i]) by {
            if i < width - 1 {
                assert(s[i] == padded(n / 10, (width - 1) as nat)[i]);
            }
        }
    }
}

/// Digits are the padded digits of the number they stand for.
pub proof fn lemma_padded_of_value(s: Seq<char>)
    requires
        forall|i: int| 0 <= i < s.len() ==> is_digit(#[trigger] s[i]),
    ensures
        padded(decimal_value(s), s.len()) == s,
        decimal_value(s) < pow10(s.len()),
    decreases s.len(),
{
    if s.len() > 0 {
        let init = s.drop_last();
        assert forall|i: int| 0 <= i < init.len() implies is_digit(#[trigger] init[i]) by {
            assert(init[i] == s[i]);
        }
        lemma_padded_of_value(init);
        assert(is_digit(s[s.len() - 1]));
        assert(decimal_value(s) / 10 == decimal_value(init));
        assert(decimal_value(s) % 10 == digit_of(s.last()));
        assert(padded(decimal_value(s), s.len()) =~= s);
    } else {
        assert(padded(decimal_value(s), s.len()) =~= s);
    }
}

/// The character of a digit below ten.
pub fn digit_to_char(d: u64) -> (c: char)
    requires
        d < 10,
    ensures
        c == digit_char(d as int),
{
    match d {
        0 => '0',
        1 => '1',
        2 => '2',
        3 => '3',
        4 => '4',
        5 => '5',
        6 => '6',
        7 => '7',
        8 => '8',
        _ => '9',
    }
}

/// Appends the last `width` decimal digits of a number, with zeros in front.
pub fn push_padded(out: &mut String, n: u64, width: usize)
    ensures
        final(out)@ == old(out)@ + padded(n as nat, width as nat),
    decreases width,
{
    if width > 0 {
        push_padded(out, n / 10, width - 1);
        out.push(digit_to_char(n % 10));
        proof {
            assert(out@ =~= old(out)@ + padded(n as nat, width as nat));
        }
    } else {
        proof {
            assert(out@ =~= old(out)@ + padded(n as nat, 0));
        }
    }
}

/// The characters of a text.
pub fn chars_of(s: &str) -> (out: Vec<char>)
    ensures
        out@ == s@,
{
    let mut out: Vec<char> = Vec::new();
    for c in it: s.chars()
        invariant
            it.seq() == s@,
            out@ == s@.take(it.index() as int),
    {
        out.push(c);
        proof {
            assert(s@.take(it.index() + 1) =~= s@.take(it.index() as int).push(c));
        }
    }
    proof {
        assert(s@.take(s@.len() as int) =~= s@);
    }
    out
}

/// The text that some of a list of characters make.
pub fn text_between(chars: &Vec<char>, from: usize, to: usize) -> (s: String)
    requires
        from <= to <= chars@.len(),
    ensures
        s@ == chars@.subrange(from as int, to as int),
{
    let mut s = String::new();
    proof {
        assert(s@ =~= chars@.subrange(from as int, from as int));
    }
    for i in from..to
        invariant
            from <= to <= chars@.len(),
            s@ == chars@.subrange(from as int, i as int),
    {
        s.push(chars[i]);
        proof {
            assert(chars@.subrange(from as int, i + 1) =~= chars@.subrange(from as int, i as int).push(chars@[i as int]));
        }
    }
    s
}

/// The contents of a list of texts.
pub open spec fn texts(list: Seq<String>) -> Seq<Seq<char>> {
    Seq::new(list.len(), |i: int| list[i]@)
}

/// The decimal digits of a number, without zeros in front.
pub open spec fn decimal(n: nat) -> Seq<char>
    decreases n,
{
    if n < 10 {
        seq![digit_char(n as int)]
    } else {
        decimal(n / 10).push(digit_char((n % 10) as int))
    }
}

/// The decimal digits of a number, with a sign in front if it is negative.
pub open spec fn decimal_int(n: int) -> Seq<char> {
    if n < 0 {
        seq!['-'] + decimal((-n) as nat)
    } else {
        decimal(n as nat)
    }
}

/// A text with as many of a character in front as make it at least `width` long.
pub open spec fn filled(s: Seq<char>, width: nat, fill: char) -> Seq<char> {
    if s.len() < width {
        Seq::new((width - s.len()) as nat, |i: int| fill) + s
    } else {
        s
    }
}

/// Digits stand for their number.
pub proof fn lemma_decimal(n: nat)
    ensures
        decimal(n).len() > 0,
        decimal_value(decimal(n)) == n,
        forall|i: int| 0 <= i < decimal(n).len() ==> is_digit(#[trigger] decimal(n)[i]),
    decreases n,
{
    let s = decimal(n);
    if n < 10 {
        reveal_with_fuel(decimal_value, 2);
        assert(s.drop_last() =~= Seq::empty());
    } else {
        lemma_decimal(n / 10);
        assert(s.drop_last() =~= decimal(n / 10));
        assert forall|i: int| 0 <= i < s.len() implies is_digit(#[trigger] s[i]) by {
            if i < s.len() - 1 {
                assert(s[i] == decimal(n / 10)[i]);
            }
        }
    }
}

/// Appends the decimal digits of a number.
pub fn push_decimal(s: &mut String, n: u64)
    ensures
        final(s)@ == old(s)@ + decimal(n as nat),
    decreases n,
{
    if n >= 10 {
        push_decimal(s, n / 10);
    }
    s.push(digit_to_char(n % 10));
    proof {
        assert(s@ =~= old(s)@ + decimal(n as nat));
    }
}

/// Appends the decimal digits of a number that may be negative.
pub fn push_decimal_i64(s: &mut String, n: i64)
    ensures
        final(s)@ == old(s)@ + decimal_int(n as int),
{
    if n < 0 {
        s.push('-');
        let magnitude: u64 = if n == i64::MIN {
            9_223_372_036_854_775_808
        } else {
            (-n) as u64
        };
        push_decimal(s, magnitude);
        proof {
            assert(s@ =~= old(s)@ + decimal_int(n as int));
        }
    } else {
        push_decimal(s, n as u64);
    }
}

/// The decimal digits of a number.
pub fn decimal_text(n: u64) -> (s: String)
    ensures
        s@ == decimal(n as nat),
{
    let mut s = String::new();
    push_decimal(&mut s, n);
    proof {
        assert(s@ =~= decimal(n as nat));
    }
    s
}

/// Appends a text with as many of a character in front as make it at least `width` long.
pub fn push_filled(s: &mut String, part: &str, width: usize, fill: char)
    ensures
        final(s)@ == old(s)@ + filled(part@, width as nat, fill),
{
    let len: usize = part.unicode_len();
    if len < width {
        let missing: usize = width - len;
        for i in 0..missing
            invariant
                s@ == old(s)@ + Seq::new(i as nat, |j: int| fill),
        {
            let ghost before = s@;
            s.push(fill);
            proof {
                assert(s@ =~= old(s)@ + Seq::new((i + 1) as nat, |j: int| fill));
            }
        }
    } else {
        proof {
            assert(old(s)@ =~= s@);
        }
    }
    let ghost before = s@;
    s.append(part);
    proof {
        assert(s@ =~= old(s)@ + filled(part@, width as nat, fill));
    }
}

/// White space: what separates words.
pub open spec fn is_white(c: char) -> bool {
    let n = c as u32;
    ||| 9 <= n <= 13
    ||| n == 32
    ||| n == 0x85
    ||| n == 0xa0
    ||| n == 0x1680
    ||| 0x2000 <= n <= 0x200a
    ||| n == 0x2028
    ||| n == 0x2029
    ||| n == 0x202f
    ||| n == 0x205f
    ||| n == 0x3000
}

/// White space: what separates words.
pub fn white(c: char) -> (r: bool)
    ensures
        r == is_white(c),
{
    let n: u32 = c as u32;
    (9 <= n && n <= 13) || n == 32 || n == 0x85 || n == 0xa0 || n == 0x1680 || (0x2000 <= n && n <= 0x200a) || n == 0x2028
        || n == 0x2029 || n == 0x202f || n == 0x205f || n == 0x3000
}

/// The words of a text: what stands between white space.
pub open spec fn words(s: Seq<char>) -> Seq<Seq<char>>
    decreases s.len(),
{
    if s.len() == 0 {
        Seq::empty()
    } else {
        let before = words(s.drop_last());
        if is_white(s.last()) {
            before
        } else if s.len() == 1 || is_white(s[s.len() - 2]) {
            before.push(seq![s.last()])
        } else {
            before.drop_last().push(before.last().push(s.last()))
        }
    }
}

/// The words of a part of a text.
pub fn words_between(chars: &Vec<char>, from: usize, to: usize) -> (list: Vec<String>)
    requires
        from <= to <= chars@.len(),
    ensures
        texts(list@) == words(chars@.subrange(from as int, to as int)),
{
    let mut list: Vec<String> = Vec::new();
    let mut word: String = String::new();
    let mut open = false;
    proof {
        assert(chars@.subrange(from as int, from as int) =~= Seq::empty());
        assert(texts(list@) =~= Seq::<Seq<char>>::empty());
    }
    for i in from..to
        invariant
            from <= to <= chars@.len(),
            open == (i > from && !is_white(chars@[i - 1])),
            words(chars@.subrange(from as int, i as int)) == (if open {
                texts(list@).push(word@)
            } else {
                texts(list@)
            }),
            !open ==> word@ == Seq::<char>::empty(),
    {
        let c = chars[i];
        let ghost so_far = chars@.subrange(from as int, i as int);
        let ghost now = chars@.subrange(from as int, i + 1);
        let ghost done = texts(list@);
        proof {
            assert(now.drop_last() =~= so_far);
            assert(now.last() == c);
            assert(i > from ==> now[now.len() - 2] == chars@[i - 1]);
        }
        if white(c) {
            if open {
                let ghost full = word@;
                list.push(word);
                word = String::new();
                proof {
                    assert(texts(list@) =~= done.push(full));
                }
            }
            open = false;
        } else {
            let ghost short = word@;
            word.push(c);
            proof {
                if open {
                    assert(done.push(short).drop_last() =~= done);
                } else {
                    assert(word@ =~= seq![c]);
                }
            }
            open = true;
        }
    }
    if open {
        let ghost done = texts(list@);
        let ghost full = word@;
        list.push(word);
        proof {
            assert(texts(list@) =~= done.push(full));
        }
    }
    list
}

/// A text without white space in front.
pub open spec fn trim_front(s: Seq<char>) -> Seq<char>
    decreases s.len(),
{
    if s.len() > 0 && is_white(s[0]) {
        trim_front(s.drop_first())
    } else {
        s
    }
}

/// A text without white space at its end.
pub open spec fn trim_back(s: Seq<char>) -> Seq<char>
    decreases s.len(),
{
    if s.len() > 0 && is_white(s.last()) {
        trim_back(s.drop_last())
    } else {
        s
    }
}

/// A text without white space around it.
pub open spec fn trimmed(s: Seq<char>) -> Seq<char> {
    trim_back(trim_front(s))
}

/// A text without white space around it.
pub fn trim(s: &str) -> (r: String)
    ensures
        r@ == trimmed(s@),
{
    let chars = chars_of(s);
    let n: usize = chars.len();
    let mut from: usize = 0;
    proof {
        assert(chars@.subrange(0, n as int) =~= chars@);
    }
    while from < n && white(chars[from])
        invariant
            from <= n,
            n == chars@.len(),
            trim_front(chars@) == trim_front(chars@.subrange(from as int, n as int)),
        decreases n - from,
    {
        proof {
            assert(chars@.subrange(from as int, n as int).drop_first() =~= chars@.subrange(from + 1, n as int));
        }
        from = from + 1;
    }
    let ghost front = chars@.subrange(from as int, n as int);
    let mut to: usize = n;
    while to > from && white(chars[to - 1])
        invariant
            from <= to <= n,
            n == chars@.len(),
            front == chars@.subrange(from as int, n as int),
            trim_back(front) == trim_back(chars@.subrange(from as int, to as int)),
        decreases to,
    {
        proof {
            assert(chars@.subrange(from as int, to as int).drop_last() =~= chars@.subrange(from as int, to - 1));
        }
        to = to - 1;
    }
    text_between(&chars, from, to)
}

/// The lower-case letter of an upper-case one; other characters stay.
pub open spec fn lower(c: char) -> char {
    if 'A' <= c <= 'Z' {
        (c as u8 + 32) as char
    } else {
        c
    }
}

/// The lower-case letter of an upper-case one; other characters stay.
pub fn to_lower(c: char) -> (r: char)
    ensures
        r == lower(c),
{
    if 'A' <= c && c <= 'Z' {
        (c as u8 + 32) as char
    } else {
        c
    }
}

/// A text in lower case.
pub open spec fn lowered(s: Seq<char>) -> Seq<char> {
    Seq::new(s.len(), |i: int| lower(s[i]))
}

/// A text in lower case; only the letters of ASCII change.
pub fn lower_text(s: &str) -> (r: String)
    ensures
        r@ == lowered(s@),
{
    let chars = chars_of(s);
    let mut r = String::new();
    for i in 0..chars.len()
        invariant
            chars@ == s@,
            r@ == lowered(s@).take(i as int),
    {
        r.push(to_lower(chars[i]));
        proof {
            assert(lowered(s@).take(i + 1) =~= lowered(s@).take(i as int).push(lower(s@[i as int])));
        }
    }
    proof {
        assert(lowered(s@).take(s@.len() as int) =~= lowered(s@));
    }
    r
}

/// Whether a text stands in another at a position.
pub open spec fn stands_in(s: Seq<char>, part: Seq<char>, at: int) -> bool {
    0 <= at && at + part.len() <= s.len() && s.subrange(at, at + part.len()) == part
}

/// Whether a text holds another.
pub open spec fn holds(s: Seq<char>, part: Seq<char>) -> bool {
    exists|at: int| #[trigger] stands_in(s, part, at)
}

/// The first position at which a text stands in another, from `from` on.
pub fn find_from(s: &Vec<char>, part: &Vec<char>, from: usize) -> (r: Option<usize>)
    requires
        from <= s@.len(),
    ensures
        match r {
            Some(at) => {
                &&& from <= at
                &&& stands_in(s@, part@, at as int)
                &&& forall|i: int| from <= i < at ==> !#[trigger] stands_in(s@, part@, i)
            },
            None => forall|i: int| from <= i ==> !#[trigger] stands_in(s@, part@, i),
        },
{
    let n: usize = s.len();
    let m: usize = part.len();
    if m > n {
        return None;
    }
    let mut at: usize = from;
    while at <= n - m
        invariant
            n == s@.len(),
            m == part@.len(),
            m <= n,
            from <= at <= n + 1,
            forall|i: int| from <= i < at ==> !#[trigger] stands_in(s@, part@, i),
        decreases n + 1 - at,
    {
        let mut k: usize = 0;
        while k < m && s[at + k] == part[k]
            invariant
                n == s@.len(),
                m == part@.len(),
                at + m <= n,
                k <= m,
                forall|j: int| 0 <= j < k ==> s@[at + j] == #[trigger] part@[j],
            decreases m - k,
        {
            k = k + 1;
        }
        if k == m {
            proof {
                assert(s@.subrange(at as int, at + m) =~= part@);
            }
            return Some(at);
        }
        proof {
            assert(!stands_in(s@, part@, at as int)) by {
                if stands_in(s@, part@, at as int) {
                    assert(s@.subrange(at as int, at + m)[k as int] == s@[at + k]);
                }
            }
        }
        if at == usize::MAX {
            return None;
        }
        at = at + 1;
    }
    None
}

/// Whether a text holds another.
pub fn contains_text(s: &str, part: &str) -> (r: bool)
    ensures
        r == holds(s@, part@),
{
    let chars = chars_of(s);
    let wanted = chars_of(part);
    match find_from(&chars, &wanted, 0) {
        Some(at) => {
            proof {
                assert(stands_in(s@, part@, at as int));
            }
            true
        },
        None => false,
    }
}

/// Whether a text comes before another: by their first difference, or as a part of it.
pub open spec fn text_before(a: Seq<char>, b: Seq<char>) -> bool
    decreases a.len(),
{
    if b.len() == 0 {
        false
    } else if a.len() == 0 {
        true
    } else if a[0] != b[0] {
        a[0] < b[0]
    } else {
        text_before(a.drop_first(), b.drop_first())
    }
}

/// Whether a text comes before another.
pub fn comes_before(a: &str, b: &str) -> (r: bool)
    ensures
        r == text_before(a@, b@),
{
    let x = chars_of(a);
    let y = chars_of(b);
    let mut i: usize = 0;
    proof {
        assert(a@.skip(0) =~= a@);
        assert(b@.skip(0) =~= b@);
    }
    while i < x.len() && i < y.len() && x[i] == y[i]
        invariant
            x@ == a@,
            y@ == b@,
            i <= a@.len(),
            i <= b@.len(),
            text_before(a@, b@) == text_before(a@.skip(i as int), b@.skip(i as int)),
        decreases a@.len() - i,
    {
        proof {
            assert(a@.skip(i as int).drop_first() =~= a@.skip(i + 1));
            assert(b@.skip(i as int).drop_first() =~= b@.skip(i + 1));
        }
        i = i + 1;
    }
    if i == y.len() {
        return false;
    }
    if i == x.len() {
        return true;
    }
    x[i] < y[i]
}

/// The number that a text stands for: digits, perhaps with a plus sign in front.
pub open spec fn parsed_u64(s: Seq<char>) -> Option<u64> {
    let digits = if s.len() > 0 && s[0] == '+' {
        s.skip(1)
    } else {
        s
    };
    if digits.len() > 0 && all_digits(digits) && decimal_value(digits) <= u64::MAX {
        Some(decimal_value(digits) as u64)
    } else {
        None
    }
}

pub open spec fn all_digits(s: Seq<char>) -> bool {
    forall|i: int| 0 <= i < s.len() ==> is_digit(#[trigger] s[i])
}

/// More digits never make a smaller number.
proof fn lemma_value_grows(s: Seq<char>, i: int)
    requires
        all_digits(s),
        0 <= i <= s.len(),
    ensures
        decimal_value(s.take(i)) <= decimal_value(s),
    decreases s.len() - i,
{
    if i == s.len() {
        assert(s.take(i) =~= s);
    } else {
        assert(s.take(i + 1).drop_last() =~= s.take(i));
        assert(is_digit(s[i]));
        lemma_value_grows(s, i + 1);
    }
}

/// The number that a text stands for: digits, perhaps with a plus sign in front.
pub fn parse_u64(s: &str) -> (r: Option<u64>)
    ensures
        r == parsed_u64(s@),
{
    let chars = chars_of(s);
    let n: usize = chars.len();
    let start: usize = if n > 0 && chars[0] == '+' {
        1
    } else {
        0
    };
    let ghost digits = s@.skip(start as int);
    proof {
        assert(s@.skip(0) =~= s@);
    }
    if start == n {
        return None;
    }
    let mut value: u64 = 0;
    for i in start..n
        invariant
            chars@ == s@,
            n == chars@.len(),
            start <= 1,
            start < n,
            digits == s@.skip(start as int),
            parsed_u64(s@) == (if all_digits(digits) && decimal_value(digits) <= u64::MAX {
                Some(decimal_value(digits) as u64)
            } else {
                None
            }),
            forall|j: int| 0 <= j < i - start ==> is_digit(#[trigger] digits[j]),
            value == decimal_value(digits.take(i - start)),
    {
        let c = chars[i];
        proof {
            assert(digits[i - start] == c);
            assert(digits.take(i - start + 1).drop_last() =~= digits.take(i - start));
            if all_digits(digits) {
                lemma_value_grows(digits, i - start + 1);
            }
        }
        if c < '0' || '9' < c {
            return None;
        }
        let d: u64 = c as u64 - 48;
        value = match value.checked_mul(10) {
            None => return None,
            Some(shifted) => match shifted.checked_add(d) {
                None => return None,
                Some(next) => next,
            },
        };
    }
    proof {
        assert(digits.take(n - start) =~= digits);
    }
    Some(value)
}

/// The number that the digits of a number stand for is that number.
pub proof fn law_decimal_round_trips(n: u64)
    ensures
        parsed_u64(decimal(n as nat)) == Some(n),
{
    lemma_decimal(n as nat);
    assert(is_digit(decimal(n as nat)[0]));
}

/// The hexadecimal digit of a value below sixteen.
pub open spec fn hex_digit(d: int) -> char {
    if d < 10 {
        (d + 48) as char
    } else {
        (d + 87) as char
    }
}

/// Bytes as hexadecimal digits, two for each.
pub open spec fn hex_text(data: Seq<u8>) -> Seq<char>
    decreases data.len(),
{
    if data.len() == 0 {
        Seq::empty()
    } else {
        hex_text(data.drop_last()).push(hex_digit(data.last() as int / 16)).push(hex_digit(data.last() as int % 16))
    }
}

fn hex_char(d: u8) -> (c: char)
    requires
        d < 16,
    ensures
        c == hex_digit(d as int),
{
    if d < 10 {
        (d + 48) as char
    } else {
        (d + 87) as char
    }
}

/// Bytes as hexadecimal digits, two for each.
pub fn to_hex(data: &[u8]) -> (out: String)
    ensures
        out@ == hex_text(data@),
{
    let mut out = String::new();
    proof {
        assert(out@ =~= hex_text(data@.take(0)));
    }
    for i in 0..data.len()
        invariant
            out@ == hex_text(data@.take(i as int)),
    {
        out.push(hex_char(data[i] / 16));
        out.push(hex_char(data[i] % 16));
        proof {
            assert(data@.take(i + 1).drop_last() =~= data@.take(i as int));
        }
    }
    proof {
        assert(data@.take(data@.len() as int) =~= data@);
    }
    out
}

/// Different bytes have different hexadecimal digits.
pub proof fn law_hex_is_injective(a: Seq<u8>, b: Seq<u8>)
    requires
        hex_text(a) == hex_text(b),
    ensures
        a == b,
    decreases a.len(),
{
    lemma_hex_len(a);
    lemma_hex_len(b);
    if a.len() == 0 {
        assert(a =~= b);
    } else {
        let x = hex_text(a);
        let y = hex_text(b);
        let n = x.len() as int;
        assert(x.drop_last().drop_last() =~= hex_text(a.drop_last()));
        assert(y.drop_last().drop_last() =~= hex_text(b.drop_last()));
        assert(x[n - 1] == y[n - 1] && x[n - 2] == y[n - 2]);
        law_hex_is_injective(a.drop_last(), b.drop_last());
        assert(a =~= a.drop_last().push(a.last()));
        assert(b =~= b.drop_last().push(b.last()));
    }
}

proof fn lemma_hex_len(data: Seq<u8>)
    ensures
        hex_text(data).len() == 2 * data.len(),
    decreases data.len(),
{
    if data.len() > 0 {
        lemma_hex_len(data.drop_last());
    }
}

/// The number that a text stands for: digits, perhaps with a sign in front.
pub open spec fn parsed_i32(s: Seq<char>) -> Option<i32> {
    let negative = s.len() > 0 && s[0] == '-';
    let digits = if s.len() > 0 && (s[0] == '+' || s[0] == '-') {
        s.skip(1)
    } else {
        s
    };
    let value = if negative {
        -(decimal_value(digits) as int)
    } else {
        decimal_value(digits) as int
    };
    if digits.len() > 0 && all_digits(digits) && i32::MIN <= value <= i32::MAX {
        Some(value as i32)
    } else {
        None
    }
}

/// The number that a text stands for: digits, perhaps with a sign in front.
pub fn parse_i32(s: &str) -> (r: Option<i32>)
    ensures
        r == parsed_i32(s@),
{
    let chars = chars_of(s);
    let n: usize = chars.len();
    let negative = n > 0 && chars[0] == '-';
    let start: usize = if n > 0 && (chars[0] == '+' || chars[0] == '-') {
        1
    } else {
        0
    };
    proof {
        assert(s@.skip(0) =~= s@);
    }
    let digits = text_between(&chars, start, n);
    proof {
        assert(digits@ =~= s@.skip(start as int));
    }
    if digits.unicode_len() > 0 && digits.as_str().get_char(0) == '+' {
        proof {
            assert(!is_digit(digits@[0]));
        }
        return None;
    }
    match parse_u64(digits.as_str()) {
        None => None,
        Some(value) => if negative {
            if value > 2_147_483_648 {
                None
            } else {
                Some((0i64 - value as i64) as i32)
            }
        } else if value > 2_147_483_647 {
            None
        } else {
            Some(value as i32)
        },
    }
}

} // verus!
