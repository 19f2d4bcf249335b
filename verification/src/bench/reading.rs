//! What is read from and written to reports, line by line.
use crate::bench::certify;
use crate::bench::config::{DurabilityKind, EngineKind, FailpointMatrixCase, RunSpec, WorkloadKind};
use crate::bench::failpoint_matrix;
use crate::bench::queries;
use crate::bench::report;
use crate::bench::report::FileLen;
use crate::bench::strace;
use crate::bench::strace::CallCount;
use crate::bench::workload;
use crate::text;
use crate::text_laws;
use vstd::prelude::*;
use vstd::string::*;

verus! {

/// The calls that a list counts under a name, all entries of the name together.
pub open spec fn calls_named(child: Seq<CallCount>, name: Seq<char>) -> nat
    decreases child.len(),
{
    if child.len() == 0 {
        0
    } else {
        calls_named(child.drop_last(), name) + if child.last().name@ == name {
            child.last().calls as nat
        } else {
            0
        }
    }
}

/// Whether a list has an entry of a name.
pub open spec fn lists_name(child: Seq<CallCount>, name: Seq<char>) -> bool {
    exists|i: int| 0 <= i < child.len() && (#[trigger] child[i]).name@ == name
}

/// What counts say under a name; nothing where it is missing.
pub open spec fn count_at(counts: Map<Seq<char>, nat>, name: Seq<char>) -> nat {
    if counts.dom().contains(name) {
        counts[name]
    } else {
        0
    }
}

/// The calls of a child are added to the counts name by name, and no other count changes.
pub proof fn law_calls_are_added_by_name(counts: Map<Seq<char>, nat>, child: Seq<CallCount>, name: Seq<char>)
    ensures
        count_at(strace::with_child(counts, child), name) == count_at(counts, name) + calls_named(child, name),
        strace::with_child(counts, child).dom().contains(name) <==> counts.dom().contains(name) || lists_name(child, name),
    decreases child.len(),
{
    if child.len() > 0 {
        let init = child.drop_last();
        law_calls_are_added_by_name(counts, init, name);
        if lists_name(init, name) {
            let i = choose|i: int| 0 <= i < init.len() && (#[trigger] init[i]).name@ == name;
            assert(child[i].name@ == name);
        }
        if lists_name(child, name) {
            let i = choose|i: int| 0 <= i < child.len() && (#[trigger] child[i]).name@ == name;
            if i < init.len() {
                assert(init[i].name@ == name);
            }
        }
        if child.last().name@ == name {
            assert(child[child.len() - 1].name@ == name);
        }
    }
}

/// The calls that all children made under a name.
pub open spec fn all_named(children: Seq<Option<Vec<CallCount>>>, name: Seq<char>) -> nat
    decreases children.len(),
{
    if children.len() == 0 {
        0
    } else {
        all_named(children.drop_last(), name) + match children.last() {
            Some(child) => calls_named(child@, name),
            None => 0,
        }
    }
}

/// The counts of all children say, under every name, how many calls they made together.
pub proof fn law_calls_of_all_children_are_counted(children: Seq<Option<Vec<CallCount>>>, name: Seq<char>)
    ensures
        count_at(strace::all_counts(children), name) == all_named(children, name),
    decreases children.len(),
{
    if children.len() > 0 {
        let init = children.drop_last();
        law_calls_of_all_children_are_counted(init, name);
        if let Some(child) = children.last() {
            law_calls_are_added_by_name(strace::all_counts(init), child@, name);
        }
    }
}

/// Children that could not be read or made no calls are counted one by one.
pub proof fn law_silent_children_are_counted(children: Seq<Option<Vec<CallCount>>>)
    ensures
        strace::count_empty(children) == children.filter(
            |c: Option<Vec<CallCount>>| c is None || c->Some_0@.len() == 0,
        ).len(),
    decreases children.len(),
{
    reveal(Seq::filter);
    if children.len() > 0 {
        law_silent_children_are_counted(children.drop_last());
    }
}

/// A line ends at the first line end behind its start, or where the text ends.
pub proof fn law_lines_end_at_line_ends(s: Seq<char>, from: int)
    requires
        0 <= from <= s.len(),
    ensures
        from <= report::line_end(s, from) <= s.len(),
        forall|i: int| from <= i < report::line_end(s, from) ==> #[trigger] s[i] != '\n',
        report::line_end(s, from) < s.len() ==> s[report::line_end(s, from)] == '\n',
    decreases s.len() - from,
{
    if from < s.len() && s[from] != '\n' {
        law_lines_end_at_line_ends(s, from + 1);
    }
}

proof fn lemma_word_at(s: Seq<char>, to: int)
    requires
        0 <= to <= s.len(),
    ensures
        ({
            let w = report::word_at(s, to);
            &&& to <= w.len() <= s.len()
            &&& w == s.subrange(0, w.len() as int)
            &&& forall|i: int| to <= i < w.len() ==> !text::is_white(#[trigger] s[i])
            &&& w.len() < s.len() ==> text::is_white(s[w.len() as int])
        }),
    decreases s.len() - to,
{
    if to < s.len() && !text::is_white(s[to]) {
        lemma_word_at(s, to + 1);
    }
}

/// The first word of a text is the first of its words; a text without words has none.
pub proof fn law_first_word_comes_first(s: Seq<char>)
    ensures
        text::words(s).len() > 0 ==> report::first_word(s) == text::words(s)[0],
        text::words(s).len() == 0 ==> report::first_word(s).len() == 0,
    decreases s.len(),
{
    if s.len() > 0 {
        if text::is_white(s[0]) {
            let rest = s.drop_first();
            law_first_word_comes_first(rest);
            let none = Seq::<char>::empty();
            text_laws::law_white_space_separates_words(none, s[0], rest);
            assert(none.push(s[0]) + rest =~= s);
            assert(text::words(none) + text::words(rest) =~= text::words(rest));
        } else {
            lemma_word_at(s, 0);
            let w = report::word_at(s, 0);
            let n = w.len() as int;
            assert(w.len() > 0);
            assert(text_laws::none_white(w)) by {
                assert forall|i: int| 0 <= i < w.len() implies !text::is_white(#[trigger] w[i]) by {
                    assert(w[i] == s[i]);
                }
            }
            text_laws::law_text_without_white_space_is_a_word(w);
            if n < s.len() {
                let rest = s.skip(n + 1);
                text_laws::law_white_space_separates_words(w, s[n], rest);
                assert(w.push(s[n]) + rest =~= s);
            } else {
                assert(w =~= s);
            }
        }
    } else {
        assert(text::words(s) =~= Seq::empty());
    }
}

/// Files count exactly if their name ends with a dot and the extension, behind a name that is not empty,
/// and lists of files count together.
pub proof fn law_files_count_by_extension(base: Seq<char>, extension: Seq<char>, a: Seq<FileLen>, b: Seq<FileLen>)
    requires
        !extension.contains('.'),
    ensures
        report::has_extension(base + seq!['.'] + extension, extension) <==> base.len() > 0,
        report::bytes_with(a + b, extension) == report::bytes_with(a, extension) + report::bytes_with(b, extension),
        a.len() == 1 ==> report::bytes_with(a, extension) == (if report::has_extension(a[0].name@, extension) {
            a[0].len as nat
        } else {
            0
        }),
    decreases b.len(),
{
    let name = base + seq!['.'] + extension;
    assert(name.skip(base.len() as int + 1) =~= extension);
    assert(name[base.len() as int] == '.');
    if a.len() == 1 {
        assert(a.drop_last() =~= Seq::empty());
        reveal_with_fuel(report::bytes_with, 2);
    }
    if b.len() == 0 {
        assert(a + b =~= a);
    } else {
        law_files_count_by_extension(base, extension, a, b.drop_last());
        assert((a + b).drop_last() =~= a + b.drop_last());
        assert((a + b).last() == b.last());
    }
}

/// A name without the extension at its end does not count.
pub proof fn law_other_files_do_not_count(name: Seq<char>, extension: Seq<char>)
    requires
        report::has_extension(name, extension),
    ensures
        exists|base: Seq<char>| #![trigger base.len()] base.len() > 0 && name == base + seq!['.'] + extension,
{
    let at = name.len() - extension.len() - 1;
    let base = name.take(at);
    assert(name =~= base + seq!['.'] + name.skip(at + 1));
    assert(base.len() > 0);
}

/// The value of a field ends before the first comma or brace behind it.
pub proof fn law_values_end_at_commas(json: Seq<char>, from: int)
    requires
        0 <= from <= json.len(),
    ensures
        from <= queries::value_end(json, from) <= json.len(),
        forall|i: int| from <= i < queries::value_end(json, from) ==> #[trigger] json[i] != ',' && json[i] != '}',
        queries::value_end(json, from) < json.len() ==> json[queries::value_end(json, from)] == ','
            || json[queries::value_end(json, from)] == '}',
    decreases json.len() - from,
{
    if from < json.len() && json[from] != ',' && json[from] != '}' {
        law_values_end_at_commas(json, from + 1);
    }
}

/// The key that a worker inserts says which worker it was and which number it drew.
pub proof fn law_inserted_key_names_its_worker(worker: usize, word: u32)
    requires
        worker < 0x8000_0000,
    ensures
        workload::insert_key(worker, word) >= 0,
        workload::insert_key(worker, word) as int / 0x1_0000_0000 == worker,
        workload::insert_key(worker, word) as int % 0x1_0000_0000 == word,
{
    let w = worker as u64;
    let x = word as u64;
    assert(((w << 32) | x) == w * 0x1_0000_0000 + x) by (bit_vector)
        requires
            w < 0x8000_0000,
            x < 0x1_0000_0000,
    ;
}

/// Every key has a tenant, keys that follow each other have tenants that follow each other, and there are
/// thirty-two.
pub proof fn law_tenants_take_turns(key: i64)
    requires
        key < i64::MAX,
    ensures
        0 <= workload::tenant_of(key) < workload::TENANTS,
        key >= 0 ==> workload::tenant_of((key + 1) as i64) == if workload::tenant_of(key) == workload::TENANTS - 1 {
            0
        } else {
            workload::tenant_of(key) + 1
        },
        workload::tenant_of(0) == 0,
        key > i64::MIN ==> workload::tenant_of(key) == workload::tenant_of((-(key as int)) as i64),
{
}

/// Mixed workloads read as often as their names say, and workloads of one kind have no share.
pub proof fn law_mixed_workloads_share(kind: WorkloadKind)
    ensures
        kind is MixedOltp ==> (workload::read_share(kind) matches Some((reads, of)) && reads * 100 == of * 80),
        kind is Mixed95Read5Write ==> (workload::read_share(kind) matches Some((reads, of)) && reads * 100 == of * 95),
        kind is Mixed80Read20Write ==> (workload::read_share(kind) matches Some((reads, of)) && reads * 100 == of * 80),
        kind is Mixed50Read50Write ==> (workload::read_share(kind) matches Some((reads, of)) && reads * 100 == of * 50),
        workload::read_share(kind) matches Some((reads, of)) ==> 0 < reads < of,
        workload::read_share(kind) is None <==> !(kind is MixedOltp || kind is Mixed95Read5Write
            || kind is Mixed80Read20Write || kind is Mixed50Read50Write),
{
}

/// Different numbers below a hundred million have different values of one length, and every value starts
/// with the same word.
pub proof fn law_values_tell_numbers_apart(a: nat, b: nat)
    ensures
        text::stands_in(workload::value_text(a), "value-"@, 0),
        workload::value_text(a).len() >= 14,
        a < 100_000_000 ==> workload::value_text(a).len() == 14,
        a < 100_000_000 && b < 100_000_000 && workload::value_text(a) == workload::value_text(b) ==> a == b,
{
    reveal_strlit("value-");
    reveal_with_fuel(text::pow10, 9);
    let head = "value-"@;
    let x = text::filled(text::decimal(a), 8, '0');
    let y = text::filled(text::decimal(b), 8, '0');
    assert(workload::value_text(a).subrange(0, 6) =~= head);
    text_laws::law_filled_text_ends_with_the_text(text::decimal(a), 8, '0');
    text_laws::law_filled_text_ends_with_the_text(text::decimal(b), 8, '0');
    if a < 100_000_000 {
        lemma_eight_digits(a, 8);
    }
    if a < 100_000_000 && b < 100_000_000 && workload::value_text(a) == workload::value_text(b) {
        lemma_eight_digits(b, 8);
        assert(x =~= workload::value_text(a).skip(6));
        assert(y =~= workload::value_text(b).skip(6));
        lemma_filled_value(a);
        lemma_filled_value(b);
    }
}

proof fn lemma_eight_digits(n: nat, width: nat)
    requires
        n < text::pow10(width),
        width > 0,
    ensures
        text::decimal(n).len() <= width,
        width == 8 ==> text::pow10(width) == 100_000_000,
    decreases width,
{
    if width == 8 {
        reveal_with_fuel(text::pow10, 9);
    }
    if n >= 10 {
        if width == 1 {
            reveal_with_fuel(text::pow10, 2);
        }
        lemma_eight_digits(n / 10, (width - 1) as nat);
    }
}

proof fn lemma_filled_value(n: nat)
    ensures
        text::decimal_value(text::filled(text::decimal(n), 8, '0')) == n,
{
    text::lemma_decimal(n);
    let s = text::decimal(n);
    if s.len() < 8 {
        lemma_zeros_in_front((8 - s.len()) as nat, s);
    }
}

proof fn lemma_zeros_in_front(n: nat, s: Seq<char>)
    ensures
        text::decimal_value(Seq::new(n, |i: int| '0') + s) == text::decimal_value(s),
    decreases s.len(), n,
{
    let zeros = Seq::new(n, |i: int| '0');
    let all = zeros + s;
    if s.len() > 0 {
        lemma_zeros_in_front(n, s.drop_last());
        assert(all.drop_last() =~= zeros + s.drop_last());
        assert(all.last() == s.last());
    } else if n > 0 {
        lemma_zeros_in_front((n - 1) as nat, s);
        assert(all.drop_last() =~= Seq::new((n - 1) as nat, |i: int| '0') + s);
        assert(all.last() == '0');
    } else {
        assert(all =~= s);
    }
}

proof fn lemma_line_end_behind(front: Seq<char>, s: Seq<char>, from: int)
    requires
        0 <= from <= s.len(),
    ensures
        report::line_end(front + s, front.len() + from) == front.len() + report::line_end(s, from),
    decreases s.len() - from,
{
    if from < s.len() {
        assert((front + s)[front.len() + from] == s[from]);
        if s[from] != '\n' {
            lemma_line_end_behind(front, s, from + 1);
        }
    }
}

proof fn lemma_memory_behind(front: Seq<char>, s: Seq<char>, from: int)
    requires
        0 <= from <= s.len(),
    ensures
        report::mem_total(front + s, front.len() + from) == report::mem_total(s, from),
    decreases s.len() - from,
{
    let all = front + s;
    if from < s.len() {
        lemma_line_end_behind(front, s, from);
        law_lines_end_at_line_ends(s, from);
        let end = report::line_end(s, from);
        assert(all.subrange(front.len() + from, front.len() + end) =~= s.subrange(from, end));
        if end < s.len() {
            lemma_memory_behind(front, s, end + 1);
        }
    }
}

proof fn lemma_first_line(line: Seq<char>, rest: Seq<char>, from: int)
    requires
        0 <= from <= line.len(),
        forall|i: int| 0 <= i < line.len() ==> #[trigger] line[i] != '\n',
    ensures
        report::line_end(line + seq!['\n'] + rest, from) == line.len(),
    decreases line.len() - from,
{
    let all = line + seq!['\n'] + rest;
    if from < line.len() {
        assert(all[from] == line[from]);
        lemma_first_line(line, rest, from + 1);
    } else {
        assert(all[from] == '\n');
    }
}

/// The memory of a machine is given by the first line that starts with the word for it: lines before it
/// do not matter, and the number behind the word is taken in units of a thousand and twenty-four.
pub proof fn law_memory_is_read_from_its_line(line: Seq<char>, rest: Seq<char>, gap: Seq<char>, kib: u64, tail: Seq<char>)
    requires
        forall|i: int| 0 <= i < line.len() ==> #[trigger] line[i] != '\n',
    ensures
        !text::stands_in(line, "MemTotal:"@, 0) ==> report::mem_total(line + seq!['\n'] + rest, 0) == report::mem_total(
            rest,
            0,
        ),
        text_laws::all_white(gap) && tail.len() > 0 && text::is_white(tail[0]) && line == "MemTotal:"@ + gap + text::decimal(
            kib as nat,
        ) + tail ==> report::mem_total(line + seq!['\n'] + rest, 0) == Some((kib / 1024) as u64),
{
    let all = line + seq!['\n'] + rest;
    let prefix = "MemTotal:"@;
    lemma_first_line(line, rest, 0);
    assert(all.subrange(0, line.len() as int) =~= line);
    if !text::stands_in(line, prefix, 0) {
        assert(all.len() > 0);
        lemma_memory_behind(line + seq!['\n'], rest, 0);
    }
    if text_laws::all_white(gap) && tail.len() > 0 && text::is_white(tail[0]) && line == prefix + gap + text::decimal(
        kib as nat,
    ) + tail {
        let digits = text::decimal(kib as nat);
        assert(line.subrange(0, prefix.len() as int) =~= prefix);
        let said = line.skip(prefix.len() as int);
        text::lemma_decimal(kib as nat);
        lemma_number_in_words(gap, digits, tail);
        assert(said =~= gap + digits + tail);
        law_first_word_comes_first(said);
        text::law_decimal_round_trips(kib);
    }
}

proof fn lemma_number_in_words(gap: Seq<char>, digits: Seq<char>, tail: Seq<char>)
    requires
        text_laws::all_white(gap),
        digits.len() > 0,
        text::all_digits(digits),
        tail.len() > 0,
        text::is_white(tail[0]),
    ensures
        text::words(gap + digits + tail).len() > 0,
        text::words(gap + digits + tail)[0] == digits,
{
    assert(text_laws::none_white(digits)) by {
        assert forall|i: int| 0 <= i < digits.len() implies !text::is_white(#[trigger] digits[i]) by {
            assert(text::is_digit(digits[i]));
        }
    }
    text_laws::law_text_without_white_space_is_a_word(digits);
    let front = gap + digits;
    let rest = tail.drop_first();
    assert(gap + digits + tail =~= front.push(tail[0]) + rest);
    text_laws::law_white_space_separates_words(front, tail[0], rest);
    if gap.len() > 0 {
        let init = gap.drop_last();
        assert(text_laws::all_white(init)) by {
            assert forall|i: int| 0 <= i < init.len() implies text::is_white(#[trigger] init[i]) by {
                assert(init[i] == gap[i]);
            }
        }
        text_laws::law_text_without_white_space_is_a_word(init);
        assert(text::is_white(gap[gap.len() - 1]));
        assert(front =~= init.push(gap.last()) + digits);
        text_laws::law_white_space_separates_words(init, gap.last(), digits);
        assert(text::words(init) + text::words(digits) =~= text::words(digits));
    } else {
        assert(front =~= digits);
    }
}

/// A list of counts says under each of its names what it counts, if its names ascend.
pub proof fn law_lists_say_what_they_count(list: Seq<CallCount>, i: int, name: Seq<char>)
    requires
        strace::names_ascend(list),
    ensures
        0 <= i < list.len() ==> strace::counted(list).dom().contains(list[i].name@) && strace::counted(
            list,
        )[list[i].name@] == list[i].calls,
        strace::counted(list).dom().contains(name) <==> lists_name(list, name),
    decreases list.len(),
{
    if 0 <= i < list.len() {
        strace::lemma_counted_at(list, i);
    }
    if list.len() > 0 {
        let init = list.drop_last();
        assert(strace::names_ascend(init)) by {
            assert forall|a: int, b: int| 0 <= a < b < init.len() implies text::text_before(
                (#[trigger] init[a]).name@,
                (#[trigger] init[b]).name@,
            ) by {
                assert(init[a] == list[a] && init[b] == list[b]);
            }
        }
        law_lists_say_what_they_count(init, -1, name);
        if lists_name(init, name) {
            let k = choose|k: int| 0 <= k < init.len() && (#[trigger] init[k]).name@ == name;
            assert(list[k].name@ == name);
        }
        if lists_name(list, name) {
            let k = choose|k: int| 0 <= k < list.len() && (#[trigger] list[k]).name@ == name;
            if k < init.len() {
                assert(init[k].name@ == name);
            }
        }
        if list.last().name@ == name {
            assert(list[list.len() - 1].name@ == name);
        }
    }
}

/// The calls of all children together are the sum of the calls of each.
pub proof fn law_all_calls_are_added_up(a: Seq<CallCount>, b: Seq<CallCount>)
    ensures
        strace::calls_of(a + b) == strace::calls_of(a) + strace::calls_of(b),
        a.len() == 1 ==> strace::calls_of(a) == a[0].calls,
    decreases b.len(),
{
    if a.len() == 1 {
        assert(a.drop_last() =~= Seq::empty());
        reveal_with_fuel(strace::calls_of, 2);
    }
    if b.len() == 0 {
        assert(a + b =~= a);
    } else {
        law_all_calls_are_added_up(a, b.drop_last());
        assert((a + b).drop_last() =~= a + b.drop_last());
        assert((a + b).last() == b.last());
    }
}

/// Why nothing is counted: counting needs the right system, has to be asked for, and needs children.
pub proof fn law_counting_needs_children(with_strace: bool, linux: bool, children: nat)
    ensures
        strace::no_counts_reason(with_strace, linux, children) is None <==> linux && with_strace && children > 0,
{
}

proof fn lemma_words_in_front(front: Seq<char>, rest: Seq<char>)
    requires
        front.len() > 0,
        text::is_white(front.last()),
    ensures
        text::words(front + rest) == text::words(front) + text::words(rest),
{
    let a = front.drop_last();
    assert(a.push(front.last()) =~= front);
    text_laws::law_white_space_separates_words(a, front.last(), rest);
    text_laws::law_white_space_separates_words(a, front.last(), Seq::empty());
    assert(front + Seq::<char>::empty() =~= front);
    assert(a.push(front.last()) + Seq::<char>::empty() =~= front);
    assert(text::words(Seq::<char>::empty()) =~= Seq::empty());
    assert(text::words(a) + text::words(Seq::<char>::empty()) =~= text::words(a));
}

proof fn lemma_one_word(gap: Seq<char>, word: Seq<char>, w: char)
    requires
        text_laws::all_white(gap),
        text_laws::none_white(word),
        word.len() > 0,
        text::is_white(w),
    ensures
        text::words((gap + word).push(w)) == seq![word],
{
    let s = gap + word;
    text_laws::law_text_without_white_space_is_a_word(word);
    text_laws::law_white_space_separates_words(s, w, Seq::empty());
    assert(s.push(w) + Seq::<char>::empty() =~= s.push(w));
    assert(text::words(Seq::<char>::empty()) =~= Seq::empty());
    assert(text::words(s) + text::words(Seq::<char>::empty()) =~= text::words(s));
    text_laws::law_text_without_white_space_is_a_word(gap);
    if gap.len() > 0 {
        assert(text::is_white(gap[gap.len() - 1]));
        lemma_words_in_front(gap, word);
        assert(text::words(gap) + text::words(word) =~= text::words(word));
    } else {
        assert(s =~= word);
    }
}

/// The line of a system call in a summary is read back as that call: its name and how often it was made.
#[verifier::spinoff_prover]
pub proof fn law_call_line_is_read_back(c: CallCount)
    requires
        text_laws::none_white(c.name@),
        c.name@.len() > 0,
        c.name@ != "total"@,
    ensures
        strace::call_line(c).len() > 0,
        strace::line_calls(strace::call_line(c).drop_last()) == seq![(c.name@, c.calls)],
{
    reveal_strlit("   0.00    0.000000           0 ");
    reveal_strlit("         0 ");
    reveal_strlit("\n");
    let head = "   0.00    0.000000           0 "@;
    let mid = "         0 "@;
    let digits = text::decimal(c.calls as nat);
    let field = text::filled(digits, 9, ' ');
    let line = strace::call_line(c).drop_last();
    assert(line =~= head + (field + mid) + c.name@);
    let w1 = seq!['0', '.', '0', '0'];
    let w2 = seq!['0', '.', '0', '0', '0', '0', '0', '0'];
    let w3 = seq!['0'];
    let g3 = seq![' ', ' ', ' '];
    let g10 = seq![' ', ' ', ' ', ' ', ' ', ' ', ' ', ' ', ' ', ' '];
    let a = (g3 + w1).push(' ');
    let b = (g3 + w2).push(' ');
    let d = (g10 + w3).push(' ');
    assert(head =~= a + b + d);
    lemma_one_word(g3, w1, ' ');
    lemma_one_word(g3, w2, ' ');
    lemma_one_word(g10, w3, ' ');
    lemma_words_in_front(a, b);
    lemma_words_in_front(a + b, d);
    text::lemma_decimal(c.calls as nat);
    assert(text_laws::none_white(digits)) by {
        assert forall|i: int| 0 <= i < digits.len() implies !text::is_white(#[trigger] digits[i]) by {
            assert(text::is_digit(digits[i]));
        }
    }
    let pad = field.take(field.len() - digits.len());
    text_laws::law_filled_text_ends_with_the_text(digits, 9, ' ');
    assert(field =~= pad + digits);
    assert(text_laws::all_white(pad)) by {
        assert forall|i: int| 0 <= i < pad.len() implies text::is_white(#[trigger] pad[i]) by {
            assert(field[i] == ' ');
        }
    }
    let f = field.push(' ');
    lemma_one_word(pad, digits, ' ');
    let g8 = seq![' ', ' ', ' ', ' ', ' ', ' ', ' ', ' '];
    let e = (g8 + w3).push(' ');
    lemma_one_word(g8, w3, ' ');
    assert(field + mid =~= f + e);
    lemma_words_in_front(head, f);
    lemma_words_in_front(head + f, e);
    lemma_words_in_front(head + f + e, c.name@);
    text_laws::law_text_without_white_space_is_a_word(c.name@);
    assert(line =~= head + f + e + c.name@);
    let words = text::words(line);
    assert(words =~= seq![w1, w2, w3, digits, w3, c.name@]);
    text::law_decimal_round_trips(c.calls);
}

/// Whatever a worker draws, it does what its workload asks for, with the rows and keys that are there.
pub proof fn law_drawn_operations_fit(
    op: workload::BenchOp,
    next: workload::WorkerRng,
    kind: WorkloadKind,
    worker: usize,
    threads: usize,
    rows: usize,
    rng: workload::WorkerRng,
)
    requires
        workload::drawn(op, next, kind, worker, threads, rows, rng),
        kind is SingleRowInsert || kind is BatchedInsert100 || kind is HotRowUpdate,
    ensures
        kind is SingleRowInsert ==> (op matches workload::BenchOp::Insert(row) && row.tenant == workload::tenant_of(
            row.key,
        ) && (worker < 0x8000_0000 ==> row.key as int / 0x1_0000_0000 == worker)),
        kind is BatchedInsert100 ==> op == workload::BenchOp::InsertBatch(100),
        kind is HotRowUpdate ==> (op matches workload::BenchOp::Update { key, blob } && key == 0),
        next.seed == rng.seed,
{
    if kind is SingleRowInsert && worker < 0x8000_0000 {
        law_inserted_key_names_its_worker(worker, workload::word_at(rng.seed, rng.word).0);
    }
}

/// The numbers that a worker draws decide what it does: in a mixed workload it reads for the lower numbers
/// of a roll, as many as its share of reads, and updates for the others. Reads take the row that is drawn,
/// updates the key that is drawn among the worker's own.
pub proof fn law_draws_decide(
    op: workload::BenchOp,
    next: workload::WorkerRng,
    kind: WorkloadKind,
    worker: usize,
    threads: usize,
    rows: usize,
    rng: workload::WorkerRng,
)
    requires
        workload::drawn(op, next, kind, worker, threads, rows, rng),
        rows > 0,
    ensures
        kind is MixedOltp ==> (op is Read <==> workload::roll_at(rng.seed, rng.word, 10).0 < 8),
        kind is Mixed95Read5Write ==> (op is Read <==> workload::roll_at(rng.seed, rng.word, 100).0 < 95),
        kind is Mixed80Read20Write ==> (op is Read <==> workload::roll_at(rng.seed, rng.word, 100).0 < 80),
        kind is Mixed50Read50Write ==> (op is Read <==> workload::roll_at(rng.seed, rng.word, 100).0 < 50),
        kind is MixedOltp || kind is Mixed95Read5Write || kind is Mixed80Read20Write || kind is Mixed50Read50Write
            ==> op is Read || op is Update,
        kind is PointReadPk ==> op == (workload::BenchOp::Read {
            key: workload::below_at(rng.seed, rng.word, rows).0 as i64,
        }),
        kind is SecondaryIndexRead ==> op == (workload::BenchOp::ReadTenant {
            tenant: (workload::below_at(rng.seed, rng.word, rows).0 % 32) as i64,
        }),
        kind is SecondaryIndexRange ==> (op matches workload::BenchOp::CountTenants { low, high } && low
            == workload::below_at(rng.seed, rng.word, rows).0 % 32 && low <= high <= 31 && high - low <= 3 && (high - low
            == 3 || high == 31)),
        kind is WritersDisjoint && 0 < threads <= rows && workload::writer_start(worker, threads, rows)
            + workload::below_at(rng.seed, rng.word, (rows / threads) as usize).0 <= i64::MAX ==> (
        op matches workload::BenchOp::Update { key, blob } && key == workload::writer_start(worker, threads, rows)
            + workload::below_at(rng.seed, rng.word, (rows / threads) as usize).0),
{
    if kind is WritersDisjoint && 0 < threads <= rows {
        assert(rows as int / threads as int >= 1) by (nonlinear_arith)
            requires
                0 < threads <= rows,
        ;
        assert(workload::writer_span(threads, rows) == rows as int / threads as int);
    }
}

/// Whether a word stands right behind another one.
pub open spec fn follows(words: Seq<Seq<char>>, flag: Seq<char>, value: Seq<char>) -> bool {
    exists|i: int| 0 <= i < words.len() - 1 && #[trigger] words[i] == flag && words[i + 1] == value
}

/// A child of a certification is told everything about its run, and where to write what came of it.
pub proof fn law_child_is_told_its_run(spec: RunSpec, out: Seq<char>)
    ensures
        ({
            let words = certify::run_words(spec, out);
            &&& words[0] == "run"@
            &&& follows(words, "--engine"@, spec.engine.name()@)
            &&& follows(words, "--workload"@, spec.workload.name()@)
            &&& follows(words, "--durability"@, spec.durability.name()@)
            &&& follows(words, "--threads"@, text::decimal(spec.threads as nat))
            &&& follows(words, "--rows"@, text::decimal(spec.rows as nat))
            &&& follows(words, "--seconds"@, text::decimal(spec.duration_secs as nat))
            &&& follows(words, "--seed"@, text::decimal(spec.seed as nat))
            &&& follows(words, "--out"@, out)
            &&& spec.cache_bytes >= 1_048_576 ==> follows(
                words,
                "--cache-mib"@,
                text::decimal((spec.cache_bytes / 1_048_576) as nat),
            )
        }),
{
    let words = certify::run_words(spec, out);
    assert(words[1] == "--engine"@ && words[2] == spec.engine.name()@);
    assert(words[3] == "--workload"@ && words[4] == spec.workload.name()@);
    assert(words[5] == "--durability"@ && words[6] == spec.durability.name()@);
    assert(words[7] == "--threads"@ && words[8] == text::decimal(spec.threads as nat));
    assert(words[9] == "--rows"@ && words[10] == text::decimal(spec.rows as nat));
    assert(words[11] == "--seconds"@ && words[12] == text::decimal(spec.duration_secs as nat));
    assert(words[13] == "--cache-mib"@);
    assert(words[15] == "--seed"@ && words[16] == text::decimal(spec.seed as nat));
    assert(words[17] == "--out"@ && words[18] == out);
}

/// A child of the failpoint matrix is told which failpoint ends it, how, and after how many hits, and where
/// its database and its acknowledgements lie.
pub proof fn law_child_is_told_its_failpoint(
    engine: EngineKind,
    durability: DurabilityKind,
    db_dir: Seq<char>,
    ack_log: Seq<char>,
    case: FailpointMatrixCase,
    hits: u64,
)
    ensures
        ({
            let words = failpoint_matrix::child_words(engine, durability, db_dir, ack_log, case, hits);
            &&& words[0] == "failpoint-child"@
            &&& follows(words, "--engine"@, engine.name()@)
            &&& follows(words, "--durability"@, durability.name()@)
            &&& follows(words, "--db-dir"@, db_dir)
            &&& follows(words, "--ack-log"@, ack_log)
            &&& follows(words, "--failpoint"@, case.failpoint@)
            &&& follows(words, "--action"@, case.action@)
            &&& case.rows >= 1 ==> follows(words, "--rows"@, text::decimal(case.rows as nat))
            &&& follows(words, "--kill-after-n-hits"@, text::decimal(hits as nat))
        }),
{
    let words = failpoint_matrix::child_words(engine, durability, db_dir, ack_log, case, hits);
    assert(words[1] == "--engine"@ && words[2] == engine.name()@);
    assert(words[3] == "--durability"@ && words[4] == durability.name()@);
    assert(words[5] == "--db-dir"@ && words[6] == db_dir);
    assert(words[7] == "--ack-log"@ && words[8] == ack_log);
    assert(words[9] == "--failpoint"@ && words[10] == case.failpoint@);
    assert(words[11] == "--action"@ && words[12] == case.action@);
    assert(words[13] == "--rows"@);
    assert(words[15] == "--kill-after-n-hits"@ && words[16] == text::decimal(hits as nat));
}

} // verus!
