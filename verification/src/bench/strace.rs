//! Which system calls the children of a certification made.
use crate::bench::report;
use crate::io;
use crate::text;
use vstd::prelude::*;
use vstd::string::*;

verus! {

/// How often a system call was made.
#[derive(Clone, Debug, PartialEq, Eq)]
pub struct CallCount {
    pub name: String,
    pub calls: u64,
}

/// The names and counts of a list.
pub open spec fn call_pairs(list: Seq<CallCount>) -> Seq<(Seq<char>, u64)> {
    Seq::new(list.len(), |i: int| (list[i].name@, list[i].calls))
}

/// What a line of a summary counts: in its fourth word the calls, in its last one their name. The
/// line of the totals counts nothing.
pub open spec fn line_calls(line: Seq<char>) -> Seq<(Seq<char>, u64)> {
    let words = text::words(line);
    if words.len() < 5 || words.last() == "total"@ {
        Seq::empty()
    } else {
        match text::parsed_u64(words[3]) {
            Some(calls) => seq![(words.last(), calls)],
            None => Seq::empty(),
        }
    }
}

/// What the lines of a summary count from a position on.
pub open spec fn summary_calls(s: Seq<char>, from: int) -> Seq<(Seq<char>, u64)>
    decreases s.len() - from,
{
    if from < 0 || from >= s.len() {
        Seq::empty()
    } else {
        let end = report::line_end(s, from);
        if end < from || end >= s.len() {
            line_calls(s.skip(from))
        } else {
            line_calls(s.subrange(from, end)) + summary_calls(s, end + 1)
        }
    }
}

/// Adds what a line of a summary counts.
fn push_line_calls(calls: &mut Vec<CallCount>, chars: &Vec<char>, from: usize, to: usize)
    requires
        from <= to <= chars@.len(),
    ensures
        call_pairs(final(calls)@) == call_pairs(old(calls)@) + line_calls(chars@.subrange(from as int, to as int)),
{
    let words = text::words_between(chars, from, to);
    let ghost line = chars@.subrange(from as int, to as int);
    let n: usize = words.len();
    if n >= 5 && !io::same_text(words[n - 1].as_str(), "total") {
        if let Some(count) = text::parse_u64(words[3].as_str()) {
            let name = String::from_str(words[n - 1].as_str());
            calls.push(CallCount { name, calls: count });
            proof {
                assert(line_calls(line) == seq![(text::words(line).last(), count)]);
                assert(call_pairs(calls@) =~= call_pairs(old(calls)@) + line_calls(line));
            }
            return;
        }
    }
    proof {
        assert(line_calls(line) =~= Seq::empty());
        assert(call_pairs(calls@) =~= call_pairs(old(calls)@) + line_calls(line));
    }
}

/// The calls that a summary counts, one line after the other.
pub fn parse_strace_summary(raw: &str) -> (calls: Vec<CallCount>)
    ensures
        call_pairs(calls@) == summary_calls(raw@, 0),
{
    let chars = text::chars_of(raw);
    let n: usize = chars.len();
    let mut calls: Vec<CallCount> = Vec::new();
    let mut from: usize = 0;
    proof {
        assert(call_pairs(calls@) + summary_calls(raw@, 0) =~= summary_calls(raw@, 0));
    }
    while from < n
        invariant
            chars@ == raw@,
            n == chars@.len(),
            from <= n,
            call_pairs(calls@) + summary_calls(raw@, from as int) == summary_calls(raw@, 0),
        decreases n - from,
    {
        let mut end: usize = from;
        while end < n && chars[end] != '\n'
            invariant
                chars@ == raw@,
                n == chars@.len(),
                from <= end <= n,
                report::line_end(raw@, from as int) == report::line_end(raw@, end as int),
            decreases n - end,
        {
            end = end + 1;
        }
        let ghost before = call_pairs(calls@);
        push_line_calls(&mut calls, &chars, from, end);
        if end == n {
            proof {
                assert(raw@.skip(from as int) =~= raw@.subrange(from as int, end as int));
            }
            return calls;
        }
        proof {
            let here = line_calls(raw@.subrange(from as int, end as int));
            let rest = summary_calls(raw@, end + 1);
            assert(before + (here + rest) =~= (before + here) + rest);
        }
        from = end + 1;
    }
    proof {
        assert(call_pairs(calls@) + summary_calls(raw@, from as int) =~= call_pairs(calls@));
    }
    calls
}

/// What is known about the system calls.
#[derive(Clone, Debug, PartialEq, Eq)]
pub struct StraceCapture {
    pub syscall_counts: Option<Vec<CallCount>>,
    pub reason: Option<String>,
    pub text: Option<String>,
}

/// Counts with some more calls.
pub open spec fn with_calls(counts: Map<Seq<char>, nat>, name: Seq<char>, calls: nat) -> Map<Seq<char>, nat> {
    counts.insert(
        name,
        calls + if counts.dom().contains(name) {
            counts[name]
        } else {
            0
        },
    )
}

/// Counts with the calls of one child.
pub open spec fn with_child(counts: Map<Seq<char>, nat>, child: Seq<CallCount>) -> Map<Seq<char>, nat>
    decreases child.len(),
{
    if child.len() == 0 {
        counts
    } else {
        with_calls(with_child(counts, child.drop_last()), child.last().name@, child.last().calls as nat)
    }
}

/// The counts of children; one that could not be read counts for nothing.
pub open spec fn all_counts(children: Seq<Option<Vec<CallCount>>>) -> Map<Seq<char>, nat>
    decreases children.len(),
{
    if children.len() == 0 {
        Map::empty()
    } else {
        match children.last() {
            Some(child) => with_child(all_counts(children.drop_last()), child@),
            None => all_counts(children.drop_last()),
        }
    }
}

/// How many children could not be read or made no calls.
pub open spec fn count_empty(children: Seq<Option<Vec<CallCount>>>) -> nat
    decreases children.len(),
{
    if children.len() == 0 {
        0
    } else {
        count_empty(children.drop_last()) + if children.last() matches Some(child) && child@.len() > 0 {
            0nat
        } else {
            1nat
        }
    }
}

/// All calls together.
pub open spec fn calls_of(child: Seq<CallCount>) -> nat
    decreases child.len(),
{
    if child.len() == 0 {
        0
    } else {
        calls_of(child.drop_last()) + child.last().calls as nat
    }
}

/// All calls of all children together.
pub open spec fn all_calls(children: Seq<Option<Vec<CallCount>>>) -> nat
    decreases children.len(),
{
    if children.len() == 0 {
        0
    } else {
        all_calls(children.drop_last()) + match children.last() {
            Some(child) => calls_of(child@),
            None => 0,
        }
    }
}

/// The names of a list ascend.
pub open spec fn names_ascend(list: Seq<CallCount>) -> bool {
    forall|i: int, j: int|
        0 <= i < j < list.len() ==> text::text_before((#[trigger] list[i]).name@, (#[trigger] list[j]).name@)
}

/// What a list counts.
pub open spec fn counted(list: Seq<CallCount>) -> Map<Seq<char>, nat>
    decreases list.len(),
{
    if list.len() == 0 {
        Map::empty()
    } else {
        counted(list.drop_last()).insert(list.last().name@, list.last().calls as nat)
    }
}

proof fn lemma_before_irreflexive(a: Seq<char>)
    ensures
        !text::text_before(a, a),
    decreases a.len(),
{
    if a.len() > 0 {
        lemma_before_irreflexive(a.drop_first());
    }
}

proof fn lemma_before_transitive(a: Seq<char>, b: Seq<char>, c: Seq<char>)
    requires
        text::text_before(a, b),
        text::text_before(b, c),
    ensures
        text::text_before(a, c),
    decreases a.len(),
{
    if a.len() > 0 && a[0] == b[0] && b[0] == c[0] {
        lemma_before_transitive(a.drop_first(), b.drop_first(), c.drop_first());
    }
}

proof fn lemma_before_total(a: Seq<char>, b: Seq<char>)
    requires
        a != b,
    ensures
        text::text_before(a, b) || text::text_before(b, a),
    decreases a.len(),
{
    if a.len() > 0 && b.len() > 0 && a[0] == b[0] {
        if a.drop_first() == b.drop_first() {
            assert(a =~= seq![a[0]] + a.drop_first());
            assert(b =~= seq![b[0]] + b.drop_first());
        }
        lemma_before_total(a.drop_first(), b.drop_first());
    } else if a.len() == 0 && b.len() == 0 {
        assert(a =~= b);
    }
}

/// What a list counts under a name, if it has the name once.
pub proof fn lemma_counted_at(list: Seq<CallCount>, i: int)
    requires
        names_ascend(list),
        0 <= i < list.len(),
    ensures
        counted(list).dom().contains(list[i].name@),
        counted(list)[list[i].name@] == list[i].calls,
    decreases list.len(),
{
    if i < list.len() - 1 {
        let shorter = list.drop_last();
        assert(shorter[i] == list[i]);
        lemma_before_irreflexive(list[i].name@);
        assert(list[i].name@ != list[list.len() - 1].name@);
        lemma_counted_at(shorter, i);
    }
}

proof fn lemma_not_counted(list: Seq<CallCount>, name: Seq<char>)
    requires
        forall|i: int| 0 <= i < list.len() ==> (#[trigger] list[i]).name@ != name,
    ensures
        !counted(list).dom().contains(name),
    decreases list.len(),
{
    if list.len() > 0 {
        assert forall|i: int| 0 <= i < list.drop_last().len() implies (#[trigger] list.drop_last()[i]).name@ != name by {
            assert(list.drop_last()[i] == list[i]);
        }
        assert(list[list.len() - 1].name@ != name);
        lemma_not_counted(list.drop_last(), name);
    }
}

/// Two lists that count the same under every name count the same.
proof fn lemma_counted_changed(list: Seq<CallCount>, i: int, changed: CallCount)
    requires
        names_ascend(list),
        0 <= i < list.len(),
        changed.name@ == list[i].name@,
    ensures
        names_ascend(list.update(i, changed)),
        counted(list.update(i, changed)) == counted(list).insert(changed.name@, changed.calls as nat),
    decreases list.len(),
{
    let after = list.update(i, changed);
    let shorter = list.drop_last();
    assert forall|a: int, b: int| 0 <= a < b < after.len() implies text::text_before(
        (#[trigger] after[a]).name@,
        (#[trigger] after[b]).name@,
    ) by {
        assert(text::text_before(list[a].name@, list[b].name@));
    }
    if i == list.len() - 1 {
        assert(after.drop_last() =~= shorter);
        assert(counted(after) =~= counted(list).insert(changed.name@, changed.calls as nat));
    } else {
        assert(shorter[i] == list[i]);
        lemma_counted_changed(shorter, i, changed);
        assert(after.drop_last() =~= shorter.update(i, changed));
        assert(after.last() == list.last());
        lemma_before_irreflexive(changed.name@);
        assert(text::text_before(list[i].name@, list[list.len() - 1].name@));
        assert(counted(after) =~= counted(list).insert(changed.name@, changed.calls as nat));
    }
}

proof fn lemma_counted_inserted(list: Seq<CallCount>, i: int, added: CallCount)
    requires
        names_ascend(list),
        0 <= i <= list.len(),
        forall|j: int| 0 <= j < i ==> text::text_before((#[trigger] list[j]).name@, added.name@),
        forall|j: int| i <= j < list.len() ==> text::text_before(added.name@, (#[trigger] list[j]).name@),
    ensures
        names_ascend(list.insert(i, added)),
        counted(list.insert(i, added)) == counted(list).insert(added.name@, added.calls as nat),
    decreases list.len(),
{
    let after = list.insert(i, added);
    assert forall|a: int, b: int| 0 <= a < b < after.len() implies text::text_before(
        (#[trigger] after[a]).name@,
        (#[trigger] after[b]).name@,
    ) by {
        let x = if a < i {
            a
        } else {
            a - 1
        };
        let y = if b < i {
            b
        } else {
            b - 1
        };
        if a != i && b != i {
            assert(text::text_before(list[x].name@, list[y].name@));
        } else if a == i {
            assert(after[b] == list[y]);
        } else {
            assert(after[a] == list[x]);
        }
    }
    if i == list.len() {
        assert(after.drop_last() =~= list);
    } else {
        let shorter = list.drop_last();
        assert forall|j: int| 0 <= j < i implies text::text_before((#[trigger] shorter[j]).name@, added.name@) by {
            assert(shorter[j] == list[j]);
        }
        assert forall|j: int| i <= j < shorter.len() implies text::text_before(
            added.name@,
            (#[trigger] shorter[j]).name@,
        ) by {
            assert(shorter[j] == list[j]);
        }
        lemma_counted_inserted(shorter, i, added);
        assert(after.drop_last() =~= shorter.insert(i, added));
        assert(after.last() == list.last());
        lemma_before_irreflexive(added.name@);
        assert(text::text_before(added.name@, list[list.len() - 1].name@));
        assert(counted(after) =~= counted(list).insert(added.name@, added.calls as nat));
    }
}

/// Adds calls to a list whose names ascend.
fn add_calls(list: &mut Vec<CallCount>, name: &String, calls: u64)
    requires
        names_ascend(old(list)@),
        forall|i: int| 0 <= i < old(list)@.len() ==> (#[trigger] old(list)@[i]).calls + calls <= u64::MAX,
    ensures
        names_ascend(final(list)@),
        counted(final(list)@) == with_calls(counted(old(list)@), name@, calls as nat),
{
    let mut i: usize = 0;
    while i < list.len() && text::comes_before(list[i].name.as_str(), name.as_str())
        invariant
            list@ == old(list)@,
            names_ascend(list@),
            i <= list@.len(),
            forall|j: int| 0 <= j < i ==> text::text_before((#[trigger] list@[j]).name@, name@),
        decreases list@.len() - i,
    {
        i = i + 1;
    }
    if i < list.len() && io::same_text(list[i].name.as_str(), name.as_str()) {
        let more: u64 = list[i].calls + calls;
        proof {
            lemma_counted_at(list@, i as int);
        }
        let ghost before = list@;
        list.set(i, CallCount { name: name.clone(), calls: more });
        proof {
            lemma_counted_changed(before, i as int, list@[i as int]);
            assert(list@ =~= before.update(i as int, list@[i as int]));
        }
        return;
    }
    let ghost before = list@;
    proof {
        assert forall|j: int| i <= j < before.len() implies text::text_before(name@, (#[trigger] before[j]).name@) by {
            lemma_before_total(before[i as int].name@, name@);
            if j > i {
                assert(text::text_before(before[i as int].name@, before[j].name@));
                lemma_before_transitive(name@, before[i as int].name@, before[j].name@);
            }
        }
        assert forall|j: int| 0 <= j < before.len() implies (#[trigger] before[j]).name@ != name@ by {
            lemma_before_irreflexive(name@);
        }
        lemma_not_counted(before, name@);
    }
    list.insert(i, CallCount { name: name.clone(), calls });
    proof {
        lemma_counted_inserted(before, i as int, list@[i as int]);
        assert(list@ =~= before.insert(i as int, list@[i as int]));
    }
}

/// No count is larger than all calls together.
spec fn bounded(list: Seq<CallCount>, most: int) -> bool {
    forall|name: Seq<char>| #[trigger] counted(list).dom().contains(name) ==> counted(list)[name] <= most
}

proof fn lemma_bounded(list: Seq<CallCount>, most: int)
    requires
        names_ascend(list),
        bounded(list, most),
    ensures
        forall|i: int| 0 <= i < list.len() ==> (#[trigger] list[i]).calls <= most,
{
    assert forall|i: int| 0 <= i < list.len() implies (#[trigger] list[i]).calls <= most by {
        lemma_counted_at(list, i);
    }
}

fn add_child(list: &mut Vec<CallCount>, child: &Vec<CallCount>, Ghost(most): Ghost<int>)
    requires
        names_ascend(old(list)@),
        bounded(old(list)@, most),
        0 <= most,
        most + calls_of(child@) <= u64::MAX,
    ensures
        names_ascend(final(list)@),
        counted(final(list)@) == with_child(counted(old(list)@), child@),
        bounded(final(list)@, most + calls_of(child@)),
{
    let ghost start = counted(list@);
    proof {
        assert(child@.take(0) =~= Seq::empty());
    }
    for i in 0..child.len()
        invariant
            names_ascend(list@),
            0 <= most,
            most + calls_of(child@) <= u64::MAX,
            counted(list@) == with_child(start, child@.take(i as int)),
            bounded(list@, most + calls_of(child@.take(i as int))),
    {
        let one = &child[i];
        proof {
            assert(child@.take(i + 1).drop_last() =~= child@.take(i as int));
            lemma_calls_grow(child@, i + 1);
            lemma_bounded(list@, most + calls_of(child@.take(i as int)));
        }
        let ghost before = counted(list@);
        add_calls(list, &one.name, one.calls);
        proof {
            assert forall|name: Seq<char>| #[trigger] counted(list@).dom().contains(name) implies counted(list@)[name]
                <= most + calls_of(child@.take(i + 1)) by {
                if name != one.name@ {
                    assert(before.dom().contains(name));
                }
            }
        }
    }
    proof {
        assert(child@.take(child@.len() as int) =~= child@);
    }
}

proof fn lemma_calls_grow(child: Seq<CallCount>, i: int)
    requires
        0 <= i <= child.len(),
    ensures
        calls_of(child.take(i)) <= calls_of(child),
    decreases child.len() - i,
{
    if i == child.len() {
        assert(child.take(i) =~= child);
    } else {
        assert(child.take(i + 1).drop_last() =~= child.take(i));
        lemma_calls_grow(child, i + 1);
    }
}

proof fn lemma_all_calls_grow(children: Seq<Option<Vec<CallCount>>>, i: int)
    requires
        0 <= i <= children.len(),
    ensures
        all_calls(children.take(i)) <= all_calls(children),
    decreases children.len() - i,
{
    if i == children.len() {
        assert(children.take(i) =~= children);
    } else {
        assert(children.take(i + 1).drop_last() =~= children.take(i));
        lemma_all_calls_grow(children, i + 1);
    }
}

/// Adds up what the children did.
pub fn total_calls(children: &Vec<Option<Vec<CallCount>>>) -> (r: (Vec<CallCount>, usize))
    requires
        all_calls(children@) <= u64::MAX,
    ensures
        names_ascend(r.0@),
        counted(r.0@) == all_counts(children@),
        r.1 == count_empty(children@),
{
    let mut totals: Vec<CallCount> = Vec::new();
    let mut empties: usize = 0;
    proof {
        assert(children@.take(0) =~= Seq::empty());
    }
    for i in 0..children.len()
        invariant
            all_calls(children@) <= u64::MAX,
            names_ascend(totals@),
            counted(totals@) == all_counts(children@.take(i as int)),
            bounded(totals@, all_calls(children@.take(i as int)) as int),
            empties == count_empty(children@.take(i as int)),
            empties <= i,
    {
        proof {
            assert(children@.take(i + 1).drop_last() =~= children@.take(i as int));
            lemma_all_calls_grow(children@, i + 1);
        }
        match &children[i] {
            Some(child) => {
                if child.len() == 0 {
                    empties = empties + 1;
                } else {
                    add_child(&mut totals, child, Ghost(all_calls(children@.take(i as int)) as int));
                }
            },
            None => {
                empties = empties + 1;
            },
        }
    }
    proof {
        assert(children@.take(children@.len() as int) =~= children@);
    }
    (totals, empties)
}

/// The line of a system call in a summary.
pub open spec fn call_line(c: CallCount) -> Seq<char> {
    "   0.00    0.000000           0 "@ + text::filled(text::decimal(c.calls as nat), 9, ' ') + "         0 "@
        + c.name@ + "\n"@
}

pub open spec fn call_lines(list: Seq<CallCount>) -> Seq<char>
    decreases list.len(),
{
    if list.len() == 0 {
        Seq::empty()
    } else {
        call_lines(list.drop_last()) + call_line(list.last())
    }
}

/// The head of a summary.
pub open spec fn calls_head() -> Seq<char> {
    "% time     seconds  usecs/call     calls    errors syscall\n"@
        + "------ ----------- ----------- --------- --------- ----------------\n"@
}

/// The summary of all calls.
pub fn render_calls(list: &Vec<CallCount>) -> (out: String)
    ensures
        out@ == calls_head() + call_lines(list@),
{
    let mut out = String::from_str("% time     seconds  usecs/call     calls    errors syscall\n");
    out.append("------ ----------- ----------- --------- --------- ----------------\n");
    proof {
        assert(out@ =~= calls_head() + call_lines(list@.take(0)));
    }
    for i in 0..list.len()
        invariant
            out@ == calls_head() + call_lines(list@.take(i as int)),
    {
        let ghost before = out@;
        out.append("   0.00    0.000000           0 ");
        let calls = text::decimal_text(list[i].calls);
        text::push_filled(&mut out, calls.as_str(), 9, ' ');
        out.append("         0 ");
        out.append(list[i].name.as_str());
        out.append("\n");
        proof {
            assert(list@.take(i + 1).drop_last() =~= list@.take(i as int));
            assert(out@ =~= before + call_line(list@[i as int]));
            assert(out@ =~= calls_head() + call_lines(list@.take(i + 1)));
        }
    }
    proof {
        assert(list@.take(list@.len() as int) =~= list@);
    }
    out
}

/// Why some children are missing from the counts.
pub open spec fn empties_text(empties: nat, children: nat) -> Seq<char> {
    text::decimal(empties) + " of "@ + text::decimal(children) + " child strace files were empty or unreadable"@
}

/// Why nothing was counted, if that is so from the start.
pub open spec fn no_counts_reason(with_strace: bool, linux: bool, children: nat) -> Option<Seq<char>> {
    if !linux {
        Some("linux required"@)
    } else if !with_strace {
        Some("disabled (pass --with-strace or set REDLINEDB_BENCH_WITH_STRACE=1 to enable)"@)
    } else if children == 0 {
        Some("no strace output files were produced by children"@)
    } else {
        None
    }
}

/// What is known about the system calls of the children.
pub fn strace_summary(with_strace: bool, linux: bool, children: &Vec<Option<Vec<CallCount>>>) -> (capture: StraceCapture)
    requires
        all_calls(children@) <= u64::MAX,
    ensures
        match no_counts_reason(with_strace, linux, children@.len()) {
            Some(reason) => {
                &&& capture.syscall_counts is None
                &&& capture.text is None
                &&& capture.reason matches Some(text) && text@ == reason
            },
            None => {
                &&& match capture.syscall_counts {
                    Some(list) => {
                        &&& list@.len() > 0
                        &&& names_ascend(list@)
                        &&& counted(list@) == all_counts(children@)
                        &&& capture.text matches Some(text) && text@ == calls_head() + call_lines(list@)
                    },
                    None => all_counts(children@) == Map::<Seq<char>, nat>::empty() && capture.text is None,
                }
                &&& match capture.reason {
                    Some(text) => count_empty(children@) > 0 && text@ == empties_text(
                        count_empty(children@),
                        children@.len(),
                    ),
                    None => count_empty(children@) == 0,
                }
            },
        },
{
    if !linux {
        return StraceCapture { syscall_counts: None, reason: Some(String::from_str("linux required")), text: None };
    }
    if !with_strace {
        return StraceCapture {
            syscall_counts: None,
            reason: Some(
                String::from_str(
                    "disabled (pass --with-strace or set REDLINEDB_BENCH_WITH_STRACE=1 to enable)",
                ),
            ),
            text: None,
        };
    }
    if children.len() == 0 {
        return StraceCapture {
            syscall_counts: None,
            reason: Some(String::from_str("no strace output files were produced by children")),
            text: None,
        };
    }
    let (totals, empties) = total_calls(children);
    let reason = if empties > 0 {
        let mut words = text::decimal_text(empties as u64);
        words.append(" of ");
        text::push_decimal(&mut words, children.len() as u64);
        words.append(" child strace files were empty or unreadable");
        proof {
            assert(words@ =~= empties_text(empties as nat, children@.len()));
        }
        Some(words)
    } else {
        None
    };
    if totals.len() == 0 {
        return StraceCapture { syscall_counts: None, reason, text: None };
    }
    let text = render_calls(&totals);
    StraceCapture { syscall_counts: Some(totals), reason, text: Some(text) }
}

} // verus!
