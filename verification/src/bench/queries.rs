//! The queries of the regression benchmark, and how their results are written.
use crate::text;
use vstd::prelude::*;
use vstd::string::*;

verus! {

/// A query that is measured.
#[derive(Clone, Copy, Debug, PartialEq, Eq)]
pub struct BenchQuery {
    pub name: &'static str,
    pub query: &'static str,
}

/// The queries of the quick check.
pub open spec fn smoke_list() -> Seq<BenchQuery> {
    seq![
        BenchQuery { name: "prepared_point_lookup", query: "SELECT name FROM parent WHERE id = 64" },
        BenchQuery {
            name: "join_lookup",
            query: "SELECT parent.name, child.value FROM parent INNER JOIN child ON parent.id = child.parent_id ORDER BY parent.id, child.id",
        },
        BenchQuery {
            name: "group_count",
            query: "SELECT parent_id, COUNT(*) FROM child GROUP BY parent_id HAVING COUNT(*) = 1",
        },
    ]
}

/// The queries of the quick check.
pub fn smoke_queries() -> (list: Vec<BenchQuery>)
    ensures
        list@ == smoke_list(),
{
    let mut list: Vec<BenchQuery> = Vec::new();
    list.push(BenchQuery { name: "prepared_point_lookup", query: "SELECT name FROM parent WHERE id = 64" });
    list.push(
        BenchQuery {
            name: "join_lookup",
            query: "SELECT parent.name, child.value FROM parent INNER JOIN child ON parent.id = child.parent_id ORDER BY parent.id, child.id",
        },
    );
    list.push(
        BenchQuery {
            name: "group_count",
            query: "SELECT parent_id, COUNT(*) FROM child GROUP BY parent_id HAVING COUNT(*) = 1",
        },
    );
    proof {
        assert(list@ =~= smoke_list());
    }
    list
}

/// The queries that show whether the optimizer got worse.
pub open spec fn optimizer_list() -> Seq<BenchQuery> {
    seq![
        BenchQuery { name: "point_lookup", query: "SELECT v FROM t WHERE id = 128" },
        BenchQuery { name: "secondary_index_eq", query: "SELECT id FROM t WHERE v = 'v128'" },
        BenchQuery {
            name: "secondary_index_range",
            query: "SELECT id FROM t WHERE v BETWEEN 'v050' AND 'v060'",
        },
        BenchQuery { name: "covering_projection", query: "SELECT v FROM t WHERE v = 'v128'" },
        BenchQuery { name: "order_by_index_avoid_sort", query: "SELECT v FROM t ORDER BY v" },
        BenchQuery { name: "order_by_limit_topn", query: "SELECT id FROM t ORDER BY v LIMIT 10" },
        BenchQuery { name: "full_scan_projection_pruning", query: "SELECT id FROM t WHERE id > 0" },
        BenchQuery {
            name: "hash_aggregate",
            query: "SELECT COUNT(*), SUM(id), AVG(id), MIN(id), MAX(id) FROM t",
        },
        BenchQuery { name: "streaming_aggregate", query: "SELECT v, COUNT(*) FROM t GROUP BY v ORDER BY v" },
        BenchQuery {
            name: "update_indexed_predicate",
            query: "UPDATE t SET v = 'v128-updated' WHERE v = 'v128'",
        },
        BenchQuery { name: "delete_indexed_predicate", query: "DELETE FROM t WHERE v = 'v127'" },
    ]
}

/// The queries that show whether the optimizer got worse.
pub fn optimizer_queries() -> (list: Vec<BenchQuery>)
    ensures
        list@ == optimizer_list(),
{
    let mut list: Vec<BenchQuery> = Vec::new();
    list.push(BenchQuery { name: "point_lookup", query: "SELECT v FROM t WHERE id = 128" });
    list.push(BenchQuery { name: "secondary_index_eq", query: "SELECT id FROM t WHERE v = 'v128'" });
    list.push(
        BenchQuery { name: "secondary_index_range", query: "SELECT id FROM t WHERE v BETWEEN 'v050' AND 'v060'" },
    );
    list.push(BenchQuery { name: "covering_projection", query: "SELECT v FROM t WHERE v = 'v128'" });
    list.push(BenchQuery { name: "order_by_index_avoid_sort", query: "SELECT v FROM t ORDER BY v" });
    list.push(BenchQuery { name: "order_by_limit_topn", query: "SELECT id FROM t ORDER BY v LIMIT 10" });
    list.push(BenchQuery { name: "full_scan_projection_pruning", query: "SELECT id FROM t WHERE id > 0" });
    list.push(
        BenchQuery { name: "hash_aggregate", query: "SELECT COUNT(*), SUM(id), AVG(id), MIN(id), MAX(id) FROM t" },
    );
    list.push(
        BenchQuery { name: "streaming_aggregate", query: "SELECT v, COUNT(*) FROM t GROUP BY v ORDER BY v" },
    );
    list.push(
        BenchQuery { name: "update_indexed_predicate", query: "UPDATE t SET v = 'v128-updated' WHERE v = 'v128'" },
    );
    list.push(BenchQuery { name: "delete_indexed_predicate", query: "DELETE FROM t WHERE v = 'v127'" });
    proof {
        assert(list@ =~= optimizer_list());
    }
    list
}

/// The row that a thread of the mixed benchmark works on in a round.
pub fn mixed_row(thread: usize, round: usize) -> (id: usize)
    requires
        thread * 16 + round <= usize::MAX,
    ensures
        id == (thread * 16 + round) % 1024,
{
    (thread * 16 + round) % 1024
}

/// The statement that inserts a parent row.
pub open spec fn parent_statement(i: nat) -> Seq<char> {
    "INSERT INTO parent VALUES ("@ + text::decimal(i) + ", 'p"@ + text::decimal(i) + "')"@
}

/// The statement that inserts a child row.
pub open spec fn child_statement(i: nat) -> Seq<char> {
    "INSERT INTO child VALUES ("@ + text::decimal(i * 2) + ", "@ + text::decimal(i) + ", 'c"@ + text::decimal(i * 2)
        + "')"@
}

/// The statement that inserts an indexed row.
pub open spec fn indexed_statement(i: nat) -> Seq<char> {
    "INSERT INTO t VALUES ("@ + text::decimal(i) + ", 'v"@ + text::filled(text::decimal(i), 3, '0') + "')"@
}

/// The statement that inserts a parent row.
pub fn parent_insert(i: u64) -> (sql: String)
    ensures
        sql@ == parent_statement(i as nat),
{
    let mut sql = String::from_str("INSERT INTO parent VALUES (");
    text::push_decimal(&mut sql, i);
    sql.append(", 'p");
    text::push_decimal(&mut sql, i);
    sql.append("')");
    proof {
        assert(sql@ =~= parent_statement(i as nat));
    }
    sql
}

/// The statement that inserts a child row.
pub fn child_insert(i: u64) -> (sql: String)
    requires
        i * 2 <= u64::MAX,
    ensures
        sql@ == child_statement(i as nat),
{
    let mut sql = String::from_str("INSERT INTO child VALUES (");
    text::push_decimal(&mut sql, i * 2);
    sql.append(", ");
    text::push_decimal(&mut sql, i);
    sql.append(", 'c");
    text::push_decimal(&mut sql, i * 2);
    sql.append("')");
    proof {
        assert(sql@ =~= child_statement(i as nat));
    }
    sql
}

/// The statement that inserts an indexed row.
pub fn indexed_insert(i: u64) -> (sql: String)
    ensures
        sql@ == indexed_statement(i as nat),
{
    let mut sql = String::from_str("INSERT INTO t VALUES (");
    text::push_decimal(&mut sql, i);
    sql.append(", 'v");
    let digits = text::decimal_text(i);
    text::push_filled(&mut sql, digits.as_str(), 3, '0');
    sql.append("')");
    proof {
        assert(sql@ =~= indexed_statement(i as nat));
    }
    sql
}

/// How many parent and child rows go with so many indexed rows.
pub fn family_rows(rows: usize) -> (n: usize)
    ensures
        n == if rows < 256 {
            rows
        } else {
            256
        },
{
    if rows < 256 {
        rows
    } else {
        256
    }
}

/// How many rows a statement counts for: those that it gave, or those that it changed.
pub fn counted_rows(readonly: bool, stepped: usize, affected: usize) -> (n: usize)
    ensures
        n == if readonly {
            stepped
        } else {
            affected
        },
{
    if readonly {
        stepped
    } else {
        affected
    }
}

/// The text in front of a field's value.
pub open spec fn field_needle(field: Seq<char>) -> Seq<char> {
    seq!['"'] + field + "\":"@
}

/// Where the value that starts at a position ends.
pub open spec fn value_end(json: Seq<char>, from: int) -> int
    decreases json.len() - from,
{
    if from >= json.len() || json[from] == ',' || json[from] == '}' {
        from
    } else {
        value_end(json, from + 1)
    }
}

/// The text of a field's value: what stands behind the first occurrence of the field's name, up to
/// the next comma or brace.
pub fn number_field(json: &str, field: &str) -> (r: Option<String>)
    ensures
        match r {
            None => !text::holds(json@, field_needle(field@)),
            Some(value) => exists|at: int| #[trigger] field_at(json@, field@, at) && value@ == text::trimmed(
                json@.subrange(
                    at + field_needle(field@).len(),
                    value_end(json@, at + field_needle(field@).len()),
                ),
            ),
        },
{
    let chars = text::chars_of(json);
    let mut needle: Vec<char> = Vec::new();
    needle.push('"');
    let name = text::chars_of(field);
    for i in 0..name.len()
        invariant
            name@ == field@,
            needle@ == seq!['"'] + field@.take(i as int),
    {
        needle.push(name[i]);
        proof {
            assert(needle@ =~= seq!['"'] + field@.take(i + 1));
        }
    }
    needle.push('"');
    needle.push(':');
    proof {
        reveal_strlit("\":");
        assert(field@.take(field@.len() as int) =~= field@);
        assert(needle@ =~= field_needle(field@));
    }
    match text::find_from(&chars, &needle, 0) {
        None => {
            proof {
                assert(!text::holds(json@, field_needle(field@)));
            }
            None
        },
        Some(at) => {
            let len: usize = chars.len();
            let start: usize = at + needle.len();
            let mut end: usize = start;
            while end < len && chars[end] != ',' && chars[end] != '}'
                invariant
                    chars@ == json@,
                    len == chars@.len(),
                    start <= end <= chars@.len(),
                    value_end(json@, start as int) == value_end(json@, end as int),
                decreases chars@.len() - end,
            {
                end = end + 1;
            }
            let value = text::text_between(&chars, start, end);
            let value = text::trim(value.as_str());
            proof {
                assert(field_at(json@, field@, at as int));
            }
            Some(value)
        },
    }
}

/// Where a field's name stands first.
pub open spec fn field_at(json: Seq<char>, field: Seq<char>, at: int) -> bool {
    &&& text::stands_in(json, field_needle(field), at)
    &&& forall|i: int| 0 <= i < at ==> !#[trigger] text::stands_in(json, field_needle(field), i)
}

/// A character as it is written between quotes.
pub open spec fn escaped_char(c: char) -> Seq<char> {
    if c == '"' {
        seq!['\\', '"']
    } else if c == '\\' {
        seq!['\\', '\\']
    } else if c == '\n' {
        seq!['\\', 'n']
    } else if c == '\r' {
        seq!['\\', 'r']
    } else if c == '\t' {
        seq!['\\', 't']
    } else {
        seq![c]
    }
}

/// A text as it is written between quotes.
pub open spec fn escaped(s: Seq<char>) -> Seq<char>
    decreases s.len(),
{
    if s.len() == 0 {
        Seq::empty()
    } else {
        escaped(s.drop_last()) + escaped_char(s.last())
    }
}

/// A text as it is written between quotes.
pub fn escape(input: &str) -> (out: String)
    ensures
        out@ == escaped(input@),
{
    let chars = text::chars_of(input);
    let mut out = String::new();
    proof {
        assert(out@ =~= escaped(input@.take(0)));
    }
    for i in 0..chars.len()
        invariant
            chars@ == input@,
            out@ == escaped(input@.take(i as int)),
    {
        let c = chars[i];
        let ghost before = out@;
        if c == '"' {
            out.push('\\');
            out.push('"');
        } else if c == '\\' {
            out.push('\\');
            out.push('\\');
        } else if c == '\n' {
            out.push('\\');
            out.push('n');
        } else if c == '\r' {
            out.push('\\');
            out.push('r');
        } else if c == '\t' {
            out.push('\\');
            out.push('t');
        } else {
            out.push(c);
        }
        proof {
            assert(out@ =~= before + escaped_char(c));
            assert(input@.take(i + 1).drop_last() =~= input@.take(i as int));
        }
    }
    proof {
        assert(input@.take(input@.len() as int) =~= input@);
    }
    out
}

/// The text that an escaped text stands for, read from a position on.
pub open spec fn unescaped(s: Seq<char>, from: int) -> Seq<char>
    decreases s.len() - from,
{
    if from < 0 || from >= s.len() {
        Seq::empty()
    } else if s[from] == '\\' && from + 1 < s.len() {
        let c = s[from + 1];
        seq![
            if c == 'n' {
                '\n'
            } else if c == 'r' {
                '\r'
            } else if c == 't' {
                '\t'
            } else {
                c
            },
        ] + unescaped(s, from + 2)
    } else {
        seq![s[from]] + unescaped(s, from + 1)
    }
}

proof fn lemma_unescape(s: Seq<char>, k: int)
    requires
        0 <= k <= s.len(),
    ensures
        escaped(s.take(k)).len() <= escaped(s).len(),
        escaped(s).take(escaped(s.take(k)).len() as int) == escaped(s.take(k)),
        unescaped(escaped(s), escaped(s.take(k)).len() as int) == s.skip(k),
    decreases s.len() - k,
{
    if k == s.len() {
        assert(s.take(k) =~= s);
        assert(escaped(s).take(escaped(s).len() as int) =~= escaped(s));
        assert(s.skip(k) =~= Seq::empty());
    } else {
        lemma_unescape(s, k + 1);
        assert(s.take(k + 1).drop_last() =~= s.take(k));
        let done = escaped(s.take(k));
        let next = escaped(s.take(k + 1));
        let c = s[k];
        assert(next == done + escaped_char(c));
        let at = done.len() as int;
        assert(escaped(s).take(at) =~= next.take(at));
        assert(next.take(at) =~= done);
        assert(escaped(s)[at] == escaped(s).take(next.len() as int)[at]);
        if escaped_char(c).len() == 2 {
            assert(escaped(s)[at + 1] == escaped(s).take(next.len() as int)[at + 1]);
        }
        assert(s.skip(k) =~= seq![c] + s.skip(k + 1));
    }
}

/// An escaped text stands for the text.
pub proof fn law_escape_round_trips(s: Seq<char>)
    ensures
        unescaped(escaped(s), 0) == s,
{
    lemma_unescape(s, 0);
    assert(s.take(0) =~= Seq::empty());
    assert(s.skip(0) =~= s);
}

} // verus!
