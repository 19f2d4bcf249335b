//! The command line.
use crate::io;
use crate::text;
use vstd::prelude::*;
use vstd::string::*;

verus! {

/// What the command line asks for.
#[derive(Clone, Debug, PartialEq, Eq)]
pub enum CliCommand {
    Help,
    Backup { src: String, dst: String },
    Stats { db: String, json: bool },
    Query { db: String, sql: String },
}

/// Whether a word is among those of a command line.
pub open spec fn has_word(args: Seq<String>, word: Seq<char>) -> bool {
    exists|i: int| 0 <= i < args.len() && (#[trigger] args[i])@ == word
}

/// Words from a position on, with a blank between each two.
pub open spec fn words_from(args: Seq<String>, from: int) -> Seq<char>
    decreases args.len() - from,
{
    if from >= args.len() || from < 0 {
        Seq::empty()
    } else if from == args.len() - 1 {
        args[from]@
    } else {
        args[from]@ + seq![' '] + words_from(args, from + 1)
    }
}

/// What a command line asks for, if it can be understood.
pub open spec fn understood(args: Seq<String>, r: Result<CliCommand, &'static str>) -> bool {
    if args.len() == 0 || has_word(args, "--help"@) || has_word(args, "-h"@) {
        r == Ok::<CliCommand, &'static str>(CliCommand::Help)
    } else if args[0]@ == "backup"@ {
        if args.len() != 3 {
            r == Err::<CliCommand, &'static str>("usage: redlinedb backup SRC DST")
        } else {
            r matches Ok(CliCommand::Backup { src, dst }) && src@ == args[1]@ && dst@ == args[2]@
        }
    } else if args[0]@ == "stats"@ {
        if args.len() < 2 {
            r == Err::<CliCommand, &'static str>("usage: redlinedb stats DB [--json]")
        } else {
            r matches Ok(CliCommand::Stats { db, json }) && db@ == args[1]@ && json == has_word(args, "--json"@)
        }
    } else if args.len() >= 2 {
        r matches Ok(CliCommand::Query { db, sql }) && db@ == args[0]@ && sql@ == words_from(args, 1)
    } else {
        r == Err::<CliCommand, &'static str>("usage: redlinedb DB SQL")
    }
}

fn contains_word(args: &Vec<String>, word: &str) -> (found: bool)
    ensures
        found == has_word(args@, word@),
{
    for i in 0..args.len()
        invariant
            forall|j: int| 0 <= j < i ==> (#[trigger] args@[j])@ != word@,
    {
        if io::same_text(args[i].as_str(), word) {
            proof {
                assert(args@[i as int]@ == word@);
            }
            return true;
        }
    }
    false
}

fn join_words(args: &Vec<String>, from: usize) -> (sql: String)
    requires
        from < args@.len(),
    ensures
        sql@ == words_from(args@, from as int),
{
    let mut i: usize = args.len() - 1;
    let mut parts: usize = from;
    let mut sql = String::new();
    proof {
        assert(sql@ + words_from(args@, from as int) =~= words_from(args@, from as int));
    }
    while parts < i
        invariant
            from <= parts <= i,
            i == args@.len() - 1,
            sql@ + words_from(args@, parts as int) == words_from(args@, from as int),
        decreases i - parts,
    {
        let ghost before = sql@;
        sql.append(args[parts].as_str());
        sql.push(' ');
        proof {
            assert(sql@ + words_from(args@, parts + 1) =~= before + words_from(args@, parts as int));
        }
        parts = parts + 1;
    }
    sql.append(args[i].as_str());
    sql
}

/// What a command line asks for, if it can be understood.
pub fn parse_command(args: &Vec<String>) -> (r: Result<CliCommand, &'static str>)
    ensures
        understood(args@, r),
{
    if args.len() == 0 || contains_word(args, "--help") || contains_word(args, "-h") {
        return Ok(CliCommand::Help);
    }
    if io::same_text(args[0].as_str(), "backup") {
        if args.len() != 3 {
            return Err("usage: redlinedb backup SRC DST");
        }
        return Ok(CliCommand::Backup { src: args[1].clone(), dst: args[2].clone() });
    }
    if io::same_text(args[0].as_str(), "stats") {
        if args.len() < 2 {
            return Err("usage: redlinedb stats DB [--json]");
        }
        return Ok(CliCommand::Stats { db: args[1].clone(), json: contains_word(args, "--json") });
    }
    if args.len() >= 2 {
        return Ok(CliCommand::Query { db: args[0].clone(), sql: join_words(args, 1) });
    }
    Err("usage: redlinedb DB SQL")
}

/// A value of a row; a number with a fraction is already in words.
#[derive(Clone, Debug, PartialEq, Eq)]
pub enum Cell {
    Null,
    Integer(i64),
    Number(String),
    Text(String),
    Blob(usize),
}

/// A value in words.
pub open spec fn cell_text(cell: Cell) -> Seq<char> {
    match cell {
        Cell::Null => "NULL"@,
        Cell::Integer(n) => text::decimal_int(n as int),
        Cell::Number(words) => words@,
        Cell::Text(words) => words@,
        Cell::Blob(len) => "<blob:"@ + text::decimal(len as nat) + ">"@,
    }
}

/// A row in words, with a tabulator between each two values.
pub open spec fn row_text(row: Seq<Cell>) -> Seq<char>
    decreases row.len(),
{
    if row.len() == 0 {
        Seq::empty()
    } else if row.len() == 1 {
        cell_text(row[0])
    } else {
        row_text(row.drop_last()) + seq!['\t'] + cell_text(row.last())
    }
}

fn push_cell(out: &mut String, cell: &Cell)
    ensures
        final(out)@ == old(out)@ + cell_text(*cell),
{
    match cell {
        Cell::Null => out.append("NULL"),
        Cell::Integer(n) => text::push_decimal_i64(out, *n),
        Cell::Number(words) => out.append(words.as_str()),
        Cell::Text(words) => out.append(words.as_str()),
        Cell::Blob(len) => {
            out.append("<blob:");
            text::push_decimal(out, *len as u64);
            out.append(">");
            proof {
                assert(out@ =~= old(out)@ + cell_text(*cell));
            }
        },
    }
}

/// A row in words.
pub fn render_row(row: &Vec<Cell>) -> (out: String)
    ensures
        out@ == row_text(row@),
{
    let mut out = String::new();
    proof {
        assert(out@ =~= row_text(row@.take(0)));
    }
    for i in 0..row.len()
        invariant
            out@ == row_text(row@.take(i as int)),
    {
        let ghost before = out@;
        if i > 0 {
            out.push('\t');
        }
        push_cell(&mut out, &row[i]);
        proof {
            assert(row@.take(i + 1).drop_last() =~= row@.take(i as int));
            assert(row@.take(i + 1).last() == row@[i as int]);
            if i == 0 {
                assert(out@ =~= cell_text(row@[0]));
            } else {
                assert(out@ =~= before + seq!['\t'] + cell_text(row@[i as int]));
            }
        }
    }
    proof {
        assert(row@.take(row@.len() as int) =~= row@);
    }
    out
}

} // verus!
