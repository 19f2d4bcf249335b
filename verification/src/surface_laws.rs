//! What whoever opens databases, runs commands and reads results can rely on.
use crate::cli;
use crate::cli::Cell;
use crate::error::Error;
use crate::facade;
use crate::facade::{Call, Database, Durability, ErrorCode, OpenFingerprint, OpenOptions, OpenPlan, Registry};
use crate::ffi;
use crate::ffi::{Readable, SqlError};
use crate::text;
use crate::text_laws;
use vstd::prelude::*;
use vstd::string::*;

verus! {

/// Two who open a database share it exactly if they ask for the same promises, caches, settings and
/// locks; only whether they write may differ.
pub proof fn law_those_who_share_agree(a: OpenOptions, b: OpenOptions)
    ensures
        OpenFingerprint::of_options(a).agrees(OpenFingerprint::of_options(b)) <==> {
            &&& a.durability == b.durability
            &&& a.cache_bytes == b.cache_bytes
            &&& a.optimizer == b.optimizer
            &&& a.query_memory == b.query_memory
            &&& a.stats == b.stats
            &&& a.process_owner_lock == b.process_owner_lock
        },
        OpenFingerprint::of_options(a).read_only == a.read_only,
{
}

/// A path is found exactly if a database was opened under it, and the last one that was counts.
pub proof fn law_open_databases_are_found(entries: Seq<Database>, path: Seq<char>)
    ensures
        match facade::entry_of(entries, path) {
            Some(i) => {
                &&& 0 <= i < entries.len()
                &&& entries[i].path@ == path
                &&& forall|j: int| i < j < entries.len() ==> (#[trigger] entries[j]).path@ != path
            },
            None => forall|j: int| 0 <= j < entries.len() ==> (#[trigger] entries[j]).path@ != path,
        },
    decreases entries.len(),
{
    if entries.len() > 0 {
        let init = entries.drop_last();
        law_open_databases_are_found(init, path);
        if entries.last().path@ != path {
            match facade::entry_of(init, path) {
                Some(i) => {
                    assert forall|j: int| i < j < entries.len() implies (#[trigger] entries[j]).path@ != path by {
                        if j < init.len() {
                            assert(init[j] == entries[j]);
                        }
                    }
                    assert(init[i] == entries[i]);
                },
                None => {
                    assert forall|j: int| 0 <= j < entries.len() implies (#[trigger] entries[j]).path@ != path by {
                        if j < init.len() {
                            assert(init[j] == entries[j]);
                        }
                    }
                },
            }
        }
    }
}

/// A database that nobody has open is opened if it is there or may be made, and is not found otherwise. Who
/// only reads keeps no one out.
pub proof fn law_missing_database_is_made_or_refused(
    registry: Registry,
    path: Seq<char>,
    options: OpenOptions,
    exists: bool,
)
    requires
        forall|j: int| 0 <= j < registry.entries@.len() ==> (#[trigger] registry.entries@[j]).path@ != path,
    ensures
        exists || options.create ==> (registry.plan(path, options, exists) matches Ok(OpenPlan::Open { create, owner_lock })
            && create == options.create && owner_lock == (options.process_owner_lock && !options.read_only)),
        !exists && !options.create ==> (registry.plan(path, options, exists) matches Err(e) && e.code
            == ErrorCode::NotFound),
{
    law_open_databases_are_found(registry.entries@, path);
}

/// A database that is open is shared by those who agree, and refused to others: as busy to who wants to
/// write where it is open for reading, and as a misuse to who asks for other options.
pub proof fn law_open_database_is_shared_or_refused(
    registry: Registry,
    path: Seq<char>,
    first: OpenOptions,
    second: OpenOptions,
    exists: bool,
)
    requires
        facade::entry_of(registry.entries@, path) matches Some(i) && registry.entries@[i].fingerprint
            == OpenFingerprint::of_options(first),
    ensures
        ({
            let agree = first.durability == second.durability && first.cache_bytes == second.cache_bytes
                && first.optimizer == second.optimizer && first.query_memory == second.query_memory && first.stats
                == second.stats && first.process_owner_lock == second.process_owner_lock;
            let plan = registry.plan(path, second, exists);
            &&& first.read_only && !second.read_only ==> (plan matches Err(e) && e.code == ErrorCode::Busy)
            &&& !(first.read_only && !second.read_only) && agree ==> plan is Ok && plan->Ok_0 is Share
            &&& !(first.read_only && !second.read_only) && !agree ==> (plan matches Err(e) && e.code == ErrorCode::Misuse)
        }),
{
    law_those_who_share_agree(first, second);
}

/// Nothing is refused on a database that was not asked to stop.
pub proof fn law_calls_go_on_without_an_interrupt(call: Call)
    ensures
        facade::refusal(call, false) is None,
{
}

/// Who opens a database without options writes, makes no database, keeps other processes out, and loses
/// nothing that was committed.
pub proof fn law_usual_options_are_safe()
    ensures
        !facade::usual_options().create,
        !facade::usual_options().read_only,
        facade::usual_options().process_owner_lock,
        facade::usual_options().durability == Durability::Strict,
        facade::usual_options().cache_bytes == 16 * 1024 * 1024,
        facade::usual_options().busy_timeout_ms == 5 * 1000,
{
}

/// A cache holds as many whole pages as fit its size, and sixteen at least.
pub proof fn law_cache_holds_whole_pages(cache_bytes: int, page_size: int)
    requires
        cache_bytes >= 0,
        page_size > 0,
    ensures
        ffi::cache_pages(cache_bytes, page_size) >= 16,
        ffi::cache_pages(cache_bytes, page_size) > 16 ==> ffi::cache_pages(cache_bytes, page_size) * page_size
            <= cache_bytes < (ffi::cache_pages(cache_bytes, page_size) + 1) * page_size,
        cache_bytes < 16 * page_size ==> ffi::cache_pages(cache_bytes, page_size) == 16,
{
    let n = cache_bytes / page_size;
    assert(n * page_size <= cache_bytes < (n + 1) * page_size) by (nonlinear_arith)
        requires
            page_size > 0,
            cache_bytes >= 0,
            n == cache_bytes / page_size,
    ;
    if n >= 16 {
        assert(n * page_size >= 16 * page_size) by (nonlinear_arith)
            requires
                n >= 16,
                page_size > 0,
        ;
    }
}

/// A column is read as text if it can be, then as bytes, then as a whole number, then as another number;
/// what can be read as none of these is nothing.
pub proof fn law_columns_have_the_first_type_that_fits(value: Readable)
    ensures
        value.text ==> ffi::type_of(value) == ffi::RLDB_TEXT,
        !value.text && value.blob ==> ffi::type_of(value) == ffi::RLDB_BLOB,
        !value.text && !value.blob && value.integer ==> ffi::type_of(value) == ffi::RLDB_INTEGER,
        ffi::type_of(value) == ffi::RLDB_NULL <==> !value.text && !value.blob && !value.integer && !value.real,
{
}

/// Who may try again is told that the database is busy or locked, and no one else is.
pub proof fn law_conflicts_are_busy_or_locked(err: SqlError)
    ensures
        ffi::error_code(err) == ffi::RLDB_BUSY <==> (err matches SqlError::Kernel(e) && (e == Error::LockTimeout || e
            == Error::SerializationFailure)),
        ffi::error_code(err) == ffi::RLDB_LOCKED <==> (err matches SqlError::Kernel(e) && e == Error::WriteConflict),
        ffi::error_code(err) == ffi::RLDB_SCHEMA <==> (err matches SqlError::Kernel(e) && e == Error::SchemaChanged),
        ffi::error_code(err) == ffi::RLDB_IOERR <==> err is CommitMaybeCommitted,
        ffi::error_code(err) == ffi::RLDB_RANGE <==> err is ParameterOutOfRange,
{
}

proof fn lemma_part_end(front: Seq<char>, part: Seq<char>, rest: Seq<char>, from: int)
    requires
        0 <= from <= part.len(),
        text::all_digits(part),
        rest.len() > 0 ==> rest[0] == '.',
    ensures
        ffi::part_end(front + part + rest, front.len() + from) == front.len() + part.len(),
    decreases part.len() - from,
{
    let all = front + part + rest;
    if from < part.len() {
        assert(all[front.len() + from] == part[from]);
        assert(text::is_digit(part[from]));
        lemma_part_end(front, part, rest, from + 1);
    } else if rest.len() > 0 {
        assert(all[front.len() + from] == rest[0]);
    }
}

proof fn lemma_version_part(front: Seq<char>, n: i32, rest: Seq<char>)
    requires
        n >= 0,
        rest.len() > 0 ==> rest[0] == '.',
    ensures
        ffi::version_part(front + text::decimal(n as nat) + rest, front.len() as int) == (
            n,
            (front.len() + text::decimal(n as nat).len() + 1) as int,
        ),
{
    let part = text::decimal(n as nat);
    let all = front + part + rest;
    text::lemma_decimal(n as nat);
    lemma_part_end(front, part, rest, 0);
    assert(all.subrange(front.len() as int, (front.len() + part.len()) as int) =~= part);
    text_laws::law_signed_decimal_round_trips(n);
}

/// A version of three numbers with dots between them is read as those numbers.
pub proof fn law_versions_are_read(major: i32, minor: i32, patch: i32)
    requires
        major >= 0,
        minor >= 0,
        patch >= 0,
    ensures
        ffi::version_value(
            text::decimal(major as nat) + seq!['.'] + text::decimal(minor as nat) + seq!['.'] + text::decimal(
                patch as nat,
            ),
        ) == major * 1_000_000 + minor * 1_000 + patch,
{
    let a = text::decimal(major as nat);
    let b = text::decimal(minor as nat);
    let c = text::decimal(patch as nat);
    let dot = seq!['.'];
    let none = Seq::<char>::empty();
    let all = a + dot + b + dot + c;
    lemma_version_part(none, major, dot + b + dot + c);
    assert(none + a + (dot + b + dot + c) =~= all);
    lemma_version_part(a + dot, minor, dot + c);
    assert((a + dot) + b + (dot + c) =~= all);
    lemma_version_part(a + dot + b + dot, patch, none);
    assert((a + dot + b + dot) + c + none =~= all);
}

/// Words are joined with one blank between each two: those of one list come before those of another.
pub proof fn law_words_are_joined_with_blanks(args: Seq<String>, from: int, to: int)
    requires
        0 <= from < to < args.len(),
    ensures
        cli::words_from(args, from) == cli::words_from(args.take(to), from) + seq![' '] + cli::words_from(args, to),
        cli::words_from(args, args.len() - 1) == args.last()@,
    decreases to - from,
{
    let some = args.take(to);
    assert(some[from] == args[from]);
    if from == to - 1 {
        assert(cli::words_from(args, from) =~= cli::words_from(some, from) + seq![' '] + cli::words_from(args, to));
    } else {
        law_words_are_joined_with_blanks(args, from + 1, to);
        assert(cli::words_from(args, from) =~= cli::words_from(some, from) + seq![' '] + cli::words_from(args, to));
    }
}

/// The values of a row come one after the other, with a tabulator between each two.
pub proof fn law_values_are_joined_with_tabulators(a: Seq<Cell>, b: Seq<Cell>)
    requires
        a.len() > 0,
        b.len() > 0,
    ensures
        cli::row_text(a + b) == cli::row_text(a) + seq!['\t'] + cli::row_text(b),
    decreases b.len(),
{
    let all = a + b;
    assert(all.last() == b.last());
    if b.len() == 1 {
        assert(all.drop_last() =~= a);
        assert(b[0] == b.last());
    } else {
        law_values_are_joined_with_tabulators(a, b.drop_last());
        assert(all.drop_last() =~= a + b.drop_last());
        assert(cli::row_text(all) =~= cli::row_text(a) + seq!['\t'] + cli::row_text(b));
    }
}

/// A whole number in a row can be read back.
pub proof fn law_whole_numbers_are_read_back(n: i32)
    ensures
        text::parsed_i32(cli::cell_text(Cell::Integer(n as i64))) == Some(n),
{
    text_laws::law_signed_decimal_round_trips(n);
}

} // verus!
