//! The rules of the C interface: result codes, open flags, column types, handles and backups.
use crate::error::Error;
use crate::io;
use crate::text;
use vstd::prelude::*;
use vstd::string::*;

verus! {

pub const RLDB_OK: i32 = 0;

pub const RLDB_ERROR: i32 = 1;

pub const RLDB_INTERNAL: i32 = 2;

pub const RLDB_BUSY: i32 = 5;

pub const RLDB_LOCKED: i32 = 6;

pub const RLDB_READONLY: i32 = 8;

pub const RLDB_INTERRUPT: i32 = 9;

pub const RLDB_IOERR: i32 = 10;

pub const RLDB_CANTOPEN: i32 = 14;

pub const RLDB_SCHEMA: i32 = 17;

pub const RLDB_CONSTRAINT: i32 = 19;

pub const RLDB_MISMATCH: i32 = 20;

pub const RLDB_MISUSE: i32 = 21;

pub const RLDB_RANGE: i32 = 25;

pub const RLDB_NOTADB: i32 = 26;

pub const RLDB_ROW: i32 = 100;

pub const RLDB_DONE: i32 = 101;

pub const RLDB_NULL: i32 = 0;

pub const RLDB_INTEGER: i32 = 1;

pub const RLDB_REAL: i32 = 2;

pub const RLDB_TEXT: i32 = 3;

pub const RLDB_BLOB: i32 = 4;

/// What the layer above the kernel can fail with.
#[derive(Clone, Debug, PartialEq, Eq)]
pub enum SqlError {
    Kernel(Error),
    ConstraintViolation(String),
    DatatypeMismatch,
    CommitMaybeCommitted,
    UnknownTable(String),
    UnknownColumn(String),
    ParameterOutOfRange(usize),
    TransactionState(String),
    Bind(String),
    Parse(String),
    UnsupportedSql(String),
    Other(String),
}

/// The result code of an error.
pub open spec fn error_code(err: SqlError) -> i32 {
    match err {
        SqlError::Kernel(Error::LockTimeout) => RLDB_BUSY,
        SqlError::Kernel(Error::SerializationFailure) => RLDB_BUSY,
        SqlError::Kernel(Error::WriteConflict) => RLDB_LOCKED,
        SqlError::Kernel(Error::DatatypeMismatch) => RLDB_MISMATCH,
        SqlError::DatatypeMismatch => RLDB_MISMATCH,
        SqlError::Kernel(Error::ConstraintViolation(_)) => RLDB_CONSTRAINT,
        SqlError::ConstraintViolation(_) => RLDB_CONSTRAINT,
        SqlError::CommitMaybeCommitted => RLDB_IOERR,
        SqlError::Kernel(Error::SchemaChanged) => RLDB_SCHEMA,
        SqlError::Kernel(Error::ObjectNotFound) => RLDB_NOTADB,
        SqlError::UnknownTable(_) => RLDB_NOTADB,
        SqlError::UnknownColumn(_) => RLDB_NOTADB,
        SqlError::ParameterOutOfRange(_) => RLDB_RANGE,
        SqlError::TransactionState(_) => RLDB_MISUSE,
        SqlError::Bind(_) => RLDB_MISUSE,
        SqlError::UnsupportedSql(_) => RLDB_MISUSE,
        _ => RLDB_ERROR,
    }
}

/// The result code of an error.
pub fn map_error(err: &SqlError) -> (code: i32)
    ensures
        code == error_code(*err),
{
    match err {
        SqlError::Kernel(kernel) => match kernel {
            Error::LockTimeout => RLDB_BUSY,
            Error::SerializationFailure => RLDB_BUSY,
            Error::WriteConflict => RLDB_LOCKED,
            Error::DatatypeMismatch => RLDB_MISMATCH,
            Error::ConstraintViolation(_) => RLDB_CONSTRAINT,
            Error::SchemaChanged => RLDB_SCHEMA,
            Error::ObjectNotFound => RLDB_NOTADB,
            _ => RLDB_ERROR,
        },
        SqlError::DatatypeMismatch => RLDB_MISMATCH,
        SqlError::ConstraintViolation(_) => RLDB_CONSTRAINT,
        SqlError::CommitMaybeCommitted => RLDB_IOERR,
        SqlError::UnknownTable(_) => RLDB_NOTADB,
        SqlError::UnknownColumn(_) => RLDB_NOTADB,
        SqlError::ParameterOutOfRange(_) => RLDB_RANGE,
        SqlError::TransactionState(_) => RLDB_MISUSE,
        SqlError::Bind(_) => RLDB_MISUSE,
        SqlError::UnsupportedSql(_) => RLDB_MISUSE,
        SqlError::Parse(_) => RLDB_ERROR,
        SqlError::Other(_) => RLDB_ERROR,
    }
}

/// An error never has the code of a success.
pub proof fn law_errors_are_not_success(err: SqlError)
    ensures
        error_code(err) != RLDB_OK,
        error_code(err) != RLDB_ROW,
        error_code(err) != RLDB_DONE,
{
}

/// The code that a call returns: its own, or that of the panic that ended it.
pub fn flatten_code(result: Result<Result<i32, i32>, i32>) -> (code: i32)
    ensures
        code == match result {
            Ok(Ok(code)) => code,
            Ok(Err(code)) => code,
            Err(code) => code,
        },
{
    match result {
        Ok(Ok(code)) => code,
        Ok(Err(code)) => code,
        Err(code) => code,
    }
}

/// What the last result of a handle is called.
pub open spec fn message_of(code: i32) -> &'static str {
    if code == RLDB_OK {
        "ok"
    } else if code == RLDB_BUSY {
        "busy"
    } else if code == RLDB_LOCKED {
        "locked"
    } else if code == RLDB_INTERRUPT {
        "interrupted"
    } else if code == RLDB_IOERR {
        "io error"
    } else if code == RLDB_READONLY {
        "read only"
    } else if code == RLDB_CANTOPEN {
        "cannot open"
    } else if code == RLDB_SCHEMA {
        "schema changed"
    } else if code == RLDB_CONSTRAINT {
        "constraint violation"
    } else if code == RLDB_MISMATCH {
        "datatype mismatch"
    } else if code == RLDB_MISUSE {
        "misuse"
    } else if code == RLDB_RANGE {
        "parameter out of range"
    } else if code == RLDB_NOTADB {
        "not an open database"
    } else {
        "error"
    }
}

/// What the last result of a handle is called.
pub fn status_message(code: i32) -> (message: &'static str)
    ensures
        message == message_of(code),
{
    if code == RLDB_OK {
        "ok"
    } else if code == RLDB_BUSY {
        "busy"
    } else if code == RLDB_LOCKED {
        "locked"
    } else if code == RLDB_INTERRUPT {
        "interrupted"
    } else if code == RLDB_IOERR {
        "io error"
    } else if code == RLDB_READONLY {
        "read only"
    } else if code == RLDB_CANTOPEN {
        "cannot open"
    } else if code == RLDB_SCHEMA {
        "schema changed"
    } else if code == RLDB_CONSTRAINT {
        "constraint violation"
    } else if code == RLDB_MISMATCH {
        "datatype mismatch"
    } else if code == RLDB_MISUSE {
        "misuse"
    } else if code == RLDB_RANGE {
        "parameter out of range"
    } else if code == RLDB_NOTADB {
        "not an open database"
    } else {
        "error"
    }
}

/// What a result code means.
pub open spec fn meaning_of(code: i32) -> &'static str {
    if code == RLDB_OK {
        "not an error"
    } else if code == RLDB_ERROR {
        "SQL error or missing database"
    } else if code == RLDB_INTERNAL {
        "internal error"
    } else if code == RLDB_BUSY {
        "database is busy"
    } else if code == RLDB_LOCKED {
        "database is locked"
    } else if code == RLDB_INTERRUPT {
        "operation interrupted"
    } else if code == RLDB_IOERR {
        "disk I/O error"
    } else if code == RLDB_READONLY {
        "attempt to write a readonly database"
    } else if code == RLDB_CANTOPEN {
        "unable to open database file"
    } else if code == RLDB_SCHEMA {
        "database schema has changed"
    } else if code == RLDB_CONSTRAINT {
        "constraint failed"
    } else if code == RLDB_MISMATCH {
        "datatype mismatch"
    } else if code == RLDB_MISUSE {
        "library routine called out of sequence"
    } else if code == RLDB_RANGE {
        "bind or column index out of range"
    } else if code == RLDB_NOTADB {
        "file is not a database"
    } else {
        "unknown error"
    }
}

/// What a result code means.
pub fn sqlite_errstr(code: i32) -> (meaning: &'static str)
    ensures
        meaning == meaning_of(code),
{
    if code == RLDB_OK {
        "not an error"
    } else if code == RLDB_ERROR {
        "SQL error or missing database"
    } else if code == RLDB_INTERNAL {
        "internal error"
    } else if code == RLDB_BUSY {
        "database is busy"
    } else if code == RLDB_LOCKED {
        "database is locked"
    } else if code == RLDB_INTERRUPT {
        "operation interrupted"
    } else if code == RLDB_IOERR {
        "disk I/O error"
    } else if code == RLDB_READONLY {
        "attempt to write a readonly database"
    } else if code == RLDB_CANTOPEN {
        "unable to open database file"
    } else if code == RLDB_SCHEMA {
        "database schema has changed"
    } else if code == RLDB_CONSTRAINT {
        "constraint failed"
    } else if code == RLDB_MISMATCH {
        "datatype mismatch"
    } else if code == RLDB_MISUSE {
        "library routine called out of sequence"
    } else if code == RLDB_RANGE {
        "bind or column index out of range"
    } else if code == RLDB_NOTADB {
        "file is not a database"
    } else {
        "unknown error"
    }
}

/// The settings with which a program opens a database.
#[allow(non_camel_case_types)]
#[derive(Clone, Copy, Debug, PartialEq, Eq, Structural)]
pub struct rldb_config {
    pub struct_size: u32,
    pub flags: u32,
    pub durability: u32,
    pub cache_bytes: u64,
    pub work_mem_bytes: u64,
    pub max_spill_bytes: u64,
    pub statement_cache_capacity: u32,
    pub busy_timeout_ms: u32,
}

/// The settings of the engine that a program can choose.
#[derive(Clone, Copy, Debug, PartialEq, Eq, Structural)]
pub struct ConfiguredOptions {
    pub buffer_pool_pages: usize,
    pub work_mem_bytes: usize,
    pub max_spill_bytes: usize,
    pub batch_rows: usize,
    pub busy_timeout_ms: u64,
}

/// How many pages a cache of this size holds, and sixteen at least.
pub open spec fn cache_pages(cache_bytes: int, page_size: int) -> int {
    let pages = cache_bytes / (if page_size < 1 {
        1
    } else {
        page_size
    });
    if pages < 16 {
        16
    } else {
        pages
    }
}

/// How many pages a cache of this size holds, and sixteen at least.
pub fn pages_of_cache(cache_bytes: usize, page_size: usize) -> (pages: usize)
    ensures
        pages == cache_pages(cache_bytes as int, page_size as int),
{
    let pages: usize = cache_bytes / (if page_size < 1 {
        1
    } else {
        page_size
    });
    if pages < 16 {
        16
    } else {
        pages
    }
}

/// The settings that a program has chosen; those of the engine where it has chosen none.
pub fn db_options_from_config(config: Option<&rldb_config>, page_size: usize, defaults: ConfiguredOptions) -> (options:
    ConfiguredOptions)
    requires
        config matches Some(chosen) ==> chosen.cache_bytes <= usize::MAX && chosen.work_mem_bytes <= usize::MAX
            && chosen.max_spill_bytes <= usize::MAX,
    ensures
        options == match config {
            None => defaults,
            Some(chosen) => ConfiguredOptions {
                buffer_pool_pages: cache_pages(chosen.cache_bytes as int, page_size as int) as usize,
                work_mem_bytes: chosen.work_mem_bytes as usize,
                max_spill_bytes: chosen.max_spill_bytes as usize,
                batch_rows: if chosen.statement_cache_capacity < 1 {
                    1
                } else {
                    chosen.statement_cache_capacity as usize
                },
                busy_timeout_ms: chosen.busy_timeout_ms as u64,
            },
        },
{
    match config {
        None => defaults,
        Some(chosen) => ConfiguredOptions {
            buffer_pool_pages: pages_of_cache(chosen.cache_bytes as usize, page_size),
            work_mem_bytes: chosen.work_mem_bytes as usize,
            max_spill_bytes: chosen.max_spill_bytes as usize,
            batch_rows: if chosen.statement_cache_capacity < 1 {
                1
            } else {
                chosen.statement_cache_capacity as usize
            },
            busy_timeout_ms: chosen.busy_timeout_ms as u64,
        },
    }
}

/// How a database is opened.
#[derive(Clone, Copy, Debug, PartialEq, Eq, Structural)]
pub enum OpenMode {
    /// One that is there.
    Open,
    /// A new one.
    Create,
}

/// How a database is opened, if it can be.
pub fn open_mode(exists: bool, create_if_missing: bool) -> (r: Result<OpenMode, i32>)
    ensures
        r == (if exists {
            Ok(OpenMode::Open)
        } else if create_if_missing {
            Ok(OpenMode::Create)
        } else {
            Err(RLDB_CANTOPEN)
        }),
{
    if exists {
        Ok(OpenMode::Open)
    } else if create_if_missing {
        Ok(OpenMode::Create)
    } else {
        Err(RLDB_CANTOPEN)
    }
}

/// What the flags of an open call ask for: whether a missing database is made. Only databases that
/// can be written are opened.
pub fn open_flags(flags: i32) -> (r: Result<bool, i32>)
    ensures
        ({
            let bits = if flags < 0 {
                flags + 0x1_0000_0000
            } else {
                flags as int
            };
            r == (if bits % 2 == 1 {
                Err(RLDB_READONLY)
            } else if (bits / 2) % 2 == 0 {
                Err(RLDB_MISUSE)
            } else {
                Ok((bits / 4) % 2 == 1)
            })
        }),
{
    let bits: u64 = if flags < 0 {
        (flags as i64 + 0x1_0000_0000) as u64
    } else {
        flags as u64
    };
    if bits % 2 == 1 {
        return Err(RLDB_READONLY);
    }
    if (bits / 2) % 2 == 0 {
        return Err(RLDB_MISUSE);
    }
    Ok((bits / 4) % 2 == 1)
}

/// As what a value can be read.
#[derive(Clone, Copy, Debug, PartialEq, Eq, Structural)]
pub struct Readable {
    pub text: bool,
    pub blob: bool,
    pub integer: bool,
    pub real: bool,
}

/// The type of a column: the first that it can be read as.
pub open spec fn type_of(value: Readable) -> i32 {
    if value.text {
        RLDB_TEXT
    } else if value.blob {
        RLDB_BLOB
    } else if value.integer {
        RLDB_INTEGER
    } else if value.real {
        RLDB_REAL
    } else {
        RLDB_NULL
    }
}

/// The type of a column: the first that it can be read as.
pub fn column_type(value: Readable) -> (code: i32)
    ensures
        code == type_of(value),
{
    if value.text {
        RLDB_TEXT
    } else if value.blob {
        RLDB_BLOB
    } else if value.integer {
        RLDB_INTEGER
    } else if value.real {
        RLDB_REAL
    } else {
        RLDB_NULL
    }
}

/// The bytes of a column: those of its text, else those of its blob, else those of a number.
pub fn column_bytes(text_len: Option<usize>, blob_len: Option<usize>) -> (bytes: usize)
    ensures
        bytes == match (text_len, blob_len) {
            (Some(len), _) => len,
            (None, Some(len)) => len,
            (None, None) => 8,
        },
{
    match text_len {
        Some(len) => len,
        None => match blob_len {
            Some(len) => len,
            None => 8,
        },
    }
}

/// A value in the words that a callback gets: its text, else its blob in hexadecimal digits, else
/// its number. `number` is one that is already in words.
pub fn exec_value(text: Option<String>, blob: Option<Vec<u8>>, integer: Option<i64>, number: Option<String>) -> (words:
    String)
    ensures
        words@ == match (text, blob, integer, number) {
            (Some(text), _, _, _) => text@,
            (None, Some(blob), _, _) => text::hex_text(blob@),
            (None, None, Some(n), _) => text::decimal_int(n as int),
            (None, None, None, Some(words)) => words@,
            (None, None, None, None) => Seq::empty(),
        },
{
    match text {
        Some(text) => text,
        None => match blob {
            Some(blob) => text::to_hex(blob.as_slice()),
            None => match integer {
                Some(n) => {
                    let mut words = String::new();
                    text::push_decimal_i64(&mut words, n);
                    proof {
                        assert(words@ =~= text::decimal_int(n as int));
                    }
                    words
                },
                None => match number {
                    Some(words) => words,
                    None => {
                        let words = String::new();
                        proof {
                            assert(words@ =~= Seq::empty());
                        }
                        words
                    },
                },
            },
        },
    }
}

/// Where the part of a version ends that starts at a position.
pub open spec fn part_end(version: Seq<char>, from: int) -> int
    decreases version.len() - from,
{
    if from >= version.len() || version[from] == '.' {
        from
    } else {
        part_end(version, from + 1)
    }
}

/// The number of a part of a version, and where the next one starts. A part that is missing or is
/// no number counts as zero.
pub open spec fn version_part(version: Seq<char>, from: int) -> (i32, int) {
    if from > version.len() {
        (0, from)
    } else {
        let end = part_end(version, from);
        let number = match text::parsed_i32(version.subrange(from, end)) {
            Some(n) => n,
            None => 0,
        };
        (number, end + 1)
    }
}

/// A version as one number.
pub open spec fn version_value(version: Seq<char>) -> int {
    let (major, second) = version_part(version, 0);
    let (minor, third) = version_part(version, second);
    let (patch, _) = version_part(version, third);
    major * 1_000_000 + minor * 1_000 + patch
}

fn read_part(version: &Vec<char>, from: usize) -> (r: (i32, usize))
    requires
        from <= version@.len() + 1,
        version@.len() < usize::MAX,
    ensures
        r.0 == version_part(version@, from as int).0,
        r.1 == version_part(version@, from as int).1,
        r.1 <= version@.len() + 1,
{
    if from > version.len() {
        return (0, from);
    }
    let mut end: usize = from;
    while end < version.len() && version[end] != '.'
        invariant
            from <= end <= version@.len(),
            part_end(version@, from as int) == part_end(version@, end as int),
        decreases version@.len() - end,
    {
        end = end + 1;
    }
    let part = text::text_between(version, from, end);
    let number: i32 = match text::parse_i32(part.as_str()) {
        Some(n) => n,
        None => 0,
    };
    (number, end + 1)
}

/// A version as one number.
pub fn libversion_number(version: &str) -> (number: i32)
    requires
        i32::MIN <= version_value(version@) <= i32::MAX,
        version@.len() < usize::MAX,
    ensures
        number == version_value(version@),
{
    let chars = text::chars_of(version);
    let (major, second) = read_part(&chars, 0);
    let (minor, third) = read_part(&chars, second);
    let (patch, _) = read_part(&chars, third);
    (major as i64 * 1_000_000 + minor as i64 * 1_000 + patch as i64) as i32
}

/// How long a handle waits, in milliseconds; never for a negative time.
pub fn busy_timeout_ms(milliseconds: i32) -> (ms: u64)
    ensures
        ms == if milliseconds < 0 {
            0
        } else {
            milliseconds as int
        },
{
    if milliseconds < 0 {
        0
    } else {
        milliseconds as u64
    }
}

/// The state of a handle.
#[derive(Clone, Debug, PartialEq, Eq)]
pub struct Handle {
    pub last_code: i32,
    pub interrupted: bool,
    pub active_statements: usize,
}

impl Handle {
    pub fn new() -> (handle: Handle)
        ensures
            handle == (Handle { last_code: RLDB_OK, interrupted: false, active_statements: 0 }),
    {
        Handle { last_code: RLDB_OK, interrupted: false, active_statements: 0 }
    }

    /// Notes the result of a call.
    pub fn record_status(&mut self, code: i32)
        ensures
            *final(self) == (Handle { last_code: code, ..*old(self) }),
    {
        self.last_code = code;
    }

    /// What the last result is called.
    pub fn message(&self) -> (message: &'static str)
        ensures
            message == message_of(self.last_code),
    {
        status_message(self.last_code)
    }

    /// Asks whatever runs to stop.
    pub fn interrupt(&mut self)
        ensures
            *final(self) == (Handle { interrupted: true, ..*old(self) }),
    {
        self.interrupted = true;
    }

    /// Refuses to go on once it was asked to stop.
    pub fn check_interrupt(&self) -> (r: Result<(), i32>)
        ensures
            r == (if self.interrupted {
                Err(RLDB_INTERRUPT)
            } else {
                Ok(())
            }),
    {
        if self.interrupted {
            return Err(RLDB_INTERRUPT);
        }
        Ok(())
    }

    /// Counts a statement.
    pub fn add_statement(&mut self)
        requires
            old(self).active_statements < usize::MAX,
        ensures
            *final(self) == (Handle { active_statements: (old(self).active_statements + 1) as usize, ..*old(self) }),
    {
        self.active_statements = self.active_statements + 1;
    }

    /// Counts a statement less.
    pub fn remove_statement(&mut self)
        requires
            old(self).active_statements > 0,
        ensures
            *final(self) == (Handle { active_statements: (old(self).active_statements - 1) as usize, ..*old(self) }),
    {
        self.active_statements = self.active_statements - 1;
    }

    /// Refuses to close while there are statements.
    pub fn check_close(&self) -> (r: Result<i32, i32>)
        ensures
            r == (if self.active_statements != 0 {
                Err(RLDB_BUSY)
            } else {
                Ok(RLDB_OK)
            }),
    {
        if self.active_statements != 0 {
            return Err(RLDB_BUSY);
        }
        Ok(RLDB_OK)
    }
}

/// A backup that is under way.
#[allow(non_camel_case_types)]
#[derive(Clone, Debug, PartialEq, Eq)]
pub struct rldb_backup {
    pub src_path: String,
    pub dst_path: String,
    pub done: bool,
    pub remaining: i64,
    pub pagecount: i64,
}

impl rldb_backup {
    /// A backup that has not begun.
    pub fn init(src_path: String, dst_path: String) -> (backup: rldb_backup)
        ensures
            backup == (rldb_backup { src_path, dst_path, done: false, remaining: 1, pagecount: 1 }),
    {
        rldb_backup { src_path, dst_path, done: false, remaining: 1, pagecount: 1 }
    }

    /// Whether there is anything left to copy.
    pub fn must_copy(&self) -> (copy: bool)
        ensures
            copy == !self.done,
    {
        !self.done
    }

    /// What a step that tried to copy returns: all is copied in one step.
    pub fn copied(&mut self, worked: bool) -> (r: Result<i32, i32>)
        ensures
            if worked || old(self).done {
                &&& r == Ok::<i32, i32>(RLDB_DONE)
                &&& *final(self) == (if old(self).done {
                    *old(self)
                } else {
                    rldb_backup { done: true, remaining: 0, ..*old(self) }
                })
            } else {
                r == Err::<i32, i32>(RLDB_IOERR) && *final(self) == *old(self)
            },
    {
        if self.done {
            return Ok(RLDB_DONE);
        }
        if !worked {
            return Err(RLDB_IOERR);
        }
        self.done = true;
        self.remaining = 0;
        Ok(RLDB_DONE)
    }
}

/// Whether a backup copies a file: the lock of the process that owns the database stays behind.
pub fn is_copied(name: &str) -> (copied: bool)
    ensures
        copied == (name@ != "owner.lock"@),
{
    !io::same_text(name, "owner.lock")
}

/// Whether a name is that of the only database of a handle.
pub fn is_main(name: &str) -> (main: bool)
    ensures
        main == (name@ == "main"@),
{
    io::same_text(name, "main")
}

/// The words in which the state of a database is given.
pub open spec fn stats_text(schema_epoch: u64, resident_heap_pages: usize, written: u64, durable: u64) -> Seq<char> {
    "{\"schema_epoch\":"@ + text::decimal(schema_epoch as nat) + ",\"resident_heap_pages\":"@ + text::decimal(
        resident_heap_pages as nat,
    ) + ",\"wal_written_lsn\":"@ + text::decimal(written as nat) + ",\"wal_durable_lsn\":"@ + text::decimal(
        durable as nat,
    ) + "}"@
}

/// The words in which the state of a database is given.
pub fn stats_json(schema_epoch: u64, resident_heap_pages: usize, written: u64, durable: u64) -> (json: String)
    ensures
        json@ == stats_text(schema_epoch, resident_heap_pages, written, durable),
{
    let mut json = String::from_str("{\"schema_epoch\":");
    text::push_decimal(&mut json, schema_epoch);
    json.append(",\"resident_heap_pages\":");
    text::push_decimal(&mut json, resident_heap_pages as u64);
    json.append(",\"wal_written_lsn\":");
    text::push_decimal(&mut json, written);
    json.append(",\"wal_durable_lsn\":");
    text::push_decimal(&mut json, durable);
    json.append("}");
    proof {
        assert(json@ =~= stats_text(schema_epoch, resident_heap_pages, written, durable));
    }
    json
}

} // verus!
