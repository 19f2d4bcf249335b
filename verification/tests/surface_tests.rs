use redlinedb::cli::{parse_command, render_row, Cell, CliCommand};
use redlinedb::engine::state::{CheckpointStats, StorageStatsSnapshot};
use redlinedb::error::Error;
use redlinedb::facade::{
    apply_durability, check_call, sql_options, Call, Database, Durability, ErrorCode, OpenOptions, OpenPlan, Registry, Transaction,
    TransactionEnd,
};
use redlinedb::failpoints;
use redlinedb::ffi::{
    busy_timeout_ms, column_bytes, column_type, db_options_from_config, exec_value, flatten_code, is_copied, is_main,
    libversion_number, map_error, open_flags, open_mode, rldb_backup, rldb_config, sqlite_errstr, stats_json,
    status_message, ConfiguredOptions, Handle, OpenMode, Readable, SqlError, RLDB_BUSY, RLDB_CANTOPEN, RLDB_DONE,
    RLDB_ERROR, RLDB_INTERRUPT, RLDB_IOERR, RLDB_LOCKED, RLDB_MISUSE, RLDB_NULL, RLDB_OK, RLDB_READONLY, RLDB_TEXT,
};
use redlinedb::format::{Csn, Lsn, TxId};
use redlinedb::storage::buffer::BufferPoolStats;
use redlinedb::storage::control::ControlFile;
use redlinedb::txn::TxStatusStats;

#[test]
fn sqlite3_open_v2_requires_create_for_missing_path() {
    let create = open_flags(2).unwrap();
    assert_eq!(open_mode(false, create), Err(RLDB_CANTOPEN));
    assert_eq!(open_mode(false, open_flags(6).unwrap()), Ok(OpenMode::Create));
    assert_eq!(open_mode(true, false), Ok(OpenMode::Open));
    assert_eq!(open_flags(1), Err(RLDB_READONLY));
    assert_eq!(open_flags(4), Err(RLDB_MISUSE));
    assert_eq!(open_flags(-1), Err(RLDB_READONLY));
    assert_eq!(open_flags(-2), Ok(true));
}

#[test]
fn sqlite3_metadata_helpers_return_values() {
    assert!(libversion_number("0.1.0") > 0);
    assert_eq!(libversion_number("3.45.1"), 3_045_001);
    assert_eq!(libversion_number("2"), 2_000_000);
    assert_eq!(libversion_number("x.7"), 7_000);
    assert!(!sqlite_errstr(RLDB_BUSY).is_empty());
}

#[test]
fn errors_have_their_codes() {
    assert_eq!(map_error(&SqlError::Kernel(Error::LockTimeout)), RLDB_BUSY);
    assert_eq!(map_error(&SqlError::Kernel(Error::WriteConflict)), RLDB_LOCKED);
    assert_eq!(map_error(&SqlError::CommitMaybeCommitted), RLDB_IOERR);
    assert_eq!(map_error(&SqlError::Kernel(Error::PageFull)), RLDB_ERROR);
    assert_eq!(map_error(&SqlError::Bind("x".to_string())), RLDB_MISUSE);
    assert_eq!(status_message(RLDB_BUSY), "busy");
    assert_eq!(status_message(77), "error");
    assert_eq!(sqlite_errstr(RLDB_BUSY), "database is busy");
    assert_eq!(sqlite_errstr(77), "unknown error");
    assert_eq!(flatten_code(Ok(Err(5))), 5);
    assert_eq!(flatten_code(Err(2)), 2);
}

#[test]
fn values_are_read_as_the_first_type_that_fits() {
    let value = Readable { text: true, blob: true, integer: true, real: true };
    assert_eq!(column_type(value), RLDB_TEXT);
    assert_eq!(column_type(Readable { text: false, blob: false, integer: false, real: false }), RLDB_NULL);
    assert_eq!(column_bytes(Some(3), Some(9)), 3);
    assert_eq!(column_bytes(None, None), 8);
    assert_eq!(exec_value(None, Some(vec![0xab, 1]), Some(3), None), "ab01");
    assert_eq!(exec_value(None, None, Some(-3), None), "-3");
    assert_eq!(exec_value(None, None, None, Some("1.5".to_string())), "1.5");
    assert_eq!(exec_value(None, None, None, None), "");
}

#[test]
fn settings_come_from_the_program() {
    let defaults = ConfiguredOptions {
        buffer_pool_pages: 1024,
        work_mem_bytes: 1,
        max_spill_bytes: 2,
        batch_rows: 3,
        busy_timeout_ms: 4,
    };
    assert_eq!(db_options_from_config(None, 8192, defaults), defaults);
    let config = rldb_config {
        struct_size: 0,
        flags: 0,
        durability: 0,
        cache_bytes: 1_638_400,
        work_mem_bytes: 10,
        max_spill_bytes: 20,
        statement_cache_capacity: 0,
        busy_timeout_ms: 30,
    };
    let options = db_options_from_config(Some(&config), 8192, defaults);
    assert_eq!(options.buffer_pool_pages, 200);
    assert_eq!(options.batch_rows, 1);
    assert_eq!(options.busy_timeout_ms, 30);
    assert_eq!(busy_timeout_ms(-5), 0);
    assert_eq!(busy_timeout_ms(50), 50);
}

#[test]
fn handles_count_their_statements() {
    let mut handle = Handle::new();
    assert_eq!(handle.message(), "ok");
    handle.add_statement();
    assert_eq!(handle.check_close(), Err(RLDB_BUSY));
    handle.record_status(RLDB_BUSY);
    assert_eq!(handle.message(), "busy");
    handle.remove_statement();
    assert_eq!(handle.check_close(), Ok(RLDB_OK));
    assert_eq!(handle.check_interrupt(), Ok(()));
    handle.interrupt();
    assert_eq!(handle.check_interrupt(), Err(RLDB_INTERRUPT));
}

#[test]
fn backups_copy_once() {
    let mut backup = rldb_backup::init("a".to_string(), "b".to_string());
    assert!(backup.must_copy());
    assert_eq!(backup.copied(false), Err(RLDB_IOERR));
    assert_eq!((backup.remaining, backup.pagecount), (1, 1));
    assert_eq!(backup.copied(true), Ok(RLDB_DONE));
    assert!(!backup.must_copy());
    assert_eq!(backup.remaining, 0);
    assert!(!is_copied("owner.lock"));
    assert!(is_copied("data.redline"));
    assert!(is_main("main"));
    assert!(!is_main("temp"));
}

#[test]
fn stats_are_given_in_words() {
    assert_eq!(
        stats_json(1, 2, 3, 4),
        "{\"schema_epoch\":1,\"resident_heap_pages\":2,\"wal_written_lsn\":3,\"wal_durable_lsn\":4}"
    );
}

#[test]
fn databases_are_shared_by_those_who_agree() {
    let mut registry = Registry::new();
    assert_eq!(Database::open(&registry, "/d", false).unwrap_err().code, ErrorCode::NotFound);
    assert_eq!(
        Database::create(&registry, "/d", false),
        Ok(OpenPlan::Open { create: true, owner_lock: true })
    );
    let options = OpenOptions::default();
    assert_eq!(registry.add("/d", &options), 0);
    assert_eq!(Database::open(&registry, "/d", true), Ok(OpenPlan::Share(0)));
    let mut other = options;
    other.cache_bytes += 1;
    assert_eq!(
        Database::open_with_options(&registry, "/d", &other, true).unwrap_err().code,
        ErrorCode::Misuse
    );
    let mut reading = options;
    reading.read_only = true;
    assert_eq!(Database::open_with_options(&registry, "/d", &reading, true), Ok(OpenPlan::Share(0)));
    registry.add("/r", &reading);
    assert_eq!(Database::open_with_options(&registry, "/r", &options, true).unwrap_err().code, ErrorCode::Busy);
    assert_eq!(
        Database::open_with_options(&registry, "/n", &reading, true),
        Ok(OpenPlan::Open { create: false, owner_lock: false })
    );
    let db = &mut registry.entries[1];
    let conn = db.connect();
    assert_eq!(conn.check_statement(false).unwrap_err().code, ErrorCode::ReadOnly);
    assert!(conn.check_statement(true).is_ok());
    assert_eq!(db.path(), "/r");
    assert!(db.check_interrupt().is_ok());
    db.interrupt_all();
    assert_eq!(db.check_interrupt().unwrap_err().code, ErrorCode::Interrupt);
    for call in [Call::Prepare, Call::Begin, Call::Commit, Call::Step] {
        assert!(check_call(call, false).is_ok());
        assert_eq!(check_call(call, db.interrupted).unwrap_err().code, ErrorCode::Interrupt);
    }
    assert!(check_call(Call::Rollback, db.interrupted).is_ok());
    assert!(db.connect().stats(0, None, db.interrupted).interrupted);
    let done = CheckpointStats {
        control: ControlFile { generation: 3, checkpoint_lsn: Lsn(9), page_count: 4 },
        flushed_pages: 5,
        flush_batches: 1,
    };
    let stats = db.checkpoint(&done);
    assert_eq!((stats.generation, stats.checkpoint_lsn, stats.page_count), (3, 9, 4));
    let storage = StorageStatsSnapshot {
        buffer: BufferPoolStats { resident_pages: 2, dirty_pages: 1 },
        tx: TxStatusStats {
            next_tx: TxId(4),
            next_csn: Csn(3),
            published_csn: Csn(2),
            committed_states: 6,
            active_transactions: 7,
            active_snapshots: 8,
        },
        checkpoint: None,
        resident_heap_pages: 2,
        wal_written_lsn: Lsn(20),
        wal_durable_lsn: Lsn(10),
        vacuum_horizon_csn: Csn(1),
    };
    let stats = db.stats(5, &storage);
    assert_eq!((stats.table_count, stats.column_count, stats.index_count), (6, 7, 8));
    assert_eq!((stats.schema_epoch, stats.wal_written_lsn, stats.vacuum_horizon_csn), (5, 20, 1));
}

#[test]
fn options_are_handed_on() {
    let mut options = OpenOptions::default();
    apply_durability(&mut options, redlinedb::bench::config::DurabilityKind::Unsafe);
    assert_eq!(options.durability, Durability::UnsafeDev);
    options.cache_bytes = 100;
    assert_eq!(sql_options(&options, 8192).buffer_pool_pages, 16);
    options.cache_bytes = 8192 * 40;
    assert_eq!(sql_options(&options, 8192).buffer_pool_pages, 40);
    assert_eq!(sql_options(&options, 0).buffer_pool_pages, 8192 * 40);
}

#[test]
fn transactions_end_as_their_function_did() {
    let mut tx = Transaction::new();
    assert_eq!(tx.end(true), TransactionEnd::Commit);
    assert_eq!(tx.end(false), TransactionEnd::Rollback);
    assert!(tx.is_pending());
    tx.settle();
    assert_eq!(tx.end(false), TransactionEnd::Nothing);
    assert!(!tx.is_pending());
}

#[test]
fn command_lines_are_understood() {
    let args = |words: &[&str]| words.iter().map(|word| word.to_string()).collect::<Vec<String>>();
    assert_eq!(parse_command(&args(&[])), Ok(CliCommand::Help));
    assert_eq!(parse_command(&args(&["db", "SELECT", "-h"])), Ok(CliCommand::Help));
    assert_eq!(parse_command(&args(&["backup", "a"])), Err("usage: redlinedb backup SRC DST"));
    assert_eq!(
        parse_command(&args(&["backup", "a", "b"])),
        Ok(CliCommand::Backup { src: "a".to_string(), dst: "b".to_string() })
    );
    assert_eq!(
        parse_command(&args(&["stats", "db", "--json"])),
        Ok(CliCommand::Stats { db: "db".to_string(), json: true })
    );
    assert_eq!(parse_command(&args(&["stats"])), Err("usage: redlinedb stats DB [--json]"));
    assert_eq!(
        parse_command(&args(&["db", "SELECT", "1"])),
        Ok(CliCommand::Query { db: "db".to_string(), sql: "SELECT 1".to_string() })
    );
    assert_eq!(parse_command(&args(&["db"])), Err("usage: redlinedb DB SQL"));
}

#[test]
fn rows_are_put_into_words() {
    let row = vec![
        Cell::Null,
        Cell::Integer(-4),
        Cell::Number("1.5".to_string()),
        Cell::Text("x".to_string()),
        Cell::Blob(3),
    ];
    assert_eq!(render_row(&row), "NULL\t-4\t1.5\tx\t<blob:3>");
    assert_eq!(render_row(&vec![]), "");
}

#[test]
fn failpoints_take_the_actions_that_can_be_read() {
    assert_eq!(failpoints::cfg("tests::probe", "off"), Ok(()));
    assert_eq!(failpoints::cfg("tests::probe", "2*off->off"), Ok(()));
    let refused = failpoints::cfg("tests::probe", "explode");
    assert_eq!(refused, Err("unrecognized command \"explode\"".to_string()));
}
