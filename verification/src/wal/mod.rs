//! The write-ahead log.
use crate::error::{Error, Result};
use crate::format::Lsn;
use vstd::prelude::*;

pub mod coordinator;
pub mod counters;
pub mod damage;
pub mod delivery;
pub mod group_commit;
pub mod laws;
pub mod manager;
pub mod payload;
pub mod queue_laws;
pub mod record;
pub mod reopening;
pub mod scan;
pub mod scan_laws;
pub mod segment;
pub mod writer;

pub use manager::{WalManager, WalReader};
pub use payload::WalPayload;
pub use record::{WalRecord, WalRecordKind, WAL_HEADER_LEN};
pub use scan::WalScanReport;

verus! {

/// The size of a segment file where none is chosen.
pub const DEFAULT_WAL_SEGMENT_BYTES: u64 = 67_108_864;

/// The size of the queue of records that wait to be written where none is chosen.
pub const DEFAULT_WAL_BUFFER_BYTES: usize = 16_777_216;

/// How many bytes are written in one go where nothing is chosen.
pub const DEFAULT_WAL_WRITE_BATCH_BYTES: usize = 1_048_576;

/// How long a flush waits for more commits, in microseconds, where nothing is chosen.
pub const DEFAULT_GROUP_COMMIT_DELAY_US: u64 = 200;

/// How many bytes make a flush go ahead without waiting where nothing is chosen.
pub const DEFAULT_GROUP_COMMIT_MAX_BATCH_BYTES: u64 = 4_194_304;

/// The settings of the log.
#[derive(Clone, Copy, Debug, PartialEq, Eq, Structural)]
pub struct WalConfig {
    pub segment_bytes: u64,
    pub wal_buffer_bytes: usize,
    pub wal_write_batch_bytes: usize,
    pub group_commit_delay_us: u64,
    pub group_commit_max_batch_bytes: u64,
}

impl Default for WalConfig {
    fn default() -> (config: WalConfig)
        ensures
            config == (WalConfig {
                segment_bytes: DEFAULT_WAL_SEGMENT_BYTES,
                wal_buffer_bytes: DEFAULT_WAL_BUFFER_BYTES,
                wal_write_batch_bytes: DEFAULT_WAL_WRITE_BATCH_BYTES,
                group_commit_delay_us: DEFAULT_GROUP_COMMIT_DELAY_US,
                group_commit_max_batch_bytes: DEFAULT_GROUP_COMMIT_MAX_BATCH_BYTES,
            }),
            config.problem() is None,
    {
        WalConfig {
            segment_bytes: DEFAULT_WAL_SEGMENT_BYTES,
            wal_buffer_bytes: DEFAULT_WAL_BUFFER_BYTES,
            wal_write_batch_bytes: DEFAULT_WAL_WRITE_BATCH_BYTES,
            group_commit_delay_us: DEFAULT_GROUP_COMMIT_DELAY_US,
            group_commit_max_batch_bytes: DEFAULT_GROUP_COMMIT_MAX_BATCH_BYTES,
        }
    }
}

impl WalConfig {
    /// What is wrong with the settings.
    pub open spec fn problem(self) -> Option<Error> {
        if self.segment_bytes < WAL_HEADER_LEN {
            Some(Error::CorruptWal("wal segment size too small"))
        } else if self.wal_buffer_bytes < WAL_HEADER_LEN {
            Some(Error::CorruptWal("wal buffer too small"))
        } else if self.wal_write_batch_bytes == 0 {
            Some(Error::CorruptWal("wal write batch must be nonzero"))
        } else {
            None
        }
    }

    /// Checks the settings.
    pub fn validate(&self) -> (r: Result<()>)
        ensures
            match r {
                Ok(_) => self.problem() is None,
                Err(e) => self.problem() == Some(e),
            },
    {
        if self.segment_bytes < WAL_HEADER_LEN as u64 {
            return Err(Error::CorruptWal("wal segment size too small"));
        }
        if self.wal_buffer_bytes < WAL_HEADER_LEN {
            return Err(Error::CorruptWal("wal buffer too small"));
        }
        if self.wal_write_batch_bytes == 0 {
            return Err(Error::CorruptWal("wal write batch must be nonzero"));
        }
        Ok(())
    }
}

/// The positions that a record takes in the log.
#[derive(Clone, Copy, Debug, PartialEq, Eq, Structural)]
pub struct WalAppend {
    pub start_lsn: Lsn,
    pub end_lsn: Lsn,
}

} // verus!
