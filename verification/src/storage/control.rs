//! What a checkpoint leaves on disk.
use crate::format::{Csn, Lsn, TxId};
use vstd::prelude::*;

verus! {

/// How many pages a checkpoint writes in one go.
pub const DEFAULT_CHECKPOINT_BATCH_PAGES: usize = 64;

/// The root of a checkpoint.
#[derive(Clone, Copy, Debug, PartialEq, Eq, Structural)]
pub struct ControlFile {
    pub generation: u64,
    pub checkpoint_lsn: Lsn,
    pub page_count: u64,
}

/// The fate of the transactions at a checkpoint.
#[derive(Clone, Debug, PartialEq, Eq)]
pub struct TxStatusCheckpoint {
    pub generation: u64,
    pub next_tx: TxId,
    pub next_csn: Csn,
    pub published_csn: Csn,
    pub entries: Vec<(TxId, Csn)>,
}

/// The generation after a checkpoint; the first one is one.
pub open spec fn next_generation_spec(last: Option<ControlFile>) -> int {
    match last {
        Some(control) => control.generation + 1,
        None => 1,
    }
}

/// The generation after a checkpoint; the first one is one.
pub fn next_generation(last: Option<ControlFile>) -> (generation: u64)
    requires
        next_generation_spec(last) <= u64::MAX,
    ensures
        generation == next_generation_spec(last),
{
    match last {
        Some(control) => control.generation + 1,
        None => 1,
    }
}

} // verus!
