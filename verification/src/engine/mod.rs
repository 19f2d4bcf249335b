//! The transactional engine.

pub mod laws;
pub mod lock;
pub mod locking;
pub mod outcomes;
pub mod recovery;
pub mod recovery_laws;
pub mod state;
pub mod tx;
