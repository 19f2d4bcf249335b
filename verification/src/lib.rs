//! RedlineDB: the verified core of an embedded storage engine.

pub mod bench;
pub mod cli;
pub mod engine;
pub mod error;
pub mod facade;
pub mod failpoints;
pub mod ffi;
pub mod format;
pub mod index;
pub mod io;
pub mod layout;
pub mod storage;
pub mod surface_laws;
pub mod text;
pub mod text_laws;
pub mod txn;
pub mod vector;
pub mod wal;
