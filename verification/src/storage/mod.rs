//! Pages in memory and on disk.

pub mod buffer;
pub mod control;
pub mod laws;
pub mod page_file;
