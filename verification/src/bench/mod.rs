//! The benchmark harness: what it runs, how it judges, what it reports.

pub mod certify;
pub mod config;
pub mod failpoint_matrix;
pub mod gates;
pub mod laws;
pub mod queries;
pub mod reading;
pub mod report;
pub mod strace;
pub mod workload;
