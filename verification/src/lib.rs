//! A file-system integrity checker: snapshots of a directory tree, their
//! comparison, and the tamper-evident envelope they are stored in.

pub mod base64;
pub mod codec;
pub mod database;
pub mod diff;
pub mod error;
pub mod hashing;
pub mod insertion;
pub mod keys;
pub mod metrics;
pub mod outcomes;
pub mod report;
