//! Incremental content index of a directory tree, and the duplicate report built on it.
//!
//! The library holds the decisions: how an index is kept sorted by path, when a file
//! must be hashed again, which records survive a pass, how size literals are read and
//! how duplicate groups are formed and ordered. Reading directories, files and keys is
//! left to the caller, which hands the outcomes in as plain values.

pub mod byte_size;
pub mod digest;
pub mod duplicate_report;
pub mod errors;
pub mod hash_data;
pub mod scan_folders;
