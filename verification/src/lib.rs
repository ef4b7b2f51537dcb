//! An in-memory hierarchical key-value store with a prefix-indexed hook
//! registry and an append-only audit log.
//!
//! Keys are path-like strings such as `/root/a/b`; values are strings,
//! queues of strings, or nested tables. The tree, the hook registry and
//! the logger are each modelled as a single-owner state machine whose
//! operations carry full functional contracts; the surrounding channel
//! and I/O plumbing lives outside this crate.
pub mod config;
pub mod datastore;
pub mod enums;
pub mod hook;
pub mod logger;
pub mod types;
pub mod strutil;

