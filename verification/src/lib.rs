//! A verified core for a Go toolchain version manager.
//!
//! The library covers the version identifier (parsing, ordering,
//! formatting), the persisted record of installed/enabled/pinned
//! versions, the catalog selection rules, and the state transitions
//! behind the `install`, `enable`, `remove`, `pin`, `unpin`, `update`,
//! `list` and `clean` operations.  All filesystem and network work is
//! left to the surrounding application, which hands plain values in
//! and out of these functions.

pub mod catalog;
pub mod engine;
pub mod records;
pub mod state;
pub mod store;
pub mod version;
pub mod version_set;
