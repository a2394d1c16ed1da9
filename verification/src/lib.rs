//! One-way directory mirroring: collect canonical listings of two trees,
//! classify paths as added / modified / removed, and order the resulting
//! filesystem operations so that removals and type changes are safe.
//!
//! The crate itself performs no I/O: callers hand it the raw tree listings
//! (paths plus per-entry metadata) and receive a plan and an ordered list of
//! operations to execute against the destination.

pub mod collect;
pub mod config;
pub mod diff;
pub mod entry;
pub mod errors;
pub mod fspath;
pub mod model;
pub mod ops;
pub mod runner;

pub use collect::RawEntry;
pub use config::DirSyncConfig;
pub use diff::SyncPlan;
pub use entry::{Entry, EntryKind};
pub use errors::DirSyncError;
pub use ops::SyncOp;
pub use runner::SyncReport;
pub use fspath::RelPath;
