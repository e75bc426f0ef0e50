//! Idempotent, race-tolerant provisioning of an application-data directory
//! and its "templates" child, verified against an explicit model of the
//! filesystem.
//!
//! The host shell resolves a platform base path and performs the real disk
//! operations; this crate holds the logic: what each operation returns, which
//! directories exist afterwards, and exactly when each error is reported.

pub mod disk;
pub mod error;
pub mod path;
pub mod provision;
