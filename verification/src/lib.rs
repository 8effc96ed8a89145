//! Core of a local administrative console for a packet-filtering subsystem.
//!
//! The kernel side exposes its state through pseudo-files: a write-only
//! control device, a read-only log stream, and a read-only connection-table
//! stream. This crate is the synchronization and persistence engine between
//! an in-memory, user-editable rule set, its on-disk CSV form, and those
//! pseudo-files. All file and device I/O lives outside this crate; the
//! functions here take file contents as plain values and return plain values.

pub mod codec;
pub mod conn;
pub mod control;
pub mod error;
pub mod logtail;
pub mod rule;
pub mod store;
pub mod sched;
