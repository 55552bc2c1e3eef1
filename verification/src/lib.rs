//! Configuration persistence and migration engine for a multi-window desktop
//! notepad, together with a per-path file-watch registry.
//!
//! The library owns the pure part of that work, stated and checked down to
//! the representation on disk:
//!
//! - [`records`] — the configuration records: the machine-wide
//!   [`records::GlobalConfig`], the per-session [`records::InstanceConfig`],
//!   and the merged [`records::AppConfig`] the GUI layer works with;
//! - [`codec`] — a deterministic, line-oriented text form for those records,
//!   with decode proven to invert encode;
//! - [`disk`] — a model of the handful of on-disk locations the records live
//!   at, as plain values;
//! - [`migrate`] — the one-shot, idempotent migration of the two legacy
//!   layouts into the current one, proven never to overwrite newer state;
//! - [`manager`] — the public operations (load, save, the opened- and
//!   recent-files rules), with the two-phase lock protocol they are written
//!   for;
//! - [`watch`] — the deduplicating per-path watch registry and its event
//!   classification.
//!
//! The surrounding process supplies what cannot be verified: real file reads
//! and writes, the lock, the native watcher handles and the GUI bridge. It
//! hands the library plain values and carries out the decisions the library
//! returns.

pub mod codec;
pub mod disk;
pub mod manager;
pub mod migrate;
pub mod records;
pub mod text;
pub mod watch;
