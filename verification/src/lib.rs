//! Retention policy for a flat directory of backup files.
//!
//! A clean-up run thins the backups out. It looks back from the present to
//! six boundaries: now, one day, one week, four weeks, 52 weeks and 104
//! weeks ago. Each boundary evicts one file, the most recent one that is
//! older than it, and every file that no boundary evicts stays. A run
//! therefore removes six files at most, and none at all unless it is given
//! a name prefix to select the backups by.
//!
//! The crate decides from file names and modification times alone and
//! touches no file. A caller lists the directory, hands the listing in as
//! plain values, and applies the [`executor::Action`]s that come back.
//!
//! - [`timestamp`]: instants and their order.
//! - [`boundary`]: the six boundaries of a run.
//! - [`candidate`]: directory entries and candidate files.
//! - [`scanner`]: from a listing to the candidates.
//! - [`sorting`]: the candidates most recent first.
//! - [`selector`]: the sweep that parts the candidates.
//! - [`executor`]: the steps that apply a decision.
//! - [`cleanup`]: a whole run.

pub mod boundary;
pub mod candidate;
pub mod cleanup;
pub mod executor;
pub mod scanner;
pub mod selector;
pub mod sorting;
pub mod timestamp;
