//! Keeps a catalog of media files in step with a directory tree.
//!
//! A scan turns a directory listing into a tree of media files, a diff
//! compares each level of that tree with what the catalog already holds, and
//! the result is a list of catalog statements plus the thumbnails that have to
//! be generated. A small state machine decides when a cycle may start or stop.
//!
//! The library decides and computes; it reads no directory and writes to no
//! store. Its caller reads, hands over what it read, and carries out what
//! comes back.
//!
//! - [`scan`] makes the snapshot of a tree from directory entries.
//! - [`diff`] compares one level of the snapshot with the catalog.
//! - [`indexer`] plans the statements for one directory and walks the
//!   snapshot; [`catalog`] says what the statements mean.
//! - [`worker`] and [`thumb`] are the decisions around thumbnail generation,
//!   [`exif`] and [`media`] those on a file's metadata and kind.
//! - [`writer`] turns generated entries into statements and groups them
//!   into transactions.
//! - [`scanner`] is the lifecycle of the cycles and their figures.
//! - [`mirror`] and [`cycle`] prove what a cycle makes of the stores.
//! - [`state`] and [`models`] hold the query texts and the records of the
//!   catalog's clients.
use vstd::prelude::*;

pub mod catalog;
pub mod cycle;
pub mod diff;
pub mod exif;
pub mod indexer;
pub mod media;
pub mod mirror;
pub mod models;
pub mod paths;
pub mod scan;
pub mod scanner;
pub mod state;
pub mod thumb;
pub mod worker;
pub mod writer;

verus! {

/// Longest edge, in pixels, of a generated thumbnail.
pub const THUMB_SIZE: u16 = 512;

/// Compression quality of a generated thumbnail, from 0 to 100.
pub const THUMB_QUALITY: u8 = 80;

/// Number of catalog statements after which a transaction is committed and
/// a fresh one opened.
pub const MAX_SQL_TX_SIZE: usize = 1024;

} // verus!
