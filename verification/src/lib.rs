//! A content-addressed, deduplicating backup store.
//!
//! File contents are kept as compressed blocks named by the BLAKE2b hash of
//! their uncompressed bytes. The shape of a tree is kept as an ordered log of
//! index entries, grouped into hunks, inside versioned bands. This crate holds
//! the storage engine and its rules, each function with a contract that Verus
//! proves.
//!
//! The crate does not touch files, clocks or terminals itself. Storage is
//! reached through implementations of [`transport::Transport`]; one that keeps
//! everything in memory is [`memory::MemoryTransport`]. What is stored as JSON
//! (the heads and tails of bands, and the hunks of an index) is handed in and
//! out as bytes, and as the values that the bytes stand for.
//!
//! From the bottom up:
//!
//! * [`kind`], [`apath`], [`bandid`], [`blockhash`], [`entry`], [`index`]:
//!   the values that an archive is made of, and their order.
//! * [`transport`], [`memory`], [`debug`]: storage.
//! * [`compress`], [`cache`], [`blockset`], [`blockdir`], [`blockindex`],
//!   [`filecontent`]: blocks, and the content of files in blocks.
//! * [`archive`], [`band`], [`stored_tree`]: the archive and its versions.
//! * [`stitch`], [`merge`], [`excludes`]: reading trees.
//! * [`backup`], [`gc`], [`validate`]: writing, deleting and checking.
//! * [`errors`], [`monitor`], [`stats`], [`output`], [`misc`]: what is
//!   reported.

pub mod kind;
pub mod apath;
pub mod blockhash;
pub mod bandid;
pub mod entry;
pub mod index;
pub mod excludes;
pub mod stitch;
pub mod merge;
pub mod transport;
pub mod memory;
pub mod debug;
pub mod misc;
pub mod output;
pub mod compress;
pub mod cache;
pub mod errors;
pub mod monitor;
pub mod stats;
pub mod blockset;
pub mod blockdir;
pub mod blockindex;
pub mod filecontent;
pub mod archive;
pub mod band;
pub mod gc;
pub mod stored_tree;
pub mod validate;
pub mod backup;
