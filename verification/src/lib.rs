//! Average bitrates of the media files of a directory tree, directory by
//! directory.
//!
//! A traversal probes every file for its bitrate and finishes each directory
//! once its files and subdirectories are done. This library holds what the
//! traversal decides and keeps:
//!
//! - `probe` reads a bitrate out of what the media inspection tool reports;
//! - `aggregate` combines the bitrates of a directory's files with the
//!   aggregates of its subdirectories;
//! - `walk` records a directory's aggregate under its path, where at least one
//!   file contributed;
//! - `trie` is the store of the aggregates, keyed by path segments, and
//!   `model` says what a trie is as a mathematical value;
//! - `report` writes the tree of averages below the root directory;
//! - `order`, `text` and `decimal` are the groundwork: the order of segments,
//!   cutting text at separators, and decimal notation.
//!
//! Listing directories, running the tool and printing are left to the caller.

pub mod aggregate;
pub mod decimal;
pub mod model;
pub mod order;
pub mod probe;
pub mod report;
pub mod text;
pub mod trie;
pub mod walk;
