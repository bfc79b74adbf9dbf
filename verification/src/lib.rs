//! The logic of a browser for bare repositories: the commit graph with its
//! drawing lanes, the commit log by pages, and unified diffs between trees.
//!
//! The library reads nothing itself. What a store has read comes in as plain
//! values (`store`), and every function says in its contract what it makes
//! of them.

pub mod dag;
pub mod diff;
pub mod error;
pub mod graph;
pub mod init;
pub mod lanes;
pub mod log;
pub mod oid;
pub mod progress;
pub mod refs;
pub mod repository;
pub mod snapshot;
pub mod store;
pub mod text;
pub mod types;
pub mod usb;
