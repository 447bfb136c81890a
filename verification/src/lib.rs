//! Core of a content-addressed version-control engine.
//!
//! A working directory is turned into an immutable graph of objects (blobs,
//! trees and commits) that live in a content-addressed [`store::Store`]. The
//! repository tracks a mutable candidate tree, the prepared next commit, and a
//! head commit. Staging mutates the candidate, committing freezes it into a
//! commit chained to the head, and the log walks the parent graph.
//!
//! The library performs no I/O. Callers hand it what they observed on the
//! filesystem as plain values and persist the store, the cache and the state
//! themselves.

pub mod error;
pub mod bytes;
pub mod digest;
pub mod object;
pub mod tree;
pub mod wire;
pub mod codec;
pub mod store;
pub mod path;
pub mod hierarchy;
pub mod batch;
pub mod batch_laws;
pub mod cache;
pub mod blob;
pub mod repository;
pub mod candidate;
pub mod stage_laws;
pub mod commit;
pub mod log;
pub mod log_laws;
pub mod clone;
