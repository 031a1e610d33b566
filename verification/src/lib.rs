//! A refresh-and-serve engine for software-update graphs.
//!
//! The library builds a directed graph of valid update paths between release
//! versions out of raw registry metadata, keeps the latest successfully built
//! snapshot in a cache that is never observed half-written, and answers client
//! queries by validating them against a set of mandatory parameters and
//! narrowing the graph to the releases the client asked for. A second,
//! policy-oriented tier consumes an already-built upstream graph and applies
//! an ordered chain of edge-visibility filters on top of the same validation.
//!
//! All I/O (HTTP serving, registry transport, timers) lives outside this
//! crate; the library works on plain values and states what it does in
//! contracts.

pub mod text;
pub mod graph;
pub mod cache;
pub mod builder;
pub mod server;
pub mod policy;
pub mod config;
