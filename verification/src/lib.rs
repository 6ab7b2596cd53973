//! Tag scanning and reference caching for package archives.
//!
//! Every entry of a package set is scanned for embedded identifiers; the
//! matches are collected into a cache keyed by entry identifier, enriched with
//! the reverse reference graph, and stored in a compressed binary artifact.

pub mod cache;
pub mod context;
pub mod progress;
pub mod scanner;
pub mod store;
pub mod tables;
pub mod tag;
pub mod transform;
pub mod walker;
