//! Core of a terminal disk-usage analyzer: a traversal engine that walks a
//! directory tree and streams scan events through a bounded channel, and an
//! incremental tree store that consumes those events while the scan is still
//! running.
//!
//! Filesystem access itself (stat, read-dir, canonicalize) is performed by the
//! embedding binary, which drives [`scanner::ScanEngine`] by answering its
//! requests with plain metadata values; everything the engine decides from
//! those answers is verified here.

pub mod channel;
pub mod delete;
pub mod model;
pub mod scanner;
pub mod store;
pub mod text;
pub mod view;
