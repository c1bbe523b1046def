//! Reconstructs a user-meaningful view of in-progress history on top of a
//! version-control repository: an event log of observed operations, the
//! rewrite graph derived from it, per-commit visibility, and the rendered
//! commit graph.

pub mod codec;
pub mod commit_id;
pub mod commit_map;
pub mod event;
pub mod eventlog;
pub mod graph;
pub mod ingest;
pub mod init;
pub mod repo;
pub mod rewrite;
pub mod smartlog;
pub mod storage;
pub mod text;
pub mod visibility;
