//! Off-chain link resolution: a persistent, retrying, scheduler-driven work
//! queue that dispatches URIs to pluggable downloaders and the downloaded
//! bytes to pluggable parsers, while durably tracking per-task state in a
//! backing store.

pub mod operation;
pub mod queue;
pub mod resolver;
pub mod sink;
pub mod store;
pub mod task;
pub mod uri;
