//! Dependency-aware task execution: task graphs, scheduling, the worker wire
//! protocol, execution journal and job records, worker health, and the
//! decision logic of distributed, cached, journaled and metered execution.
pub mod graph;
pub mod wire;
pub mod protocol;
pub mod registry;
pub mod text;
pub mod executor;
pub mod journal;
pub mod store;
pub mod cache;
pub mod client;
pub mod metrics;
pub mod journaled;
pub mod cached;
pub mod worker;
