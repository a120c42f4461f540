//! Coordination layer of a sharded vector-search database: cluster membership
//! and failure detection, leader election, key-to-shard routing, collection
//! metadata, and the planning and merging of fan-out queries.

pub mod backup;
pub mod cluster;
pub mod error;
pub mod metadata;
pub mod metrics;
pub mod monitor;
pub mod query;
pub mod replication;
pub mod restore;
mod seqs;
pub mod sharding;
mod system;
pub mod text;
