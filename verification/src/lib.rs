//! Verified core of a replica runtime for conflict-free replicated data types.

pub mod crdt;
pub mod db;
pub mod dots;
pub mod http_client;
pub mod journal;
pub mod logging;
pub mod metrics;
pub mod multimap;
pub mod network;
pub mod object_storage;
pub mod order;
pub mod orset;
pub mod prelude;
pub mod replica;
pub mod replica_config;
pub mod replica_helpers;
pub mod text;
