//! Core coordination logic for a fleet of peer workers that cooperatively
//! consume a partitioned stream: worker registry bookkeeping, deterministic
//! Maglev-style shard assignment, readiness gating, and the lifecycle
//! decisions that bind them together.

pub mod clients;
pub mod config;
pub mod consumer;
pub mod errors;
pub mod shards;
