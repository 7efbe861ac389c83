//! Token-bucket rate limiting and consistent hashing, with the logic that the
//! limiter's service builds on: storage records, configuration checks and the
//! hash ring that routes keys to shards.

pub mod bucket;
pub mod consistent_hash;
pub mod error;
pub mod service;
pub mod storage;
pub mod text;

pub use bucket::{check_bucket_config, plan_consume};
pub use consistent_hash::ConsistentHashRing;
pub use error::LimiterError;
pub use storage::{format_limit_record, format_record, parse_record, recover_state, BucketRecord, RecoveredState};
