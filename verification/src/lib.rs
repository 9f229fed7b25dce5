//! A time-series store for clinical measurements.
//!
//! Measurements are uniform records `(timestamp, metric_name, value, context,
//! resource_type)` kept in time-bucketed chunks, written ahead to a framed
//! log for durability, and queried by metric, metric prefix, resource type
//! and time range.

pub mod chunk;
pub mod codec;
pub mod laws;
pub mod config;
pub mod persistence;
pub mod query;
pub mod record;
pub mod strutil;
pub mod storage;
pub mod wal;

pub use record::Record;
pub use record::RecordView;

pub use storage::chunk_id_for_timestamp;
pub use storage::spec_chunk_id;
