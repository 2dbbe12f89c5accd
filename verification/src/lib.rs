//! In-memory metric engine of a per-node metric proxy: a typed counter
//! kernel, per-job exporters with reference counting, a binary trace log
//! that folds itself when it outgrows its size budget, and the scheduling
//! and federation rules that tie the pieces together.

pub mod alarms;
pub mod common;
pub mod counters;
pub mod errors;
pub mod exporter;
pub mod fmt;
pub mod ingest;
pub mod jobs;
pub mod names;
pub mod pivot;
pub mod registry;
pub mod scrape;
pub mod snapshot;
pub mod squeue;
pub mod store;
pub mod system;
pub mod trace;
pub mod trace_codec;
pub mod util;
