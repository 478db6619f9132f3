//! Verified parsing and bookkeeping for a small host-metrics exporter.

pub mod collectors;
pub mod snapshot;
pub mod text;
pub mod metrics;
