//! Core of a profiling-trace viewer: ingestion of execution samples and
//! off-CPU samples into per-thread timelines, regex filtering, and
//! aggregation of the visible samples into a flame graph with a pixel-free
//! layout.

pub mod clock;
pub mod execution_sample;
pub mod filter;
pub mod flame_graph;
pub mod fx;
pub mod gzip;
pub mod interval;
pub mod jbm;
pub mod jfr;
pub mod pattern;
pub mod profile;
pub mod text;
pub mod timeline;
