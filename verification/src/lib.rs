//! Verified core of the AIS Parquet layout optimizer and benchmark.
pub mod hilbert;
pub mod intervals;
pub mod cells;
pub mod calendar;
pub mod decimal;
pub mod text;
pub mod timestamps;
pub mod partition;
pub mod query;
pub mod pruning;
pub mod matching;
pub mod config;
pub mod durations;
pub mod ships;
pub mod ingest;
pub mod layout;
pub mod bench;
pub mod bloom;
