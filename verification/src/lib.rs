//! disky: a disk-usage analyzer over DuckDB snapshots. This crate holds the
//! logic behind the command line: snapshot retention, the filter language,
//! cleanup-target selection, snapshot resolution, record shaping and the
//! tree browser's state machine, each with its contract.

pub mod exit;
pub mod text;
pub mod duration;
pub mod like;
pub mod filter;
pub mod sorting;
pub mod snapshots;
pub mod policy;
pub mod cleanup;
pub mod render;
pub mod ignore;
pub mod cli;
pub mod config;
pub mod db;
pub mod query;
pub mod scan;
pub mod pattern;
pub mod tui;
pub mod envelope;
