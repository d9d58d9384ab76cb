//! Engage: a process composer with ordering and parallelism based on
//! directed acyclic graphs.
//!
//! This crate holds the logic of Engage: validating names, checking version
//! compatibility, building the graph of processes from an Engage file,
//! detecting dependency cycles, selecting subgraphs, deciding which
//! processes may be spawned next, and formatting messages.

pub mod config;
pub mod engage;
pub mod error;
pub mod graph;
pub mod group_graph;
pub mod listing;
pub mod message;
pub mod name;
pub mod output;
pub mod report;
pub mod run;
pub mod semver;
pub mod text;
pub mod util;
