//! Dependency-health analysis for Cargo projects: scoring, baselines,
//! lockfile handling and report rendering, with their contracts.

pub mod advisory;
pub mod analyze;
pub mod baseline;
pub mod cli;
pub mod config;
pub mod dups;
pub mod explain;
pub mod graph;
pub mod lines;
pub mod markdown;
pub mod policy;
pub mod reach;
pub mod registry;
pub mod report;
pub mod sarif;
pub mod score;
pub mod style;
pub mod text;
pub mod upgrade;
pub mod upgrade_flow;
pub mod version;
