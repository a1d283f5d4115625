//! A container-oriented process supervisor core.
//!
//! The crate holds the verified engine of an init process for containers:
//! configuration merging, dependency-ordered launching, cron scheduling,
//! and the per-process lifecycle state machine.

use vstd::prelude::*;

pub mod config;
pub mod cron;
pub mod cronjob;
pub mod dependency_graph;
pub mod datetime;
pub mod process;
pub mod process_builder;
pub mod process_map;
pub mod startup_checks;
pub mod supervisor;
pub mod template;
pub mod text;

pub use process::ProcessState;
pub use process::ProcessType;

verus! {

} // verus!
