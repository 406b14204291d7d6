//! Workflow orchestration with verified logic.
//!
//! - [`dag`] holds the graph of tasks, over [`digraph`] and the notions of
//!   [`topology`]; [`spec`] builds it from what is written down.
//! - [`local`] plans and tracks the run of a DAG in this process, [`forjar`] that
//!   of the [`resources`] of a `forjar.yaml` by the `forjar` program. Both leave a
//!   [`report`]; [`task`] holds what tasks hand to each other, [`state`] the
//!   states they pass through.
//! - [`lineage`] holds the records of runs and the rows they are stored in,
//!   [`queries`] the statements to the database, [`mermaid`] the drawing.
//! - [`scheduler`] keeps track of jobs and of when they fire, [`backfill`] plans a
//!   run for each day of a range.
//! - [`commands`] holds what the command line tells.
//! - [`json`], [`ordered`], [`text`] and [`time`] hold the values that the others
//!   are made of.
pub mod backfill;
pub mod commands;
pub mod dag;
pub mod digraph;
pub mod forjar;
pub mod json;
pub mod lineage;
pub mod local;
pub mod mermaid;
pub mod ordered;
pub mod queries;
pub mod report;
pub mod resources;
pub mod scheduler;
pub mod spec;
pub mod state;
pub mod task;
pub mod text;
pub mod time;
pub mod topology;
