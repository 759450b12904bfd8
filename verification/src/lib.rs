//! Runs caller-supplied scripts in an ephemeral, dependency-resolved run and
//! reports captured output plus the set of workspace files the run changed.
//!
//! This crate holds the decision logic of that pipeline on plain values:
//! parsing the baseline requirement lists, inferring which packages to
//! install, turning a process outcome into an execution result, and diffing
//! workspace snapshots. The surrounding process, filesystem and HTTP plumbing
//! hands values in and out.

pub mod baseline;
pub mod engine;
pub mod orchestrator;
pub mod resolver;
pub mod store;
pub mod text;
pub mod tracker;
