//! Dependency-ordered orchestration of infrastructure modules.
//!
//! The crate builds a dependency graph over scope-qualified modules, plans
//! the layers in which a target's dependencies can be brought up, resolves
//! reference expressions against upstream outputs and scope variables, and
//! steers a run as a state machine whose effects are left to the caller.
//!
//! Contracts are stated over mathematical models: every data type has a
//! model, reached by `deep_view`, and every map is an association list
//! whose first entry for a key is the one that counts.

pub mod error;
pub mod value;

pub mod parser;
pub mod schema;
pub mod defaults;
pub mod scoping;

pub mod digraph;
pub mod plan;
pub mod toposort;
pub mod layering;
pub mod planner;
pub mod resolution;
pub mod graph;

pub mod path;
pub mod resolver;

pub mod terraform;
pub mod runtime;
pub mod report;
