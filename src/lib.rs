//! Dependency-graph install scheduler: plan building, bounded dispatch,
//! outcome reduction with failure cascade, and run-level policy.
pub mod install;
pub mod plan;
pub mod schedule;
