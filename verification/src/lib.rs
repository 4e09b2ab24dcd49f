//! Feasible integral scheduling of jobs with time windows onto identical
//! parallel machines, by an iterative maximum-flow technique: a network is
//! built from the problem instance, a level-by-level, left-to-right sweep
//! marks each processor level idle or busy over maximal feasible ranges
//! found by binary search, and the schedule is read off the saturating
//! flow and validated before it is handed out.

pub mod algorithm;
pub mod dataset_parsing;
pub mod instance_generation;
pub mod network;
pub mod types;
