//! Verified core of an experiment-optimisation toolkit.

pub mod text;
pub mod ssh;
pub mod style;
pub mod classifier;
pub mod sorting;
pub mod pruning;
pub mod trial;
pub mod hyperband;
pub mod agent;
pub mod strategy;
pub mod bench;
pub mod learning;
pub mod store;
pub mod config;
pub mod tools;
pub mod compute;
pub mod tuning;
pub mod nsga;
pub mod loader;
