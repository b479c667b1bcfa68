//! Watts-Strogatz small-world graphs.
pub mod batches;
pub mod circle;
pub mod cluster;
pub mod coordinator;
pub mod counting;
pub mod dashboard;
pub mod demo;
pub mod distance;
pub mod drafts;
pub mod ends;
pub mod generation;
pub mod graph;
pub mod measures;
pub mod metrics;
pub mod model;
pub mod parallel;
pub mod partition;
pub mod probability;
pub mod protocol;
pub mod random;
pub mod rows;
pub mod sorted;
pub mod sorting;
pub mod text;
pub mod worker;
