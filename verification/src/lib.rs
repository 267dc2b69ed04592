//! A lineage-based DAG scheduler: stage construction at shuffle boundaries,
//! stage submission, completion and failure handling, and map-output tracking.

pub mod cache_tracker;
pub mod context;
pub mod dependency;
pub mod error;
pub mod events;
pub mod executors;
pub mod ids;
pub mod job;
pub mod local_scheduler;
pub mod locality;
pub mod map_output_tracker;
pub mod missing;
pub mod partial;
pub mod partitioner;
pub mod paths;
pub mod progress;
pub mod rdd;
pub mod scheduler;
pub mod stage;
pub mod stages;
pub mod submit;
pub mod task;
pub mod theorems;
