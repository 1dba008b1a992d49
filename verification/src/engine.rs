//! The build engine: package names and link times, the build scheduler,
//! the planner's registry, and what its executors run.
pub mod builder;
pub mod graph;
pub mod http;
pub mod laws;
pub mod package;
pub mod planner;
pub mod sandbox;
pub mod scheduler;
