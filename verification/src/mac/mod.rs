//! Which processes of a launched tree are profiled, and how they are told of.

pub mod proc_watcher;
pub mod profiler;
