//! Sampling with `perf_event_open`: what is asked of the kernel, and what is read from
//! its ring buffers.

pub mod bytes;
pub mod sys;
pub mod ring;
pub mod commits;
pub mod consume;
pub mod extra_event;
pub mod record;
pub mod builder;
pub mod opening;
pub mod perf;
pub mod cpus;
pub mod group;
