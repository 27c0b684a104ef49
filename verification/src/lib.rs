//! A command multiplexer: runs a set of shell commands concurrently under a
//! parallelism cap, tracks per-task status and output, and assembles a
//! structured result.
//!
//! This crate holds the verified core: the task registry and its event-driven
//! updates, exit-status classification, the permit-pool model that bounds
//! concurrency, result assembly, dashboard rendering, argument validation,
//! and a JSON codec for the result. Process spawning, terminals, signals and
//! the async runtime live outside the library.

pub mod args;
pub mod codec;
pub mod multiplexer;
pub mod pool;
pub mod render;
pub mod text;
