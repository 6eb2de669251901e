//! Structured events of the agent lifecycle and the sinks that consume them.
pub mod console;
pub mod event;
pub mod sink;
