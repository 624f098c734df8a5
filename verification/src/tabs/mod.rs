//! One module per tab of the monitor.
pub mod logs;
pub mod profiling;
pub mod world;
