//! An offline simulator of a dynamic-priority real-time scheduler: earliest
//! deadline first dispatch, an admission test on processor utilization,
//! context-switch accounting and an optional table of processor speeds.
//!
//! Every quantity is exact: utilization and speeds are ratios of integers,
//! so the contracts of this crate hold without rounding.

pub mod ratio;
pub mod process;
pub mod heap;
pub mod queue;
pub mod text;
pub mod loader;
pub mod utilization;
pub mod scheduler;
pub mod laws;
