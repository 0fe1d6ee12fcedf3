//! Constants and error codes shared by the whole kernel.

pub mod cp0reg;
pub mod error;
pub mod types;
