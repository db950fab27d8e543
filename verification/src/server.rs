//! The node runtime: shared state and message routing.

pub mod router;
pub mod stdio;
