//! Fault classification for actor invocations and the epoch-bucketed queue of
//! sparse identifier sets that actors schedule deferred work with.

pub mod bitfield;
pub mod error;
pub mod exit_code;
pub mod externs;
pub mod invocation;
pub mod quant;
pub mod queue;
pub mod store;
