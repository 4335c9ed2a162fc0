//! The messages that two peers exchange to bring their chains together.

pub mod chain;
pub mod hash_set;
pub mod sync;
