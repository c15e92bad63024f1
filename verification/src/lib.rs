//! A log-structured key/value store (bitcask-style segments with an in-memory
//! index) and the replicated-log bookkeeping that feeds it.
pub mod bitcask;
pub mod store;
pub mod proto;
