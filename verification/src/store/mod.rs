//! Storage for a replicated log whose entries are applied to the key/value
//! engine: the log itself, the vote, the state machine and its snapshots.
pub mod types;
pub mod log_store;
pub mod state_machine;
pub mod example_store;
