//! Replies a node sends to its clients.
use vstd::prelude::*;

verus! {

/// A reply to a client command: success, a failure with its message, an
/// unknown key, a value, or serialized metrics.
#[derive(Debug, Clone)]
pub enum Response {
    Success,
    Failure(String),
    NotFound,
    Value(String),
    Metrics(Vec<u8>),
}

} // verus!
