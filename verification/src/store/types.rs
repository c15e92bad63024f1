//! The values that the replicated log carries: log ids, votes, requests,
//! responses and entries.
use vstd::prelude::*;

verus! {

/// The leader that proposed a log entry: its term and its node id. Leader
/// ids are ordered by term, then by node id.
#[derive(Debug, Clone, Copy, PartialEq, Eq)]
pub struct LeaderId {
    pub term: u64,
    pub node_id: u64,
}

/// The identity of a log entry: the leader that proposed it and its index.
/// Log ids are ordered by leader id, then by index.
#[derive(Debug, Clone, Copy, PartialEq, Eq)]
pub struct LogId {
    pub leader_id: LeaderId,
    pub index: u64,
}

/// The vote a node granted: the leader id it voted for and whether that
/// leader's term is committed.
#[derive(Debug, Clone, Copy, PartialEq, Eq)]
pub struct Vote {
    pub leader_id: LeaderId,
    pub committed: bool,
}

pub open spec fn leader_id_lt(a: LeaderId, b: LeaderId) -> bool {
    a.term < b.term || (a.term == b.term && a.node_id < b.node_id)
}

/// `a <= b` in the order of log ids.
pub open spec fn log_id_le(a: LogId, b: LogId) -> bool {
    leader_id_lt(a.leader_id, b.leader_id) || (a.leader_id == b.leader_id && a.index <= b.index)
}

/// `a <= b` for optional log ids, where no log id comes first.
pub open spec fn opt_log_id_le(a: Option<LogId>, b: Option<LogId>) -> bool {
    match (a, b) {
        (None, _) => true,
        (Some(_), None) => false,
        (Some(x), Some(y)) => log_id_le(x, y),
    }
}

/// Compares two optional log ids as `a <= b`.
pub fn opt_log_id_le_exec(a: &Option<LogId>, b: &Option<LogId>) -> (r: bool)
    ensures
        r == opt_log_id_le(*a, *b),
{
    match (a, b) {
        (None, _) => true,
        (Some(_), None) => false,
        (Some(x), Some(y)) => {
            if x.leader_id.term != y.leader_id.term {
                x.leader_id.term < y.leader_id.term
            } else if x.leader_id.node_id != y.leader_id.node_id {
                x.leader_id.node_id < y.leader_id.node_id
            } else {
                x.index <= y.index
            }
        },
    }
}

/// A write to the key/value store.
#[derive(Debug, Clone)]
pub enum ExampleRequest {
    SetValue { key: String, value: String },
}

/// The answer to an applied entry: the value written, if it wrote one.
#[derive(Debug, Clone)]
pub struct ExampleResponse {
    pub value: Option<String>,
}

/// What a log entry carries; `M` is the cluster membership.
#[derive(Debug)]
pub enum EntryPayload<M> {
    Blank,
    Normal(ExampleRequest),
    Membership(M),
}

/// A log entry.
#[derive(Debug)]
pub struct Entry<M> {
    pub log_id: LogId,
    pub payload: EntryPayload<M>,
}

/// A membership together with the id of the log entry that set it.
#[derive(Debug, Clone)]
pub struct StoredMembership<M> {
    pub log_id: Option<LogId>,
    pub membership: M,
}

/// One end of a range of log indexes.
#[derive(Debug, Clone, Copy)]
pub enum IndexBound {
    Included(u64),
    Excluded(u64),
    Unbounded,
}

/// Whether `i` lies within the bounds `start` and `end`.
pub open spec fn in_range(i: u64, start: IndexBound, end: IndexBound) -> bool {
    &&& match start {
        IndexBound::Included(s) => s <= i,
        IndexBound::Excluded(s) => s < i,
        IndexBound::Unbounded => true,
    }
    &&& match end {
        IndexBound::Included(e) => i <= e,
        IndexBound::Excluded(e) => i < e,
        IndexBound::Unbounded => true,
    }
}

/// Decides whether `i` lies within `start` and `end`.
pub fn in_range_exec(i: u64, start: IndexBound, end: IndexBound) -> (r: bool)
    ensures
        r == in_range(i, start, end),
{
    let lo = match start {
        IndexBound::Included(s) => s <= i,
        IndexBound::Excluded(s) => s < i,
        IndexBound::Unbounded => true,
    };
    let hi = match end {
        IndexBound::Included(e) => i <= e,
        IndexBound::Excluded(e) => i < e,
        IndexBound::Unbounded => true,
    };
    lo && hi
}

} // verus!
