//! Everything a node keeps: the log, the state machine and the snapshots.
use vstd::prelude::*;
use vstd::utf8::encode_utf8;
use crate::bitcask::db::Engine;
use crate::bitcask::error::Result;
use crate::bitcask::fio::Store;
use crate::bitcask::naming::{decimal, push_decimal, lemma_decimal_shape, is_digit, segment_id_of};
use crate::bitcask::options::Options;
use crate::bitcask::recovery::encode_all;
use crate::bitcask::sys::{string_from_utf8, lemma_ascii_valid_utf8};
use crate::store::log_store::LogStore;
use crate::store::state_machine::ExampleStateMachine;
use crate::store::types::{LogId, StoredMembership};

verus! {

/// What a snapshot was taken of: the last entry it covers, the membership
/// then, and its id.
#[derive(Debug)]
pub struct SnapshotMeta<M> {
    pub last_log_id: Option<LogId>,
    pub last_membership: StoredMembership<M>,
    pub snapshot_id: String,
}

/// A snapshot: its description and its data.
#[derive(Debug)]
pub struct ExampleSnapshot<M> {
    pub meta: SnapshotMeta<M>,
    /// The data of the state machine at the time of this snapshot: its
    /// key/value pairs as stored records, by increasing key.
    pub data: Vec<u8>,
}

/// The state machine of a node, with no key/value contents of its own.
pub struct MYexampleStateMachine<S> {
    pub data: Engine<S>,
}

/// Everything a node stores.
pub struct ExampleStore<S, M> {
    pub log_store: LogStore<M>,
    pub state_machine: ExampleStateMachine<S, M>,
    pub snapshot_idx: u64,
    pub current_snapshot: Option<ExampleSnapshot<M>>,
}

/// The id of the `idx`-th snapshot taken after applying up to `last`:
/// term, node id and index of `last`, then `idx`, separated by `-`; or
/// `--` and `idx` when nothing was applied.
pub open spec fn snapshot_id_bytes(last: Option<LogId>, idx: u64) -> Seq<u8> {
    match last {
        Some(l) => decimal(l.leader_id.term as nat) + seq![45u8] + decimal(l.leader_id.node_id as nat)
            + seq![45u8] + decimal(l.index as nat) + seq![45u8] + decimal(idx as nat),
        None => seq![45u8, 45u8] + decimal(idx as nat),
    }
}

proof fn lemma_decimal_ascii(n: nat)
    ensures
        forall|i: int| 0 <= i < decimal(n).len() ==> decimal(n)[i] < 0x80,
{
    lemma_decimal_shape(n);
    assert forall|i: int| 0 <= i < decimal(n).len() implies decimal(n)[i] < 0x80 by {
        assert(is_digit(decimal(n)[i]));
    }
}

/// Builds the id of the `idx`-th snapshot taken after applying up to `last`.
pub fn snapshot_id(last: Option<LogId>, idx: u64) -> (s: String)
    ensures
        encode_utf8(s@) == snapshot_id_bytes(last, idx),
{
    let mut b: Vec<u8> = Vec::new();
    match last {
        Some(l) => {
            push_decimal(&mut b, l.leader_id.term);
            b.push(45u8);
            push_decimal(&mut b, l.leader_id.node_id);
            b.push(45u8);
            push_decimal(&mut b, l.index);
            b.push(45u8);
            push_decimal(&mut b, idx);
        },
        None => {
            b.push(45u8);
            b.push(45u8);
            push_decimal(&mut b, idx);
        },
    }
    proof {
        assert(b@ =~= snapshot_id_bytes(last, idx));
        match last {
            Some(l) => {
                lemma_decimal_ascii(l.leader_id.term as nat);
                lemma_decimal_ascii(l.leader_id.node_id as nat);
                lemma_decimal_ascii(l.index as nat);
            },
            None => {},
        }
        lemma_decimal_ascii(idx as nat);
        assert forall|i: int| 0 <= i < b@.len() implies b@[i] < 0x80 by {
            match last {
                Some(l) => {
                    let d1 = decimal(l.leader_id.term as nat);
                    let d2 = decimal(l.leader_id.node_id as nat);
                    let d3 = decimal(l.index as nat);
                    if i < d1.len() {
                        assert(b@[i] == d1[i]);
                    } else if i == d1.len() {
                    } else if i < d1.len() + 1 + d2.len() {
                        assert(b@[i] == d2[i - d1.len() - 1]);
                    } else if i == d1.len() + 1 + d2.len() {
                    } else if i < d1.len() + 2 + d2.len() + d3.len() {
                        assert(b@[i] == d3[i - d1.len() - 2 - d2.len()]);
                    } else if i == d1.len() + 2 + d2.len() + d3.len() {
                    } else {
                        assert(b@[i] == decimal(idx as nat)[i - d1.len() - 3 - d2.len() - d3.len()]);
                    }
                },
                None => {
                    if i >= 2 {
                        assert(b@[i] == decimal(idx as nat)[i - 2]);
                    }
                },
            }
        }
        lemma_ascii_valid_utf8(b@);
    }
    match string_from_utf8(b) {
        Some(s) => s,
        None => String::new(),
    }
}

impl<S: Store, M: Default + Clone> ExampleStore<S, M> {
    /// A node's storage over the engine of the segments named `file_names`
    /// in `db_path`: segments of up to 1 GiB, written with syncing.
    pub fn new(db_path: std::path::PathBuf, file_names: &Vec<Vec<u8>>) -> (r: Result<Self>)
        requires
            forall|i: int| 0 <= i < file_names@.len() ==> (#[trigger] segment_id_of(file_names@[i]@)) is Some,
        ensures
            S::infallible() ==> r is Ok,
            r matches Err(e) ==> !S::infallible() && e is FialedToOpenFile,
            r matches Ok(st) ==> {
                &&& st.log_store.wf()
                &&& st.log_store.log@ == Map::<u64, crate::store::types::Entry<M>>::empty()
                &&& st.log_store.last_purged_log_id is None
                &&& st.log_store.vote is None
                &&& st.state_machine.last_applied_log is None
                &&& st.state_machine.data.ops.max_segment_size == 1073741824
                &&& st.state_machine.data.ops.sync_write
                &&& st.snapshot_idx == 0
                &&& st.current_snapshot is None
                &&& st.state_machine.data.ops.dir_path == db_path
                &&& st.state_machine.data.holds_segments(st.state_machine.data.fids@)
                &&& forall|k: Seq<u8>| #[trigger] st.state_machine.data.index@.contains_key(k)
                    ==> st.state_machine.data.points_at(k, st.state_machine.data.index@[k])
                &&& S::infallible() ==> st.state_machine.data.index@ == st.state_machine.data.rebuild(
                    Map::empty(),
                    st.state_machine.data.fids@,
                )
                &&& S::infallible() && S::opens_empty() ==> st.state_machine.data.wf() && st.state_machine.data.kv()
                    == Map::<Seq<u8>, Seq<u8>>::empty()
            },
    {
        let ops = Options { dir_path: db_path, max_segment_size: 1073741824, sync_write: true };
        let eg = Engine::<S>::new(ops, file_names)?;
        Ok(ExampleStore {
            log_store: LogStore::new(),
            state_machine: ExampleStateMachine::new(eg),
            snapshot_idx: 0,
            current_snapshot: None,
        })
    }

    /// A copy of the stored membership.
    fn copy_membership(m: &StoredMembership<M>) -> (r: StoredMembership<M>)
        ensures
            r.log_id == m.log_id,
            vstd::pervasive::cloned(m.membership, r.membership),
    {
        StoredMembership { log_id: m.log_id, membership: m.membership.clone() }
    }

    /// Takes a snapshot of the state machine: counts it, names it after the
    /// last applied entry and the count, serialises the key/value pairs,
    /// keeps it as the current snapshot and returns its description and data.
    pub fn build_snapshot(&mut self) -> (r: (SnapshotMeta<M>, Vec<u8>))
        requires
            old(self).snapshot_idx < u64::MAX,
        ensures
            final(self).snapshot_idx == old(self).snapshot_idx + 1,
            r.0.last_log_id == old(self).state_machine.last_applied_log,
            r.0.last_membership.log_id == old(self).state_machine.last_membership.log_id,
            vstd::pervasive::cloned(old(self).state_machine.last_membership.membership, r.0.last_membership.membership),
            encode_utf8(r.0.snapshot_id@) == snapshot_id_bytes(
                old(self).state_machine.last_applied_log,
                final(self).snapshot_idx,
            ),
            S::infallible() ==> r.1@ == encode_all(old(self).state_machine.data.kv_records()),
            final(self).current_snapshot matches Some(cs) && {
                &&& cs.meta.last_log_id == r.0.last_log_id
                &&& cs.meta.last_membership.log_id == r.0.last_membership.log_id
                &&& vstd::pervasive::cloned(old(self).state_machine.last_membership.membership, cs.meta.last_membership.membership)
                &&& cs.meta.snapshot_id@ == r.0.snapshot_id@
                &&& cs.data@ == r.1@
            },
            final(self).log_store == old(self).log_store,
            final(self).state_machine == old(self).state_machine,
    {
        let data = self.state_machine.data.kv_bytes();
        let last_applied_log = self.state_machine.last_applied_log;
        let last_membership = Self::copy_membership(&self.state_machine.last_membership);
        self.snapshot_idx = self.snapshot_idx + 1;
        let snapshot_idx = self.snapshot_idx;
        let snapshot_id = snapshot_id(last_applied_log, snapshot_idx);
        let meta = SnapshotMeta {
            last_log_id: last_applied_log,
            last_membership: Self::copy_membership(&self.state_machine.last_membership),
            snapshot_id: snapshot_id.clone(),
        };
        let kept = SnapshotMeta { last_log_id: last_applied_log, last_membership, snapshot_id };
        let mut data_copy: Vec<u8> = Vec::new();
        crate::bitcask::data::append_bytes(&mut data_copy, data.as_slice());
        self.current_snapshot = Some(ExampleSnapshot { meta: kept, data: data_copy });
        (meta, data)
    }

    /// Replaces the state machine by an empty one and keeps the received
    /// snapshot as the current one.
    pub fn install_snapshot(&mut self, meta: SnapshotMeta<M>, data: Vec<u8>)
        ensures
            final(self).state_machine.last_applied_log is None,
            final(self).state_machine.last_membership.log_id is None,
            final(self).state_machine.data.kv() == Map::<Seq<u8>, Seq<u8>>::empty(),
            final(self).current_snapshot matches Some(cs) && {
                &&& cs.meta == meta
                &&& cs.data@ == data@
            },
            final(self).log_store == old(self).log_store,
            final(self).snapshot_idx == old(self).snapshot_idx,
    {
        let updated_state_machine: ExampleStateMachine<S, M> = ExampleStateMachine::default();
        self.state_machine = updated_state_machine;
        self.current_snapshot = Some(ExampleSnapshot { meta, data });
    }

    /// A copy of the current snapshot's description and data, if there is one.
    pub fn get_current_snapshot(&self) -> (r: Option<(SnapshotMeta<M>, Vec<u8>)>)
        ensures
            r is Some <==> self.current_snapshot is Some,
            r matches Some(p) ==> {
                let cs = self.current_snapshot->0;
                &&& p.0.last_log_id == cs.meta.last_log_id
                &&& p.0.last_membership.log_id == cs.meta.last_membership.log_id
                &&& vstd::pervasive::cloned(cs.meta.last_membership.membership, p.0.last_membership.membership)
                &&& p.0.snapshot_id@ == cs.meta.snapshot_id@
                &&& p.1@ == cs.data@
            },
    {
        match &self.current_snapshot {
            Some(snapshot) => {
                let mut data: Vec<u8> = Vec::new();
                crate::bitcask::data::append_bytes(&mut data, snapshot.data.as_slice());
                let meta = SnapshotMeta {
                    last_log_id: snapshot.meta.last_log_id,
                    last_membership: Self::copy_membership(&snapshot.meta.last_membership),
                    snapshot_id: snapshot.meta.snapshot_id.clone(),
                };
                Some((meta, data))
            },
            None => None,
        }
    }

    /// The id of the last applied entry and a copy of the stored membership.
    pub fn last_applied_state(&self) -> (r: (Option<LogId>, StoredMembership<M>))
        ensures
            r.0 == self.state_machine.last_applied_log,
            r.1.log_id == self.state_machine.last_membership.log_id,
            vstd::pervasive::cloned(self.state_machine.last_membership.membership, r.1.membership),
    {
        (self.state_machine.last_applied_log, Self::copy_membership(&self.state_machine.last_membership))
    }
}

} // verus!
