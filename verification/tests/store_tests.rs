use std::path::PathBuf;

use raftkv::bitcask::fio::mem_store::MemStore;
use raftkv::proto::Response;
use raftkv::store::example_store::{snapshot_id, ExampleStore, SnapshotMeta};
use raftkv::store::log_store::LogStore;
use raftkv::store::types::{
    Entry, EntryPayload, ExampleRequest, IndexBound, LeaderId, LogId, StoredMembership, Vote,
};

fn lid(term: u64, node: u64, index: u64) -> LogId {
    LogId { leader_id: LeaderId { term, node_id: node }, index }
}

fn blank(term: u64, index: u64) -> Entry<Vec<u64>> {
    Entry { log_id: lid(term, 1, index), payload: EntryPayload::Blank }
}

fn set(index: u64, k: &str, v: &str) -> Entry<Vec<u64>> {
    Entry {
        log_id: lid(1, 1, index),
        payload: EntryPayload::Normal(ExampleRequest::SetValue { key: k.to_string(), value: v.to_string() }),
    }
}

fn new_store() -> ExampleStore<MemStore, Vec<u64>> {
    ExampleStore::new(PathBuf::from("/tmp/rkv"), &Vec::new()).unwrap()
}

fn indexes(es: &[&Entry<Vec<u64>>]) -> Vec<u64> {
    es.iter().map(|e| e.log_id.index).collect()
}

#[test]
fn log_state_of_empty_log() {
    let log: LogStore<Vec<u64>> = LogStore::new();
    assert_eq!(log.get_log_state(), (None, None));
}

#[test]
fn append_and_read_log() {
    let mut log: LogStore<Vec<u64>> = LogStore::new();
    log.append_to_log(vec![blank(1, 1), blank(1, 2), blank(2, 3)]);
    assert_eq!(log.get_log_state(), (None, Some(lid(2, 1, 3))));
    let es = log.try_get_log_entries(IndexBound::Included(2), IndexBound::Unbounded);
    assert_eq!(indexes(&es), vec![2, 3]);
    let es = log.try_get_log_entries(IndexBound::Unbounded, IndexBound::Excluded(3));
    assert_eq!(indexes(&es), vec![1, 2]);
    let es = log.try_get_log_entries(IndexBound::Excluded(1), IndexBound::Included(2));
    assert_eq!(indexes(&es), vec![2]);
    // a later entry with the same index replaces the earlier one
    log.append_to_log(vec![blank(3, 3), blank(4, 3)]);
    assert_eq!(log.get_log_state(), (None, Some(lid(4, 1, 3))));
}

#[test]
fn delete_conflicts_and_purge() {
    let mut log: LogStore<Vec<u64>> = LogStore::new();
    log.append_to_log(vec![blank(1, 1), blank(1, 2), blank(1, 3), blank(1, 4)]);
    log.delete_conflict_logs_since(lid(1, 1, 3));
    assert_eq!(log.get_log_state(), (None, Some(lid(1, 1, 2))));
    log.purge_logs_upto(lid(1, 1, 1));
    assert_eq!(log.get_log_state(), (Some(lid(1, 1, 1)), Some(lid(1, 1, 2))));
    log.purge_logs_upto(lid(1, 1, 2));
    assert_eq!(log.get_log_state(), (Some(lid(1, 1, 2)), Some(lid(1, 1, 2))));
    assert!(log.try_get_log_entries(IndexBound::Unbounded, IndexBound::Unbounded).is_empty());
}

#[test]
fn votes() {
    let mut log: LogStore<Vec<u64>> = LogStore::new();
    assert_eq!(log.read_vote(), None);
    let v = Vote { leader_id: LeaderId { term: 2, node_id: 3 }, committed: true };
    log.save_vote(&v);
    assert_eq!(log.read_vote(), Some(v));
}

#[test]
fn apply_entries_to_state_machine() {
    let mut st = new_store();
    let res = st.state_machine.apply(vec![
        blank(1, 1),
        set(2, "a", "1"),
        Entry { log_id: lid(1, 1, 3), payload: EntryPayload::Membership(vec![1, 2, 3]) },
        set(4, "a", "2"),
        set(5, "b", "3"),
    ]);
    let values: Vec<Option<String>> = res.into_iter().map(|r| r.value).collect();
    assert_eq!(values, vec![None, Some("1".to_string()), None, Some("2".to_string()), Some("3".to_string())]);
    assert_eq!(st.state_machine.last_applied_log, Some(lid(1, 1, 5)));
    assert_eq!(st.state_machine.last_membership.log_id, Some(lid(1, 1, 3)));
    assert_eq!(st.state_machine.last_membership.membership, vec![1, 2, 3]);
    assert_eq!(st.state_machine.data.get("a".to_string()).unwrap(), "2");
    assert_eq!(st.state_machine.data.get("b".to_string()).unwrap(), "3");
    let (applied, mem) = st.last_applied_state();
    assert_eq!(applied, Some(lid(1, 1, 5)));
    assert_eq!(mem.membership, vec![1, 2, 3]);
}

#[test]
fn snapshot_ids() {
    assert_eq!(snapshot_id(None, 1), "--1");
    assert_eq!(snapshot_id(Some(lid(3, 2, 17)), 4), "3-2-17-4");
}

#[test]
fn build_and_install_snapshot() {
    let mut st = new_store();
    st.state_machine.apply(vec![set(1, "k", "v")]);
    let (meta, data) = st.build_snapshot();
    // the snapshot holds the key/value pairs as stored records
    let mut expected = vec![0, 0, 0, 0, 0, 0, 0, 1, 0, 0, 0, 0, 0, 0, 0, 1];
    expected.extend_from_slice(b"kv");
    assert_eq!(data, expected);
    assert_eq!(meta.snapshot_id, "1-1-1-1");
    assert_eq!(meta.last_log_id, Some(lid(1, 1, 1)));
    let (meta2, _) = st.build_snapshot();
    assert_eq!(meta2.snapshot_id, "1-1-1-2");
    let (cur, cur_data) = st.get_current_snapshot().unwrap();
    assert_eq!(cur.snapshot_id, "1-1-1-2");
    assert_eq!(cur_data, data);
    let incoming = SnapshotMeta {
        last_log_id: Some(lid(5, 1, 9)),
        last_membership: StoredMembership { log_id: None, membership: vec![1] },
        snapshot_id: "x".to_string(),
    };
    assert_eq!(st.state_machine.data.get("k".to_string()).unwrap(), "v");
    st.install_snapshot(incoming, vec![42]);
    assert_eq!(st.state_machine.last_applied_log, None);
    // the state machine is replaced by an empty one
    assert_eq!(st.state_machine.data.get("k".to_string()).unwrap(), "");
    let (cur, cur_data) = st.get_current_snapshot().unwrap();
    assert_eq!(cur.snapshot_id, "x");
    assert_eq!(cur_data, vec![42]);
}

#[test]
fn responses() {
    let r = Response::Value("v".to_string());
    assert!(matches!(r, Response::Value(ref s) if s == "v"));
    assert!(matches!(Response::NotFound, Response::NotFound));
}

#[test]
fn can_apply_checks_offsets_and_ids() {
    let mut st = new_store();
    let es = vec![blank(1, 1), set(2, "a", "1"), set(3, "bb", "22")];
    assert!(st.state_machine.can_apply(&es));
    // the writes take 16 + 1 + 1 and 16 + 2 + 2 bytes
    st.state_machine.data.active_segment.write_offset = u64::MAX - 38;
    assert!(st.state_machine.can_apply(&es));
    st.state_machine.data.active_segment.write_offset = u64::MAX - 37;
    assert!(!st.state_machine.can_apply(&es));
    st.state_machine.data.active_segment.write_offset = 0;
    st.state_machine.data.active_segment.fileid = u32::MAX - 1;
    assert!(!st.state_machine.can_apply(&es));
    assert!(st.state_machine.can_apply(&vec![blank(1, 1), set(2, "a", "1")]));
}

#[test]
fn snapshot_data_follows_the_state_machine() {
    let mut a = new_store();
    a.state_machine.apply(vec![set(1, "b", "2"), set(2, "a", "1"), set(3, "b", "3")]);
    let (_, data_a) = a.build_snapshot();
    let mut expected = Vec::new();
    for (k, v) in [("a", "1"), ("b", "3")] {
        expected.extend_from_slice(&(k.len() as u64).to_be_bytes());
        expected.extend_from_slice(&(v.len() as u64).to_be_bytes());
        expected.extend_from_slice(k.as_bytes());
        expected.extend_from_slice(v.as_bytes());
    }
    assert_eq!(data_a, expected);
    let mut b = new_store();
    b.state_machine.apply(vec![set(1, "a", "9")]);
    let (_, data_b) = b.build_snapshot();
    assert_ne!(data_a, data_b);
    let (_, empty) = new_store().build_snapshot();
    assert_eq!(empty, Vec::<u8>::new());
}
