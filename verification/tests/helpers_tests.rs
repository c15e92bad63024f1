use raftkv::bitcask::data::{append_bytes, copy_range, push_be_u64, read_be_u64};
use raftkv::bitcask::index::order::compare_keys;
use raftkv::bitcask::naming::push_decimal;
use raftkv::store::log_store::{reversed, LogStore};
use raftkv::store::types::{
    in_range_exec, opt_log_id_le_exec, Entry, EntryPayload, IndexBound, LeaderId, LogId,
};

fn lid(term: u64, node: u64, index: u64) -> LogId {
    LogId { leader_id: LeaderId { term, node_id: node }, index }
}

#[test]
fn big_endian_numbers() {
    let mut out = vec![9u8];
    push_be_u64(&mut out, 0x0102030405060708);
    assert_eq!(out, vec![9, 1, 2, 3, 4, 5, 6, 7, 8]);
    assert_eq!(read_be_u64(&out, 1), 0x0102030405060708);
    let mut max = Vec::new();
    push_be_u64(&mut max, u64::MAX);
    assert_eq!(max, vec![0xff; 8]);
    assert_eq!(read_be_u64(&max, 0), u64::MAX);
}

#[test]
fn byte_copies() {
    let mut out = b"ab".to_vec();
    append_bytes(&mut out, b"cd");
    assert_eq!(out, b"abcd".to_vec());
    assert_eq!(copy_range(b"hello", 1, 4), b"ell".to_vec());
    assert_eq!(copy_range(b"hello", 2, 2), Vec::<u8>::new());
}

#[test]
fn key_order() {
    assert!(compare_keys(b"a", b"b") < 0);
    assert!(compare_keys(b"b", b"a") > 0);
    assert_eq!(compare_keys(b"abc", b"abc"), 0);
    // a proper prefix comes first
    assert!(compare_keys(b"ab", b"abc") < 0);
    assert!(compare_keys(b"", b"a") < 0);
    assert!(compare_keys(b"b", b"abc") > 0);
}

#[test]
fn decimal_digits() {
    let mut out = Vec::new();
    push_decimal(&mut out, 0);
    push_decimal(&mut out, 4294967295);
    assert_eq!(out, b"04294967295".to_vec());
}

#[test]
fn reversing() {
    assert_eq!(reversed(vec![1, 2, 3]), vec![3, 2, 1]);
    assert_eq!(reversed(Vec::<u8>::new()), Vec::<u8>::new());
}

#[test]
fn index_ranges() {
    assert!(in_range_exec(5, IndexBound::Included(5), IndexBound::Excluded(6)));
    assert!(!in_range_exec(5, IndexBound::Excluded(5), IndexBound::Unbounded));
    assert!(!in_range_exec(6, IndexBound::Unbounded, IndexBound::Excluded(6)));
    assert!(in_range_exec(6, IndexBound::Unbounded, IndexBound::Included(6)));
}

#[test]
fn log_id_order() {
    assert!(opt_log_id_le_exec(&None, &None));
    assert!(opt_log_id_le_exec(&None, &Some(lid(1, 1, 1))));
    assert!(!opt_log_id_le_exec(&Some(lid(1, 1, 1)), &None));
    assert!(opt_log_id_le_exec(&Some(lid(1, 1, 1)), &Some(lid(1, 1, 2))));
    assert!(opt_log_id_le_exec(&Some(lid(1, 2, 9)), &Some(lid(2, 1, 0))));
    assert!(!opt_log_id_le_exec(&Some(lid(1, 2, 0)), &Some(lid(1, 1, 9))));
}

#[test]
fn log_keys_in_order() {
    let mut log: LogStore<Vec<u64>> = LogStore::new();
    let es = [7u64, 3, 5]
        .iter()
        .map(|i| Entry { log_id: lid(1, 1, *i), payload: EntryPayload::Blank })
        .collect();
    log.append_to_log(es);
    assert_eq!(log.log_keys(), vec![3, 5, 7]);
}
