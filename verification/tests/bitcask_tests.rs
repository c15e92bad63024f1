use std::collections::HashMap;
use std::path::PathBuf;

use raftkv::bitcask::data::{Record, RecordPos};
use raftkv::bitcask::db::Engine;
use raftkv::bitcask::error::errors;
use raftkv::bitcask::fio::mem_store::MemStore;
use raftkv::bitcask::fio::{NewStore, Store};
use raftkv::bitcask::index::{Indexer, NewIndexer};
use raftkv::bitcask::naming::{parse_segment_file_name, segment_file_name, sort_ids};
use raftkv::bitcask::options::Options;
use raftkv::bitcask::segment::Semgent;

fn opts(max: u64) -> Options {
    Options { dir_path: PathBuf::from("/tmp/store"), max_segment_size: max, sync_write: true }
}

fn mem_engine(max: u64) -> Engine<MemStore> {
    Engine::<MemStore>::new(opts(max), &Vec::new()).unwrap()
}

#[test]
fn record_bytes_layout() {
    let r = Record { key: b"ab".to_vec(), value: b"xyz".to_vec() };
    let b = r.Bytes();
    assert_eq!(b.len(), 16 + 2 + 3);
    assert_eq!(&b[0..8], &[0, 0, 0, 0, 0, 0, 0, 2]);
    assert_eq!(&b[8..16], &[0, 0, 0, 0, 0, 0, 0, 3]);
    assert_eq!(&b[16..18], b"ab");
    assert_eq!(&b[18..21], b"xyz");
}

#[test]
fn record_round_trip() {
    let r = Record { key: b"key1".to_vec(), value: b"value1".to_vec() };
    let b = r.Bytes();
    let back = Record::from_bytes(&b);
    assert_eq!(back.key, r.key);
    assert_eq!(back.value, r.value);
}

#[test]
fn record_round_trip_empty_and_trailing_bytes() {
    let r = Record { key: Vec::new(), value: Vec::new() };
    let mut b = r.Bytes();
    assert_eq!(b.len(), 16);
    b.extend_from_slice(&[9, 9, 9]);
    let back = Record::from_bytes(&b);
    assert!(back.key.is_empty());
    assert!(back.value.is_empty());
}

#[test]
fn segment_names() {
    assert_eq!(segment_file_name(0), b"0.store".to_vec());
    assert_eq!(segment_file_name(42), b"42.store".to_vec());
    assert_eq!(segment_file_name(4294967295), b"4294967295.store".to_vec());
    assert_eq!(parse_segment_file_name(b"42.store"), Some(42));
    assert_eq!(parse_segment_file_name(b"7.store.store"), Some(7));
    assert_eq!(parse_segment_file_name(b"+12.store"), Some(12));
    assert_eq!(parse_segment_file_name(b"12"), Some(12));
    assert_eq!(parse_segment_file_name(b"x.store"), None);
    assert_eq!(parse_segment_file_name(b".store"), None);
    assert_eq!(parse_segment_file_name(b"+.store"), None);
    assert_eq!(parse_segment_file_name(b"-1.store"), None);
    assert_eq!(parse_segment_file_name(b"4294967296.store"), None);
    for fid in [0u32, 1, 9, 10, 99, 100, 12345, u32::MAX] {
        assert_eq!(parse_segment_file_name(&segment_file_name(fid)), Some(fid));
    }
}

#[test]
fn ids_are_sorted() {
    assert_eq!(sort_ids(&vec![3, 1, 2, 1]), vec![1, 1, 2, 3]);
    assert_eq!(sort_ids(&vec![]), Vec::<u32>::new());
}

#[test]
fn mem_store_reads_and_writes() {
    let mut s: MemStore = NewStore(PathBuf::from("/tmp"), "0.store".to_string()).unwrap();
    assert_eq!(s.dir, PathBuf::from("/tmp"));
    assert_eq!(s.name, "0.store");
    assert_eq!(s.Write(b"hello").unwrap(), 5);
    assert_eq!(s.Write(b" world").unwrap(), 6);
    let mut buf = [0u8; 4];
    assert_eq!(s.Read(&mut buf, 0).unwrap(), 4);
    assert_eq!(&buf, b"hell");
    let mut buf = [7u8; 4];
    assert_eq!(s.Read(&mut buf, 9).unwrap(), 2);
    assert_eq!(&buf, &[b'l', b'd', 7, 7]);
    assert_eq!(s.Read(&mut buf, 100).unwrap(), 0);
    assert!(s.Sync().is_ok());
}

#[test]
fn segment_append_and_read_record() {
    let mut seg: Semgent<MemStore> = Semgent::new(PathBuf::from("/tmp"), 3).unwrap();
    assert_eq!(seg.fileid, 3);
    // the segment's store is the file named after its id in the directory
    assert_eq!(seg.file.dir, PathBuf::from("/tmp"));
    assert_eq!(seg.file.name, "3.store");
    let r1 = Record { key: b"k1".to_vec(), value: b"v1".to_vec() }.Bytes();
    let r2 = Record { key: b"key2".to_vec(), value: b"value2".to_vec() }.Bytes();
    assert_eq!(seg.Append(&r1).unwrap(), 20);
    assert_eq!(seg.Append(&r2).unwrap(), 26);
    assert_eq!(seg.write_offset, 46);
    let a = seg.ReadRecord(0).unwrap();
    assert_eq!(a.record.key, b"k1".to_vec());
    assert_eq!(a.record.value, b"v1".to_vec());
    assert_eq!(a.size, 20);
    let b = seg.ReadRecord(20).unwrap();
    assert_eq!(b.record.key, b"key2".to_vec());
    assert_eq!(b.record.value, b"value2".to_vec());
    assert_eq!(b.size, 26);
    assert!(matches!(seg.ReadRecord(46), Err(errors::FailedToReadFromFile)));
    assert!(matches!(seg.ReadRecord(40), Err(errors::FailedToReadFromFile)));
    assert!(seg.Sync().is_ok());
}

#[test]
fn truncated_record_reads_zero_filled() {
    let mut bytes = Record { key: b"abc".to_vec(), value: b"defg".to_vec() }.Bytes();
    bytes.truncate(16 + 3 + 2);
    let seg = Semgent { fileid: 0, write_offset: 0, file: MemStore::from_bytes(bytes) };
    let r = seg.ReadRecord(0).unwrap();
    assert_eq!(r.record.key, b"abc".to_vec());
    assert_eq!(r.record.value, vec![b'd', b'e', 0, 0]);
    assert_eq!(r.size, 16 + 3 + 2);
}

#[test]
fn index_put_get_delete() {
    let mut idx = NewIndexer();
    let p1 = RecordPos { fid: 1, offset: 10 };
    let p2 = RecordPos { fid: 2, offset: 20 };
    assert!(idx.Put(b"b".to_vec(), p1));
    assert!(idx.Put(b"a".to_vec(), p2));
    assert!(idx.Put(b"ab".to_vec(), p2));
    assert!(!idx.Put(b"b".to_vec(), p2));
    assert_eq!(idx.Get(b"b".to_vec()), Some(p2));
    assert_eq!(idx.Get(b"a".to_vec()), Some(p2));
    assert_eq!(idx.Get(b"c".to_vec()), None);
    assert!(idx.Delete(b"a".to_vec()));
    assert!(!idx.Delete(b"a".to_vec()));
    assert_eq!(idx.Get(b"a".to_vec()), None);
    assert_eq!(idx.Get(b"ab".to_vec()), Some(p2));
}

#[test]
fn engine_append_then_get() {
    let mut eg = mem_engine(1 << 20);
    for i in 0..10 {
        eg.append(format!("key{}", i), format!("value{}", i)).unwrap();
    }
    for i in 0..10 {
        assert_eq!(eg.get(format!("key{}", i)).unwrap(), format!("value{}", i));
    }
    assert_eq!(eg.get("missing".to_string()).unwrap(), "");
}

#[test]
fn engine_overwrite_keeps_latest() {
    let mut eg = mem_engine(1 << 20);
    eg.append("k".to_string(), "one".to_string()).unwrap();
    eg.append("k".to_string(), "two".to_string()).unwrap();
    assert_eq!(eg.get("k".to_string()).unwrap(), "two");
}

#[test]
fn engine_rotates_segments() {
    // segments of 100 bytes: the records soon spill over into new segments
    let mut eg = mem_engine(100);
    for i in 0..10 {
        eg.append(format!("key{}", i), format!("value{}", i)).unwrap();
    }
    assert!(eg.active_segment.fileid >= 1);
    assert!(eg.old_segments.len() >= 1);
    for i in 0..10 {
        assert_eq!(eg.get(format!("key{}", i)).unwrap(), format!("value{}", i));
    }
}

#[test]
fn engine_new_orders_segments() {
    let names = vec![b"2.store".to_vec(), b"0.store".to_vec(), b"1.store".to_vec()];
    let eg = Engine::<MemStore>::new(opts(1000), &names).unwrap();
    assert_eq!(eg.fids, vec![0, 1, 2]);
    assert_eq!(eg.active_segment.fileid, 2);
    assert!(eg.old_segments.contains_key(&0));
    assert!(eg.old_segments.contains_key(&1));
    assert_eq!(eg.old_segments[&1].file.name, "1.store");
    assert_eq!(eg.active_segment.file.name, "2.store");
    assert_eq!(eg.active_segment.file.dir, PathBuf::from("/tmp/store"));
    let empty = Engine::<MemStore>::new(opts(1000), &Vec::new()).unwrap();
    assert!(empty.fids.is_empty());
    assert_eq!(empty.active_segment.fileid, 0);
    assert_eq!(empty.active_segment.write_offset, 0);
    assert_eq!(empty.active_segment.file.name, "0.store");
}

#[test]
fn init_index_rebuilds_from_segments() {
    let mut s0 = Vec::new();
    s0.extend(Record { key: b"a".to_vec(), value: b"1".to_vec() }.Bytes());
    s0.extend(Record { key: b"b".to_vec(), value: b"2".to_vec() }.Bytes());
    let mut s1 = Vec::new();
    s1.extend(Record { key: b"a".to_vec(), value: b"3".to_vec() }.Bytes());
    let len1 = s1.len() as u64;
    let mut old = HashMap::new();
    old.insert(0u32, Semgent { fileid: 0, write_offset: 0, file: MemStore::from_bytes(s0) });
    let mut eg = Engine {
        ops: opts(1 << 20),
        active_segment: Semgent { fileid: 1, write_offset: 0, file: MemStore::from_bytes(s1) },
        old_segments: old,
        index: NewIndexer(),
        fids: vec![0, 1],
    };
    eg.init_index().unwrap();
    assert_eq!(eg.active_segment.write_offset, len1);
    assert_eq!(eg.get("a".to_string()).unwrap(), "3");
    assert_eq!(eg.get("b".to_string()).unwrap(), "2");
    eg.append("b".to_string(), "4".to_string()).unwrap();
    assert_eq!(eg.get("b".to_string()).unwrap(), "4");
}

#[test]
fn default_engine_is_empty() {
    let eg: Engine<MemStore> = Engine::default();
    assert_eq!(eg.active_segment.fileid, 0);
    assert!(eg.fids.is_empty());
    assert_eq!(eg.get("x".to_string()).unwrap(), "");
}

#[test]
fn engine_get_bytes() {
    let mut eg = mem_engine(1 << 20);
    eg.append("k".to_string(), "vé".to_string()).unwrap();
    assert_eq!(eg.get_bytes(b"k".to_vec()), "vé".as_bytes().to_vec());
    assert_eq!(eg.get_bytes(b"other".to_vec()), Vec::<u8>::new());
}

#[test]
fn engine_can_store() {
    let eg = mem_engine(100);
    assert!(eg.can_store(&"key".to_string(), &"value".to_string()));
    // a record larger than a segment still fits: it opens a new segment
    assert!(eg.can_store(&"key".to_string(), &"v".repeat(200)));
    let mut full = mem_engine(10);
    full.active_segment.write_offset = u64::MAX - 20;
    assert!(!full.can_store(&"key".to_string(), &"value".to_string()));
    full.active_segment.write_offset = 0;
    full.active_segment.fileid = u32::MAX;
    assert!(!full.can_store(&"key".to_string(), &"value".to_string()));
    assert!(full.can_store(&String::new(), &String::new()) == false);
}
