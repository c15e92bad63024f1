//! The storage engine: an active segment that records are appended to,
//! older segments that are only read, and an index from each key to the
//! position of its latest record.
use std::collections::HashMap;
use vstd::prelude::*;
use vstd::utf8::{encode_utf8, valid_utf8};
use crate::bitcask::data::{encode_record, from_be, decoded_key, lemma_decode_encode, Record, RecordPos};
use crate::bitcask::error::{errors, Result};
use crate::bitcask::fio::{Store, extends};
use crate::bitcask::index::{Indexer, NewIndexer};
use crate::bitcask::index::btree::Btree;
use crate::bitcask::options::Options;
use crate::bitcask::segment::{Semgent, read_record_at, complete_at, lemma_read_complete};
use crate::bitcask::sys::{string_bytes, string_from_utf8};
use crate::bitcask::recovery::{chain_ok, encode_all, records_fit, lemma_scan_encode_all};
use crate::bitcask::naming::{segment_id_of, parse_segment_file_name, sort_ids, sorted_ids};

verus! {

broadcast use vstd::std_specs::hash::group_hash_axioms;

/// Whether a whole record whose lengths fit this machine starts at `off` in `c`.
pub open spec fn record_fits(c: Seq<u8>, off: int) -> bool {
    &&& complete_at(c, off)
    &&& from_be(c, off) <= usize::MAX
    &&& from_be(c, off + 8) <= usize::MAX
}

/// The segment ids named by `names`.
pub open spec fn parsed_ids(names: Seq<Vec<u8>>) -> Seq<u32> {
    Seq::new(names.len(), |i: int| segment_id_of(names[i]@)->0)
}

/// The records read one after another from offset `off` of `c`, each with
/// the offset it was read at, up to the first offset where no record can be
/// read.
pub open spec fn scan(c: Seq<u8>, off: int) -> Seq<(Seq<u8>, int)>
    decreases c.len() - off,
{
    if off < 0 {
        Seq::empty()
    } else {
        match read_record_at(c, off) {
            Some(rec) => if rec.2 > 0 && off + rec.2 <= c.len() {
                seq![(rec.0, off)] + scan(c, off + rec.2)
            } else {
                Seq::empty()
            },
            None => Seq::empty(),
        }
    }
}

/// The offset where reading records one after another from `off` stops.
pub open spec fn scan_end(c: Seq<u8>, off: int) -> int
    decreases c.len() - off,
{
    if off < 0 {
        off
    } else {
        match read_record_at(c, off) {
            Some(rec) => if rec.2 > 0 && off + rec.2 <= c.len() {
                scan_end(c, off + rec.2)
            } else {
                off
            },
            None => off,
        }
    }
}

/// `m` after each record of `s`, in order, was indexed at its offset in segment `fid`.
pub open spec fn put_all(m: Map<Seq<u8>, RecordPos>, fid: u32, s: Seq<(Seq<u8>, int)>) -> Map<Seq<u8>, RecordPos>
    decreases s.len(),
{
    if s.len() == 0 {
        m
    } else {
        put_all(m, fid, s.drop_last()).insert(s.last().0, RecordPos { fid, offset: s.last().1 as u64 })
    }
}

/// Reading records one after another from `off` of bytes that read as
/// whole records from there stops exactly at their end.
pub proof fn lemma_scan_end_whole(c: Seq<u8>, off: int)
    requires
        chain_ok(c, off),
    ensures
        scan_end(c, off) == c.len(),
    decreases c.len() - off,
{
    if off < c.len() {
        let rec = read_record_at(c, off)->0;
        lemma_scan_end_whole(c, off + rec.2);
    }
}

/// Records stored one after another are read back up to the end of their
/// bytes, so reopening a segment made of them puts its write offset at its end.
pub proof fn lemma_scan_end_encode_all(rs: Seq<(Seq<u8>, Seq<u8>)>)
    requires
        records_fit(rs),
    ensures
        scan_end(encode_all(rs), 0) == encode_all(rs).len(),
{
    lemma_scan_encode_all(rs);
    lemma_scan_end_whole(encode_all(rs), 0);
}

/// The storage engine over segments kept in stores of type `S`.
pub struct Engine<S> {
    pub ops: Options,
    pub active_segment: Semgent<S>,
    pub old_segments: HashMap<u32, Semgent<S>>,
    pub index: Btree,
    pub fids: Vec<u32>,
}

impl<S: Store> Engine<S> {
    /// The bytes of segment `fid`, if the engine has it. The active segment
    /// answers for its id before any older segment does.
    pub open spec fn segment_contents(&self, fid: u32) -> Option<Seq<u8>> {
        if fid == self.active_segment.fileid {
            Some(self.active_segment.contents())
        } else if self.old_segments@.contains_key(fid) {
            Some(self.old_segments@[fid].contents())
        } else {
            None
        }
    }

    /// The value read at `pos`, or the empty value when nothing can be read there.
    pub open spec fn value_at(&self, pos: RecordPos) -> Seq<u8> {
        match self.segment_contents(pos.fid) {
            Some(c) => match read_record_at(c, pos.offset as int) {
                Some(rec) => rec.1,
                None => Seq::empty(),
            },
            None => Seq::empty(),
        }
    }

    /// What a lookup of `key` yields: the value of its latest record, or the
    /// empty value when the key is unknown.
    pub open spec fn lookup(&self, key: Seq<u8>) -> Seq<u8> {
        if self.index@.contains_key(key) {
            self.value_at(self.index@[key])
        } else {
            Seq::empty()
        }
    }

    /// The key/value contents of the engine.
    pub open spec fn kv(&self) -> Map<Seq<u8>, Seq<u8>> {
        Map::new(|k: Seq<u8>| self.index@.contains_key(k), |k: Seq<u8>| self.lookup(k))
    }

    /// The engine is consistent: the active segment's write offset is its
    /// end, and every key of the index points, in a segment the engine
    /// holds and no later than the active one, at a whole record of that key.
    pub open spec fn wf(&self) -> bool {
        &&& self.active_segment.write_offset == self.active_segment.contents().len()
        &&& forall|k: Seq<u8>| #[trigger] self.index@.contains_key(k) ==> {
            let p = self.index@[k];
            &&& p.fid <= self.active_segment.fileid
            &&& self.segment_contents(p.fid) matches Some(c) && {
                &&& record_fits(c, p.offset as int)
                &&& decoded_key(c.subrange(p.offset as int, c.len() as int)) == k
            }
        }
    }

    /// Whether a record of `len` bytes goes to a new segment.
    pub open spec fn needs_new_segment(&self, len: int) -> bool {
        self.active_segment.write_offset + len > self.ops.max_segment_size
    }

    /// Whether a record of `len` bytes can be appended without an offset or a
    /// segment id going past what its integer type holds.
    pub open spec fn can_append(&self, len: int) -> bool {
        &&& self.active_segment.write_offset + len <= u64::MAX
        &&& self.needs_new_segment(len) ==> self.active_segment.fileid < u32::MAX
    }

    /// Makes a new segment with id `fid` (its file inside `dir_path`) the
    /// active one; the segment that was active joins the older ones.
    #[allow(non_snake_case)]
    pub fn new_segmnet(&mut self, dir_path: std::path::PathBuf, fid: u32) -> (r: Result<()>)
        ensures
            final(self).ops == old(self).ops,
            final(self).index@ == old(self).index@,
            final(self).fids@ == old(self).fids@,
            match r {
                Ok(_) => {
                    &&& final(self).active_segment.fileid == fid
                    &&& final(self).active_segment.write_offset == 0
                    &&& final(self).active_segment.stored_in(dir_path)
                    &&& S::opens_empty() ==> final(self).active_segment.contents().len() == 0
                    &&& final(self).old_segments@ == old(self).old_segments@.insert(
                        old(self).active_segment.fileid,
                        old(self).active_segment,
                    )
                },
                Err(e) => {
                    &&& !S::infallible()
                    &&& e is FialedToOpenFile
                    &&& final(self).active_segment == old(self).active_segment
                    &&& final(self).old_segments@ == old(self).old_segments@
                },
            },
    {
        let mut seg = Semgent::<S>::new(dir_path, fid)?;
        std::mem::swap(&mut self.active_segment, &mut seg);
        let active_fid = seg.fileid;
        self.old_segments.insert(active_fid, seg);
        Ok(())
    }

    /// A whole record kept at `(fid, off)` is read the same after this
    /// engine became `e2`, as long as the bytes of segment `fid` were only
    /// extended.
    proof fn lemma_record_kept(&self, e2: &Self, fid: u32, off: int)
        requires
            self.segment_contents(fid) matches Some(c) && record_fits(c, off),
            e2.segment_contents(fid) matches Some(c2) && self.segment_contents(fid) matches Some(c) && (
            c2.len() >= c.len() && c2.subrange(0, c.len() as int) == c),
        ensures
            e2.segment_contents(fid) matches Some(c2) && {
                &&& record_fits(c2, off)
                &&& read_record_at(c2, off) == read_record_at(self.segment_contents(fid)->0, off)
                &&& decoded_key(c2.subrange(off, c2.len() as int)) == decoded_key(
                    self.segment_contents(fid)->0.subrange(off, self.segment_contents(fid)->0.len() as int),
                )
            },
    {
        let c = self.segment_contents(fid)->0;
        let c2 = e2.segment_contents(fid)->0;
        let extra = c2.subrange(c.len() as int, c2.len() as int);
        assert(c2 =~= c + extra);
        lemma_read_complete(c, off, extra);
        let s = c.subrange(off, c.len() as int);
        assert(c2.subrange(off, c2.len() as int) =~= s + extra);
        crate::bitcask::data::lemma_decode_prefix(s, extra);
        assert(from_be(c2, off) == from_be(c, off));
        assert(from_be(c2, off + 8) == from_be(c, off + 8));
    }

    /// A consistent engine keeps its key/value pairs when the index stays and
    /// the bytes of the segments it points into are only added to.
    proof fn lemma_kv_kept(&self, e1: &Self)
        requires
            self.wf(),
            e1.index@ == self.index@,
            forall|f: u32| f <= self.active_segment.fileid && (#[trigger] self.segment_contents(f)) is Some ==> (
            e1.segment_contents(f) matches Some(c2) && extends(self.segment_contents(f)->0, c2)),
        ensures
            e1.kv() == self.kv(),
    {
        assert forall|k: Seq<u8>| #[trigger] e1.kv().contains_key(k) implies e1.kv()[k] == self.kv()[k] by {
            let p = self.index@[k];
            assert(self.segment_contents(p.fid) is Some);
            self.lemma_record_kept(e1, p.fid, p.offset as int);
        }
        assert(e1.kv() =~= self.kv());
    }

    /// Appends `record` to the active segment, first moving to a new
    /// segment (id one more than the active one) when the record would take
    /// the active segment past `max_segment_size`. Returns where the record
    /// was written.
    pub fn append_record(&mut self, record: &Record) -> (r: Result<RecordPos>)
        requires
            old(self).can_append(encode_record(record.key@, record.value@).len() as int),
        ensures
            final(self).ops == old(self).ops,
            final(self).index@ == old(self).index@,
            final(self).fids@ == old(self).fids@,
            S::infallible() ==> r is Ok,
            r matches Err(e) ==> !S::infallible() && (e is FialedToOpenFile || e is FailedToWriteFromFile),
            r matches Err(e) && e is FialedToOpenFile ==> final(self).active_segment == old(self).active_segment
                && final(self).old_segments@ == old(self).old_segments@,
            r matches Err(e) && e is FailedToWriteFromFile ==> {
                let rotated = old(self).needs_new_segment(encode_record(record.key@, record.value@).len() as int);
                &&& !rotated ==> {
                    &&& final(self).active_segment.fileid == old(self).active_segment.fileid
                    &&& extends(old(self).active_segment.contents(), final(self).active_segment.contents())
                    &&& final(self).old_segments@ == old(self).old_segments@
                }
                &&& rotated ==> {
                    &&& final(self).active_segment.fileid == old(self).active_segment.fileid + 1
                    &&& final(self).old_segments@ == old(self).old_segments@.insert(
                        old(self).active_segment.fileid,
                        old(self).active_segment,
                    )
                }
            },
            final(self).active_segment.write_offset <= old(self).active_segment.write_offset
                + encode_record(record.key@, record.value@).len(),
            final(self).active_segment.fileid <= old(self).active_segment.fileid + 1,
            old(self).active_segment.write_offset + encode_record(record.key@, record.value@).len()
                <= old(self).ops.max_segment_size ==> {
                &&& final(self).active_segment.fileid == old(self).active_segment.fileid
                &&& r matches Ok(pos) ==> pos.fid == old(self).active_segment.fileid && pos.offset
                    == old(self).active_segment.write_offset
            },
            old(self).active_segment.write_offset + encode_record(record.key@, record.value@).len()
                > old(self).ops.max_segment_size ==> (r matches Ok(pos) ==> pos.fid == old(self).active_segment.fileid
                + 1 && pos.offset == 0),
            r matches Ok(pos) ==> {
                let bytes = encode_record(record.key@, record.value@);
                let rotated = old(self).needs_new_segment(bytes.len() as int);
                let c = final(self).active_segment.contents();
                &&& pos.fid == final(self).active_segment.fileid
                &&& pos.fid == (if rotated { (old(self).active_segment.fileid + 1) as u32 } else { old(self).active_segment.fileid })
                &&& pos.offset == (if rotated { 0 } else { old(self).active_segment.write_offset })
                &&& final(self).active_segment.write_offset == pos.offset + bytes.len()
                &&& c.len() >= bytes.len()
                &&& c.subrange(c.len() - bytes.len(), c.len() as int) == bytes
                &&& !rotated ==> c == old(self).active_segment.contents() + bytes
                &&& !rotated ==> final(self).old_segments@ == old(self).old_segments@
                &&& rotated ==> final(self).old_segments@ == old(self).old_segments@.insert(
                    old(self).active_segment.fileid,
                    old(self).active_segment,
                )
                &&& rotated && S::opens_empty() ==> c == bytes
                &&& old(self).active_segment.write_offset <= old(self).ops.max_segment_size && bytes.len()
                    <= old(self).ops.max_segment_size ==> final(self).active_segment.write_offset
                    <= final(self).ops.max_segment_size
            },
    {
        let active_segment_init_fid = self.active_segment.fileid;
        let active_segment_init_write_offset = self.active_segment.write_offset;
        let bytes = record.Bytes();
        if active_segment_init_write_offset + bytes.len() as u64 > self.ops.max_segment_size {
            let dir = self.ops.dir_path.clone();
            self.new_segmnet(dir, active_segment_init_fid + 1)?;
        }
        let ghost before = self.active_segment.contents();
        let size = self.active_segment.Append(bytes.as_slice())?;
        proof {
            let c = self.active_segment.contents();
            assert(c.subrange(c.len() - bytes@.len(), c.len() as int) =~= bytes@);
            if S::opens_empty() && old(self).needs_new_segment(bytes@.len() as int) {
                assert(before.len() == 0);
                assert(c =~= bytes@);
            }
        }
        let recordpos = RecordPos {
            fid: self.active_segment.fileid,
            offset: self.active_segment.write_offset - size,
        };
        Ok(recordpos)
    }

    /// Whether `append` may store `value` under `key`: the record fits
    /// before the write offset runs out, and a new segment, if one is
    /// needed, still gets an id.
    pub fn can_store(&self, key: &String, value: &String) -> (r: bool)
        ensures
            r == self.can_append(encode_record(encode_utf8(key@), encode_utf8(value@)).len() as int),
            ({
                let end = self.active_segment.write_offset + encode_record(encode_utf8(key@), encode_utf8(value@)).len();
                r == (end <= u64::MAX && (end > self.ops.max_segment_size ==> self.active_segment.fileid < u32::MAX))
            }),
    {
        let kl = key.as_str().as_bytes().len();
        let vl = value.as_str().as_bytes().len();
        let len: u128 = 16u128 + kl as u128 + vl as u128;
        proof {
            assert(encode_record(encode_utf8(key@), encode_utf8(value@)).len() == len);
        }
        let end: u128 = self.active_segment.write_offset as u128 + len;
        if end > 18446744073709551615u128 {
            return false;
        }
        if end > self.ops.max_segment_size as u128 {
            self.active_segment.fileid < 4294967295u32
        } else {
            true
        }
    }

    /// Stores `value` under `key`. When the engine was consistent and the
    /// record went to the active segment, or to a new segment that held
    /// nothing before it (as with stores that open empty), the engine stays consistent and now maps `key` to
    /// `value`.
    pub fn append(&mut self, key: String, value: String) -> (r: Result<()>)
        requires
            old(self).can_append(encode_record(encode_utf8(key@), encode_utf8(value@)).len() as int),
        ensures
            final(self).ops == old(self).ops,
            final(self).fids@ == old(self).fids@,
            final(self).active_segment.write_offset <= old(self).active_segment.write_offset
                + encode_record(encode_utf8(key@), encode_utf8(value@)).len(),
            final(self).active_segment.fileid <= old(self).active_segment.fileid + 1,
            old(self).active_segment.write_offset + encode_record(encode_utf8(key@), encode_utf8(value@)).len()
                <= old(self).ops.max_segment_size ==> {
                &&& final(self).active_segment.fileid == old(self).active_segment.fileid
                &&& r is Ok ==> final(self).active_segment.write_offset == old(self).active_segment.write_offset
                    + encode_record(encode_utf8(key@), encode_utf8(value@)).len()
            },
            S::infallible() ==> r is Ok,
            r matches Err(e) ==> {
                &&& !S::infallible()
                &&& e is FialedToOpenFile || e is FailedToWriteFromFile
                &&& final(self).index@ == old(self).index@
                &&& e is FialedToOpenFile || old(self).wf() ==> final(self).kv() == old(self).kv()
            },
            r is Ok && old(self).wf() && (S::opens_empty() || !old(self).needs_new_segment(
                encode_record(encode_utf8(key@), encode_utf8(value@)).len() as int,
            ) || final(self).active_segment.contents().len() == encode_record(
                encode_utf8(key@),
                encode_utf8(value@),
            ).len()) ==> {
                &&& final(self).wf()
                &&& final(self).kv() == old(self).kv().insert(encode_utf8(key@), encode_utf8(value@))
            },
    {
        let record = Record { key: string_bytes(&key), value: string_bytes(&value) };
        let klen = record.key.len();
        let vlen = record.value.len();
        let recordpos = match self.append_record(&record) {
            Ok(pos) => pos,
            Err(e) => {
                proof {
                    if old(self).wf() {
                        let e0 = *old(self);
                        assert forall|f: u32| f <= e0.active_segment.fileid && (#[trigger] e0.segment_contents(f)) is Some implies (
                        self.segment_contents(f) matches Some(c2) && extends(e0.segment_contents(f)->0, c2)) by {
                            let c0 = e0.segment_contents(f)->0;
                            assert(c0.subrange(0, c0.len() as int) =~= c0);
                        }
                        e0.lemma_kv_kept(self);
                    }
                }
                return Err(e);
            },
        };
        let ghost mid = *self;
        let ghost kb = record.key@;
        let ghost vb = record.value@;
        self.index.Put(record.key, recordpos);
        proof {
            let len = encode_record(kb, vb).len() as int;
            if old(self).wf() && (S::opens_empty() || !old(self).needs_new_segment(len)
                || mid.active_segment.contents().len() == len) {
                if old(self).needs_new_segment(len) {
                    let c = mid.active_segment.contents();
                    assert(c =~= c.subrange(c.len() - len, c.len() as int));
                }
                self.lemma_append_keeps_wf(old(self), &mid, kb, vb, recordpos);
            }
        }
        Ok(())
    }

    /// How appending the record `(kb, vb)` at `pos` turned `e0` into `mid`
    /// (before the index was updated), in the cases where the engine stays
    /// consistent.
    pub open spec fn append_effect(e0: &Self, mid: &Self, kb: Seq<u8>, vb: Seq<u8>, pos: RecordPos) -> bool {
        let bytes = encode_record(kb, vb);
        let rotated = e0.needs_new_segment(bytes.len() as int);
        let c = mid.active_segment.contents();
        &&& kb.len() <= usize::MAX
        &&& vb.len() <= usize::MAX
        &&& e0.active_segment.fileid + 1 <= u32::MAX || !rotated
        &&& mid.index@ == e0.index@
        &&& pos.fid == mid.active_segment.fileid
        &&& pos.fid == (if rotated { (e0.active_segment.fileid + 1) as u32 } else { e0.active_segment.fileid })
        &&& pos.offset == (if rotated { 0 } else { e0.active_segment.write_offset })
        &&& mid.active_segment.write_offset == pos.offset + bytes.len()
        &&& !rotated ==> c == e0.active_segment.contents() + bytes
        &&& !rotated ==> mid.old_segments@ == e0.old_segments@
        &&& rotated ==> mid.old_segments@ == e0.old_segments@.insert(
            e0.active_segment.fileid,
            e0.active_segment,
        )
        &&& rotated ==> c == bytes
    }

    proof fn lemma_old_record_kept(&self, e0: &Self, mid: &Self, kb: Seq<u8>, vb: Seq<u8>, pos: RecordPos, k: Seq<u8>)
        requires
            e0.wf(),
            Self::append_effect(e0, mid, kb, vb, pos),
            self.active_segment == mid.active_segment,
            self.old_segments@ == mid.old_segments@,
            e0.index@.contains_key(k),
        ensures
            ({
                let p = e0.index@[k];
                &&& p.fid <= self.active_segment.fileid
                &&& self.segment_contents(p.fid) matches Some(c2) && {
                    &&& record_fits(c2, p.offset as int)
                    &&& decoded_key(c2.subrange(p.offset as int, c2.len() as int)) == k
                }
                &&& self.value_at(p) == e0.value_at(p)
            }),
    {
        let bytes = encode_record(kb, vb);
        let rotated = e0.needs_new_segment(bytes.len() as int);
        let c = self.active_segment.contents();
        let p = e0.index@[k];
        let c0 = e0.segment_contents(p.fid)->0;
        if rotated {
            if p.fid == e0.active_segment.fileid {
                assert(self.segment_contents(p.fid) == Some(c0));
            } else {
                assert(self.old_segments@[p.fid] == e0.old_segments@[p.fid]);
                assert(self.segment_contents(p.fid) == Some(c0));
            }
            assert(c0.subrange(0, c0.len() as int) =~= c0);
        } else {
            if p.fid == e0.active_segment.fileid {
                assert(c.subrange(0, c0.len() as int) =~= c0);
            } else {
                assert(self.segment_contents(p.fid) == Some(c0));
                assert(c0.subrange(0, c0.len() as int) =~= c0);
            }
        }
        e0.lemma_record_kept(self, p.fid, p.offset as int);
    }

    proof fn lemma_new_record(&self, e0: &Self, mid: &Self, kb: Seq<u8>, vb: Seq<u8>, pos: RecordPos)
        requires
            e0.wf(),
            Self::append_effect(e0, mid, kb, vb, pos),
            self.active_segment == mid.active_segment,
        ensures
            self.segment_contents(pos.fid) matches Some(c) && {
                &&& record_fits(c, pos.offset as int)
                &&& decoded_key(c.subrange(pos.offset as int, c.len() as int)) == kb
            },
            self.value_at(pos) == vb,
            self.active_segment.write_offset == self.active_segment.contents().len(),
    {
        let bytes = encode_record(kb, vb);
        let rotated = e0.needs_new_segment(bytes.len() as int);
        let c = self.active_segment.contents();
        lemma_decode_encode(kb, vb);
        assert(c.subrange(pos.offset as int, c.len() as int) =~= bytes) by {
            if !rotated {
                assert(pos.offset == e0.active_segment.contents().len());
            }
        }
        assert(from_be(c, pos.offset as int) == kb.len()) by {
            assert(from_be(bytes, 0) == from_be(c, pos.offset as int));
        }
        assert(from_be(c, pos.offset + 8) == vb.len()) by {
            assert(from_be(bytes, 8) == from_be(c, pos.offset + 8));
        }
        assert(record_fits(c, pos.offset as int));
        assert(self.segment_contents(pos.fid) == Some(c));
        lemma_read_complete(c, pos.offset as int, Seq::empty());
    }

    proof fn lemma_append_keeps_wf(&self, e0: &Self, mid: &Self, kb: Seq<u8>, vb: Seq<u8>, pos: RecordPos)
        requires
            e0.wf(),
            Self::append_effect(e0, mid, kb, vb, pos),
            self.index@ == mid.index@.insert(kb, pos),
            self.active_segment == mid.active_segment,
            self.old_segments@ == mid.old_segments@,
        ensures
            self.wf(),
            self.kv() == e0.kv().insert(kb, vb),
    {
        self.lemma_new_record(e0, mid, kb, vb, pos);
        assert forall|k: Seq<u8>| #[trigger] self.index@.contains_key(k) implies {
            let p = self.index@[k];
            &&& p.fid <= self.active_segment.fileid
            &&& self.segment_contents(p.fid) matches Some(c) && {
                &&& record_fits(c, p.offset as int)
                &&& decoded_key(c.subrange(p.offset as int, c.len() as int)) == k
            }
        } by {
            if k != kb {
                self.lemma_old_record_kept(e0, mid, kb, vb, pos, k);
            }
        }
        assert forall|k: Seq<u8>| #[trigger] self.kv().contains_key(k) implies self.kv()[k] == e0.kv().insert(kb, vb)[k] by {
            if k != kb {
                self.lemma_old_record_kept(e0, mid, kb, vb, pos, k);
            }
        }
        assert(self.kv() =~= e0.kv().insert(kb, vb));
    }

    /// The bytes of the value stored under `key`; empty when the key is
    /// unknown or its record cannot be read.
    pub fn get_bytes(&self, key: Vec<u8>) -> (r: Vec<u8>)
        ensures
            r@ == self.lookup(key@) || (!S::infallible() && r@ == Seq::<u8>::empty()),
            S::infallible() ==> r@ == self.lookup(key@),
    {
        let ghost k = key@;
        let recordpos = self.index.Get(key);
        let recordpos = match recordpos {
            None => {
                return Vec::new();
            },
            Some(p) => p,
        };
        let res = if recordpos.fid == self.active_segment.fileid {
            self.active_segment.ReadRecord(recordpos.offset)
        } else {
            match self.old_segments.get(&recordpos.fid) {
                None => {
                    return Vec::new();
                },
                Some(old_segment) => old_segment.ReadRecord(recordpos.offset),
            }
        };
        match res {
            Err(_) => Vec::new(),
            Ok(res) => {
                assert(res.record.value@ == self.lookup(k));
                res.record.value
            },
        }
    }

    /// The value stored under `key`; the empty string when the key is
    /// unknown or its record cannot be read. The value must be UTF-8 text;
    /// on a store that can fail, what is read back is only known after the
    /// read, and bytes that are not UTF-8 give the empty string.
    pub fn get(&self, key: String) -> (r: Result<String>)
        requires
            S::infallible() ==> valid_utf8(self.lookup(encode_utf8(key@))),
        ensures
            r matches Ok(s) && {
                ||| encode_utf8(s@) == self.lookup(encode_utf8(key@))
                ||| !S::infallible() && s@ == Seq::<char>::empty()
            },
            S::infallible() ==> (r matches Ok(s) && encode_utf8(s@) == self.lookup(encode_utf8(key@))),
    {
        let kb = string_bytes(&key);
        let value = self.get_bytes(kb);
        let empty = String::new();
        proof {
            assert(encode_utf8(empty@) =~= Seq::<u8>::empty()) by {
                assert(empty@ =~= Seq::<char>::empty());
            }
        }
        if value.len() == 0 {
            return Ok(empty);
        }
        match string_from_utf8(value) {
            Some(sv) => Ok(sv),
            None => Ok(empty),
        }
    }

    /// Segment `fid` is there, kept in the file named after it inside the
    /// engine's directory (and empty, for stores that open empty).
    pub open spec fn segment_ready(&self, fid: u32) -> bool {
        &&& if fid == self.active_segment.fileid {
            self.active_segment.stored_in(self.ops.dir_path)
        } else {
            self.old_segments@.contains_key(fid) && self.old_segments@[fid].stored_in(self.ops.dir_path)
        }
        &&& S::opens_empty() ==> (self.segment_contents(fid) matches Some(c) && c.len() == 0)
    }

    /// Each of `fids` has a segment, kept in the file named after it inside
    /// the engine's directory.
    pub open spec fn holds_segments(&self, fids: Seq<u32>) -> bool {
        forall|j: int| 0 <= j < fids.len() ==> #[trigger] self.segment_ready(fids[j])
    }

    /// Opens a segment for each file name (its id read from the name), in
    /// increasing id order, so that the one with the highest id ends up
    /// active; with no files, opens segment 0.
    pub fn init_segment(&mut self, file_names: &Vec<Vec<u8>>) -> (r: Result<()>)
        requires
            forall|i: int| 0 <= i < file_names@.len() ==> (#[trigger] segment_id_of(file_names@[i]@)) is Some,
        ensures
            final(self).ops == old(self).ops,
            final(self).index@ == old(self).index@,
            S::infallible() ==> r is Ok,
            r matches Err(e) ==> !S::infallible() && e is FialedToOpenFile,
            r is Ok ==> {
                &&& sorted_ids(final(self).fids@)
                &&& final(self).fids@.len() == file_names@.len()
                &&& final(self).fids@.to_multiset() == parsed_ids(file_names@).to_multiset()
                &&& final(self).active_segment.fileid == (if final(self).fids@.len() == 0 {
                    0
                } else {
                    final(self).fids@.last()
                })
                &&& final(self).active_segment.write_offset == 0
                &&& final(self).active_segment.stored_in(final(self).ops.dir_path)
                &&& S::opens_empty() ==> final(self).active_segment.contents().len() == 0
                &&& final(self).holds_segments(final(self).fids@)
            },
    {
        let mut ids: Vec<u32> = Vec::new();
        let mut i: usize = 0;
        while i < file_names.len()
            invariant
                i <= file_names@.len(),
                ids@ == parsed_ids(file_names@).subrange(0, i as int),
                forall|j: int| 0 <= j < file_names@.len() ==> (#[trigger] segment_id_of(file_names@[j]@)) is Some,
            decreases file_names@.len() - i,
        {
            let id = parse_segment_file_name(file_names[i].as_slice());
            match id {
                Some(file_id) => {
                    ids.push(file_id);
                },
                None => {},
            }
            proof {
                assert(ids@ =~= parsed_ids(file_names@).subrange(0, i + 1));
            }
            i = i + 1;
        }
        assert(ids@ =~= parsed_ids(file_names@));
        let fids = sort_ids(&ids);
        proof {
            vstd::seq_lib::to_multiset_len(ids@);
            vstd::seq_lib::to_multiset_len(fids@);
        }
        let mut i: usize = 0;
        while i < fids.len()
            invariant
                i <= fids@.len(),
                self.ops == old(self).ops,
                self.index@ == old(self).index@,
                i > 0 ==> self.active_segment.fileid == fids@[i - 1],
                i > 0 ==> self.active_segment.write_offset == 0,
                i > 0 ==> self.active_segment.stored_in(self.ops.dir_path),
                i > 0 && S::opens_empty() ==> self.active_segment.contents().len() == 0,
                self.holds_segments(fids@.subrange(0, i as int)),
            decreases fids@.len() - i,
        {
            let fid = fids[i];
            let dir = self.ops.dir_path.clone();
            let ghost prev = *self;
            self.new_segmnet(dir, fid)?;
            proof {
                let done = fids@.subrange(0, i + 1);
                assert forall|j: int| 0 <= j < done.len() implies #[trigger] self.segment_ready(done[j]) by {
                    if j < i {
                        let f = done[j];
                        assert(f == fids@.subrange(0, i as int)[j]);
                        assert(prev.segment_ready(f));
                        if f != fid {
                            if f == prev.active_segment.fileid {
                                assert(self.old_segments@[f] == prev.active_segment);
                            } else {
                                assert(self.old_segments@.contains_key(f) == prev.old_segments@.contains_key(f));
                            }
                            assert(self.segment_contents(f) == prev.segment_contents(f));
                        }
                    }
                }
            }
            i = i + 1;
        }
        if fids.len() == 0 {
            let dir = self.ops.dir_path.clone();
            self.new_segmnet(dir, 0)?;
        }
        assert(fids@.subrange(0, fids@.len() as int) =~= fids@);
        let ghost before_assign = *self;
        self.fids = fids;
        assert(sorted_ids(self.fids@));
        assert(self.fids@.to_multiset() == parsed_ids(file_names@).to_multiset());
        assert(self.active_segment.write_offset == 0);
        assert(self.holds_segments(self.fids@)) by {
            assert(before_assign.holds_segments(self.fids@));
            assert forall|j: int| 0 <= j < self.fids@.len() implies #[trigger] self.segment_ready(self.fids@[j]) by {
                assert(before_assign.segment_ready(self.fids@[j]));
            }
        }
        Ok(())
    }

    /// Each segment reads as whole records that fit this machine, up to its
    /// end; with no segment files, the active segment is empty.
    pub open spec fn whole_segments(&self) -> bool {
        &&& forall|j: int| 0 <= j < self.fids@.len() ==> ((#[trigger] self.segment_contents(self.fids@[j])) matches Some(
            c,
        ) && (chain_ok(c, 0) && c.len() <= u64::MAX))
        &&& self.fids@.len() == 0 ==> self.active_segment.contents().len() == 0
    }

    /// Whether a record of key `k` is read at `p` from this engine's segments.
    pub open spec fn points_at(&self, k: Seq<u8>, p: RecordPos) -> bool {
        self.segment_contents(p.fid) matches Some(c) && (read_record_at(c, p.offset as int) matches Some(
            rec,
        ) && rec.0 == k)
    }

    /// `m` after the records of the segments `fids`, in that order, were indexed.
    pub open spec fn rebuild(&self, m: Map<Seq<u8>, RecordPos>, fids: Seq<u32>) -> Map<Seq<u8>, RecordPos>
        decreases fids.len(),
    {
        if fids.len() == 0 {
            m
        } else {
            put_all(
                self.rebuild(m, fids.drop_last()),
                fids.last(),
                scan(self.segment_contents(fids.last())->0, 0),
            )
        }
    }

    /// Indexes every record of every segment of `fids`, in order, reading
    /// each segment from its start until no more records can be read; the
    /// active segment's write offset becomes the offset where reading the
    /// last segment stopped.
    pub fn init_index(&mut self) -> (r: Result<()>)
        requires
            forall|j: int| 0 <= j < old(self).fids@.len() ==> (#[trigger] old(self).segment_contents(old(self).fids@[j])) is Some,
        ensures
            r is Ok,
            final(self).ops == old(self).ops,
            final(self).fids@ == old(self).fids@,
            final(self).old_segments@ == old(self).old_segments@,
            final(self).active_segment.fileid == old(self).active_segment.fileid,
            final(self).active_segment.file == old(self).active_segment.file,
            forall|f: u32| #[trigger] final(self).segment_contents(f) == old(self).segment_contents(f),
            old(self).fids@.len() == 0 ==> final(self).active_segment.write_offset == old(self).active_segment.write_offset,
            old(self).fids@.len() == 0 ==> final(self).index@ == old(self).index@,
            forall|k: Seq<u8>| #[trigger] final(self).index@.contains_key(k) ==> (old(self).index@.contains_key(k)
                && final(self).index@[k] == old(self).index@[k]) || (old(self).fids@.contains(final(self).index@[k].fid)
                && old(self).points_at(k, final(self).index@[k])),
            old(self).fids@.len() > 0 ==> final(self).active_segment.write_offset <= old(self).segment_contents(
                old(self).fids@.last(),
            )->0.len(),
            S::infallible() ==> final(self).index@ == old(self).rebuild(old(self).index@, old(self).fids@),
            S::infallible() && old(self).fids@.len() > 0 ==> final(self).active_segment.write_offset == scan_end(
                old(self).segment_contents(old(self).fids@.last())->0,
                0,
            ),
    {
        let n = self.fids.len();
        let mut i: usize = 0;
        while i < n
            invariant
                n == self.fids@.len(),
                i <= n,
                self.ops == old(self).ops,
                self.fids@ == old(self).fids@,
                self.old_segments@ == old(self).old_segments@,
                self.active_segment.fileid == old(self).active_segment.fileid,
                self.active_segment.file == old(self).active_segment.file,
                forall|j: int| 0 <= j < old(self).fids@.len() ==> (#[trigger] old(self).segment_contents(old(self).fids@[j])) is Some,
                i < n || n == 0 ==> self.active_segment.write_offset == old(self).active_segment.write_offset,
                n == 0 ==> self.index@ == old(self).index@,
                forall|k: Seq<u8>| #[trigger] self.index@.contains_key(k) ==> (old(self).index@.contains_key(k)
                    && self.index@[k] == old(self).index@[k]) || (old(self).fids@.contains(self.index@[k].fid)
                    && old(self).points_at(k, self.index@[k])),
                i == n && n > 0 ==> self.active_segment.write_offset <= old(self).segment_contents(
                    old(self).fids@.last(),
                )->0.len(),
                S::infallible() ==> self.index@ == old(self).rebuild(old(self).index@, self.fids@.subrange(0, i as int)),
                S::infallible() && i == n && n > 0 ==> self.active_segment.write_offset == scan_end(
                    old(self).segment_contents(old(self).fids@.last())->0,
                    0,
                ),
            decreases n - i,
        {
            let fid = self.fids[i];
            let ghost c = old(self).segment_contents(fid)->0;
            let ghost base = self.index@;
            assert(old(self).segment_contents(old(self).fids@[i as int]) is Some);
            assert(self.segment_contents(fid) == Some(c));
            let mut offset: u64 = 0;
            let mut reading = true;
            let ghost mut done: Seq<(Seq<u8>, int)> = Seq::empty();
            while reading
                invariant
                    self.ops == old(self).ops,
                    self.fids@ == old(self).fids@,
                    self.old_segments@ == old(self).old_segments@,
                    self.active_segment.fileid == old(self).active_segment.fileid,
                    self.active_segment.file == old(self).active_segment.file,
                    self.active_segment.write_offset == old(self).active_segment.write_offset,
                    self.segment_contents(fid) == Some(c),
                    offset <= c.len(),
                    S::infallible() ==> scan(c, 0) == done + scan(c, offset as int),
                    S::infallible() ==> scan_end(c, 0) == scan_end(c, offset as int),
                    S::infallible() ==> self.index@ == put_all(base, fid, done),
                    S::infallible() && !reading ==> scan(c, offset as int) == Seq::<(Seq<u8>, int)>::empty(),
                    S::infallible() && !reading ==> scan_end(c, offset as int) == offset,
                    i < n,
                    n == old(self).fids@.len(),
                    fid == old(self).fids@[i as int],
                    c == old(self).segment_contents(fid)->0,
                    forall|k: Seq<u8>| #[trigger] self.index@.contains_key(k) ==> (old(self).index@.contains_key(k)
                        && self.index@[k] == old(self).index@[k]) || (old(self).fids@.contains(self.index@[k].fid)
                        && old(self).points_at(k, self.index@[k])),
                decreases c.len() - offset + (if reading { 1int } else { 0int }),
            {
                let log_record_res = if fid == self.active_segment.fileid {
                    self.active_segment.ReadRecord(offset)
                } else {
                    match self.old_segments.get(&fid) {
                        Some(data_file) => data_file.ReadRecord(offset),
                        None => Err(errors::FailedToReadFromFile),
                    }
                };
                match log_record_res {
                    Ok(read) => {
                        let recordpos = RecordPos { fid: fid, offset: offset };
                        let ghost k = read.record.key@;
                        proof {
                            assert(scan(c, offset as int) == seq![(k, offset as int)] + scan(c, offset + read.size));
                            assert(scan_end(c, offset as int) == scan_end(c, offset + read.size));
                        }
                        let ghost idx0 = self.index@;
                        proof {
                            assert(read_record_at(c, offset as int) matches Some(rec) && rec.0 == k);
                            assert(old(self).points_at(k, recordpos));
                            assert(old(self).fids@.contains(fid)) by {
                                assert(old(self).fids@[i as int] == fid);
                            }
                        }
                        self.index.Put(read.record.key, recordpos);
                        proof {
                            assert forall|q: Seq<u8>| #[trigger] self.index@.contains_key(q) implies (old(self).index@.contains_key(q)
                                && self.index@[q] == old(self).index@[q]) || (old(self).fids@.contains(self.index@[q].fid)
                                && old(self).points_at(q, self.index@[q])) by {
                                if q != k {
                                    assert(idx0.contains_key(q));
                                    assert(self.index@[q] == idx0[q]);
                                }
                            }
                            let done2 = done.push((k, offset as int));
                            assert(done2.drop_last() =~= done);
                            assert(done + scan(c, offset as int) =~= done2 + scan(c, offset + read.size));
                            done = done2;
                        }
                        offset = offset + read.size;
                    },
                    Err(_) => {
                        reading = false;
                    },
                }
            }
            proof {
                if S::infallible() {
                    assert(done =~= scan(c, 0));
                    let pre = self.fids@.subrange(0, i + 1);
                    assert(pre.drop_last() =~= self.fids@.subrange(0, i as int));
                    assert(pre.last() == fid);
                }
            }
            if i == n - 1 {
                self.active_segment.write_offset = offset;
            }
            i = i + 1;
        }
        assert(self.fids@.subrange(0, n as int) =~= self.fids@);
        Ok(())
    }

    proof fn lemma_rebuild_empty_segments(&self, m: Map<Seq<u8>, RecordPos>, fids: Seq<u32>)
        requires
            forall|j: int| 0 <= j < fids.len() ==> ((#[trigger] self.segment_contents(fids[j])) matches Some(c)
                && c.len() == 0),
        ensures
            self.rebuild(m, fids) == m,
        decreases fids.len(),
    {
        if fids.len() > 0 {
            let pre = fids.drop_last();
            assert forall|j: int| 0 <= j < pre.len() implies ((#[trigger] self.segment_contents(pre[j])) matches Some(c)
                && c.len() == 0) by {
                assert(pre[j] == fids[j]);
            }
            self.lemma_rebuild_empty_segments(m, pre);
            assert(self.segment_contents(fids[fids.len() - 1]) is Some);
            let c = self.segment_contents(fids.last())->0;
            assert(scan(c, 0) == Seq::<(Seq<u8>, int)>::empty());
        }
    }

    /// The rebuilt index depends only on the bytes of the segments.
    proof fn lemma_rebuild_same(&self, other: &Self, m: Map<Seq<u8>, RecordPos>, fids: Seq<u32>)
        requires
            forall|f: u32| #[trigger] self.segment_contents(f) == other.segment_contents(f),
        ensures
            self.rebuild(m, fids) == other.rebuild(m, fids),
        decreases fids.len(),
    {
        if fids.len() > 0 {
            self.lemma_rebuild_same(other, m, fids.drop_last());
            assert(self.segment_contents(fids.last()) == other.segment_contents(fids.last()));
        }
    }

    /// An engine over the segments whose files are named `file_names` (the
    /// names found in `ops.dir_path`), with its index rebuilt from them: each
    /// record of each segment, in increasing segment id and offset order,
    /// and the active write offset where reading the last segment stopped.
    pub fn new(ops: Options, file_names: &Vec<Vec<u8>>) -> (r: Result<Self>)
        requires
            forall|i: int| 0 <= i < file_names@.len() ==> (#[trigger] segment_id_of(file_names@[i]@)) is Some,
        ensures
            S::infallible() ==> r is Ok,
            r matches Err(e) ==> !S::infallible() && e is FialedToOpenFile,
            r matches Ok(eg) ==> {
                &&& eg.ops == ops
                &&& sorted_ids(eg.fids@)
                &&& eg.fids@.len() == file_names@.len()
                &&& eg.fids@.to_multiset() == parsed_ids(file_names@).to_multiset()
                &&& eg.active_segment.fileid == (if eg.fids@.len() == 0 { 0 } else { eg.fids@.last() })
                &&& eg.active_segment.stored_in(eg.ops.dir_path)
                &&& eg.holds_segments(eg.fids@)
                &&& eg.fids@.len() == 0 ==> eg.active_segment.write_offset == 0 && eg.kv() == Map::<
                    Seq<u8>,
                    Seq<u8>,
                >::empty()
                &&& forall|k: Seq<u8>| #[trigger] eg.index@.contains_key(k) ==> eg.fids@.contains(eg.index@[k].fid)
                    && eg.points_at(k, eg.index@[k])
                &&& eg.fids@.len() > 0 ==> eg.active_segment.write_offset <= eg.segment_contents(eg.fids@.last())->0.len()
                &&& S::infallible() ==> eg.index@ == eg.rebuild(Map::empty(), eg.fids@)
                &&& S::infallible() && eg.fids@.len() > 0 ==> eg.active_segment.write_offset == scan_end(
                    eg.segment_contents(eg.fids@.last())->0,
                    0,
                )
                &&& S::infallible() && S::opens_empty() ==> eg.wf() && eg.kv() == Map::<Seq<u8>, Seq<u8>>::empty()
                &&& S::infallible() && eg.fids@.len() > 0 && chain_ok(eg.segment_contents(eg.fids@.last())->0, 0)
                    ==> eg.active_segment.write_offset == eg.segment_contents(eg.fids@.last())->0.len()
                &&& S::infallible() && eg.whole_segments() ==> eg.wf()
            },
    {
        let idx = NewIndexer();
        let mut eg = Engine {
            ops: ops,
            active_segment: Semgent::default(),
            old_segments: HashMap::new(),
            index: idx,
            fids: Vec::new(),
        };
        eg.init_segment(file_names)?;
        proof {
            assert forall|j: int| 0 <= j < eg.fids@.len() implies (#[trigger] eg.segment_contents(eg.fids@[j])) is Some by {
                assert(eg.segment_ready(eg.fids@[j]));
            }
        }
        let ghost before = eg;
        eg.init_index()?;
        proof {
            before.lemma_rebuild_same(&eg, Map::empty(), before.fids@);
            assert forall|j: int| 0 <= j < eg.fids@.len() implies #[trigger] eg.segment_ready(eg.fids@[j]) by {
                assert(before.segment_ready(before.fids@[j]));
            }
            if eg.fids@.len() == 0 {
                assert(eg.kv() =~= Map::<Seq<u8>, Seq<u8>>::empty());
            }
            if eg.fids@.len() > 0 && chain_ok(eg.segment_contents(eg.fids@.last())->0, 0) {
                lemma_scan_end_whole(eg.segment_contents(eg.fids@.last())->0, 0);
            }
            if S::infallible() && eg.whole_segments() {
                if eg.fids@.len() > 0 {
                    let n = eg.fids@.len() - 1;
                    assert(eg.segment_contents(eg.fids@[n]) is Some);
                    lemma_scan_end_whole(eg.segment_contents(eg.fids@.last())->0, 0);
                }
                Self::lemma_reopened_wf(&eg);
            }
            if S::infallible() && S::opens_empty() {
                assert forall|j: int| 0 <= j < before.fids@.len() implies ((#[trigger] before.segment_contents(
                    before.fids@[j],
                )) matches Some(c) && c.len() == 0) by {
                    assert(before.segment_ready(before.fids@[j]));
                }
                before.lemma_rebuild_empty_segments(Map::empty(), before.fids@);
                if before.fids@.len() > 0 {
                    let c = before.segment_contents(before.fids@.last())->0;
                    assert(before.segment_ready(before.fids@[before.fids@.len() - 1]));
                    assert(scan_end(c, 0) == 0);
                }
                assert(eg.active_segment.contents() == before.active_segment.contents());
                assert(eg.kv() =~= Map::<Seq<u8>, Seq<u8>>::empty());
            }
        }
        Ok(eg)
    }

    /// After a write, a lookup of its key gives the value written, and a
    /// lookup of any other key gives what it gave before.
    pub proof fn lemma_get_after_append(e0: &Self, e1: &Self, key: Seq<u8>, value: Seq<u8>)
        requires
            e0.wf(),
            e1.wf(),
            e1.kv() == e0.kv().insert(key, value),
        ensures
            e1.lookup(key) == value,
            forall|k: Seq<u8>| k != key ==> #[trigger] e1.lookup(k) == e0.lookup(k),
    {
        assert(e1.kv().contains_key(key));
        assert(e1.kv()[key] == value);
        assert(e1.index@.contains_key(key));
        assert(e1.kv()[key] == e1.lookup(key));
        assert forall|k: Seq<u8>| k != key implies #[trigger] e1.lookup(k) == e0.lookup(k) by {
            if e0.index@.contains_key(k) {
                assert(e0.kv().contains_key(k));
                assert(e1.kv()[k] == e0.kv()[k]);
            } else {
                assert(!e1.kv().contains_key(k));
            }
        }
    }
}

impl<S: Store> Default for Engine<S> {
    /// An engine with default options, a placeholder active segment 0 and
    /// an empty index.
    fn default() -> (e: Engine<S>)
        ensures
            e.index@ == Map::<Seq<u8>, RecordPos>::empty(),
            e.fids@ == Seq::<u32>::empty(),
            e.active_segment.fileid == 0,
            e.active_segment.write_offset == 0,
            e.old_segments@ == Map::<u32, Semgent<S>>::empty(),
    {
        Engine {
            active_segment: Semgent::default(),
            old_segments: HashMap::new(),
            index: NewIndexer(),
            fids: Vec::new(),
            ops: Options::default(),
        }
    }
}

} // verus!
