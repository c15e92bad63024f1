//! Reading the segments back: a segment made of whole records is read
//! record by record, and indexing every segment in order gives each key the
//! value it was last written with.
use vstd::prelude::*;
use crate::bitcask::data::{append_bytes, copy_range, encode_record, lemma_decode_encode, from_be, Record, RecordPos};
use crate::bitcask::db::{Engine, record_fits, scan, put_all};
use crate::bitcask::fio::{Store, read_count};
use crate::bitcask::segment::{read_record_at, lemma_read_complete};

verus! {

/// The stored form of the records `rs` (key, value), one after another.
pub open spec fn encode_all(rs: Seq<(Seq<u8>, Seq<u8>)>) -> Seq<u8>
    decreases rs.len(),
{
    if rs.len() == 0 {
        Seq::empty()
    } else {
        encode_all(rs.drop_last()) + encode_record(rs.last().0, rs.last().1)
    }
}

/// Every key and value of `rs` is short enough for this machine's buffers.
pub open spec fn records_fit(rs: Seq<(Seq<u8>, Seq<u8>)>) -> bool {
    forall|i: int| 0 <= i < rs.len() ==> (#[trigger] rs[i]).0.len() <= usize::MAX && rs[i].1.len() <= usize::MAX
}

/// `kv` after each record of `rs`, in order, was stored.
pub open spec fn replay(kv: Map<Seq<u8>, Seq<u8>>, rs: Seq<(Seq<u8>, Seq<u8>)>) -> Map<Seq<u8>, Seq<u8>>
    decreases rs.len(),
{
    if rs.len() == 0 {
        kv
    } else {
        replay(kv, rs.drop_last()).insert(rs.last().0, rs.last().1)
    }
}

/// The records of all segments, segment after segment.
pub open spec fn flatten(rss: Seq<Seq<(Seq<u8>, Seq<u8>)>>) -> Seq<(Seq<u8>, Seq<u8>)>
    decreases rss.len(),
{
    if rss.len() == 0 {
        Seq::empty()
    } else {
        flatten(rss.drop_last()) + rss.last()
    }
}

/// From `off`, `c` reads as whole records up to its end.
pub open spec fn chain_ok(c: Seq<u8>, off: int) -> bool
    decreases c.len() - off,
{
    if off < 0 || off > c.len() {
        false
    } else if off == c.len() {
        true
    } else {
        match read_record_at(c, off) {
            Some(rec) => rec.2 > 0 && off + rec.2 <= c.len() && record_fits(c, off) && chain_ok(c, off + rec.2),
            None => false,
        }
    }
}

/// Nothing can be read at the end of `c`.
proof fn lemma_end(c: Seq<u8>)
    ensures
        read_record_at(c, c.len() as int) is None,
        scan(c, c.len() as int) == Seq::<(Seq<u8>, int)>::empty(),
{
    assert(read_count(c, c.len() as int, 16) == 0);
}

/// Bytes after whole records do not change how those records are read.
proof fn lemma_extend(c: Seq<u8>, e: Seq<u8>, off: int)
    requires
        chain_ok(c, off),
    ensures
        scan(c + e, off) == scan(c, off) + scan(c + e, c.len() as int),
        chain_ok(c + e, c.len() as int) ==> chain_ok(c + e, off),
        forall|i: int| 0 <= i < scan(c, off).len() ==> read_record_at(c + e, (#[trigger] scan(c, off)[i]).1) == read_record_at(c, scan(c, off)[i].1),
    decreases c.len() - off,
{
    if off == c.len() {
        lemma_end(c);
        assert(scan(c, off) + scan(c + e, c.len() as int) =~= scan(c + e, c.len() as int));
    } else {
        let rec = read_record_at(c, off)->0;
        lemma_read_complete(c, off, e);
        lemma_extend(c, e, off + rec.2);
        let tail = scan(c, off + rec.2);
        assert(scan(c, off) == seq![(rec.0, off)] + tail);
        assert(scan(c + e, off) == seq![(rec.0, off)] + scan(c + e, off + rec.2));
        assert(seq![(rec.0, off)] + (tail + scan(c + e, c.len() as int)) =~= (seq![(rec.0, off)] + tail) + scan(
            c + e,
            c.len() as int,
        ));
        assert forall|i: int| 0 <= i < scan(c, off).len() implies read_record_at(c + e, (#[trigger] scan(c, off)[i]).1)
            == read_record_at(c, scan(c, off)[i].1) by {
            if i > 0 {
                assert(scan(c, off)[i] == tail[i - 1]);
            }
        }
        if chain_ok(c + e, c.len() as int) {
            assert(record_fits(c + e, off)) by {
                assert(from_be(c + e, off) == from_be(c, off));
                assert(from_be(c + e, off + 8) == from_be(c, off + 8));
            }
        }
    }
}

/// The value of the record read at `off` of `c`, if one can be read.
pub open spec fn read_value(c: Seq<u8>, off: int) -> Option<Seq<u8>> {
    match read_record_at(c, off) {
        Some(rec) => Some(rec.1),
        None => None,
    }
}

/// Where record `i` of `rs` starts in their stored form.
pub open spec fn rec_off(rs: Seq<(Seq<u8>, Seq<u8>)>, i: int) -> int {
    encode_all(rs.subrange(0, i)).len() as int
}

/// Records stored one after another are read back one after another, each
/// at its offset and with its key and value.
pub proof fn lemma_scan_encode_all(rs: Seq<(Seq<u8>, Seq<u8>)>)
    requires
        records_fit(rs),
    ensures
        chain_ok(encode_all(rs), 0),
        scan(encode_all(rs), 0).len() == rs.len(),
        forall|i: int| 0 <= i < rs.len() ==> #[trigger] scan(encode_all(rs), 0)[i] == (rs[i].0, rec_off(rs, i)),
        forall|i: int| 0 <= i < rs.len() ==> #[trigger] read_value(encode_all(rs), rec_off(rs, i)) == Some(rs[i].1),
    decreases rs.len(),
{
    if rs.len() == 0 {
        lemma_end(encode_all(rs));
    } else {
        let pre = rs.drop_last();
        let c = encode_all(pre);
        let r = rs.last();
        let e = encode_record(r.0, r.1);
        let c2 = encode_all(rs);
        assert(c2 == c + e);
        assert forall|i: int| 0 <= i < pre.len() implies (#[trigger] pre[i]).0.len() <= usize::MAX && pre[i].1.len() <= usize::MAX by {
            assert(pre[i] == rs[i]);
        }
        lemma_scan_encode_all(pre);
        // the last record
        lemma_decode_encode(r.0, r.1);
        let n = c.len() as int;
        assert(c2.subrange(n, c2.len() as int) =~= e);
        assert(from_be(c2, n) == from_be(e, 0));
        assert(from_be(c2, n + 8) == from_be(e, 8));
        assert(record_fits(c2, n));
        lemma_read_complete(c2, n, Seq::empty());
        assert(c2 + Seq::<u8>::empty() =~= c2);
        let rec = read_record_at(c2, n)->0;
        assert(rec.2 == e.len());
        lemma_end(c2);
        assert(chain_ok(c2, n + rec.2));
        assert(chain_ok(c2, n));
        assert(scan(c2, n) == seq![(r.0, n)] + scan(c2, n + rec.2));
        assert(scan(c2, n) =~= seq![(r.0, n)]);
        // the earlier ones
        lemma_extend(c, e, 0);
        assert forall|i: int| 0 <= i < rs.len() implies #[trigger] scan(c2, 0)[i] == (rs[i].0, rec_off(rs, i)) by {
            if i < pre.len() {
                assert(scan(c, 0)[i] == (pre[i].0, rec_off(pre, i)));
                assert(rs.subrange(0, i) =~= pre.subrange(0, i));
            } else {
                assert(rs.subrange(0, i) =~= pre);
            }
        }
        assert forall|i: int| 0 <= i < rs.len() implies #[trigger] read_value(c2, rec_off(rs, i)) == Some(rs[i].1) by {
            if i < pre.len() {
                assert(rs.subrange(0, i) =~= pre.subrange(0, i));
                assert(scan(c, 0)[i].1 == rec_off(pre, i));
                assert(read_value(c, rec_off(pre, i)) == Some(pre[i].1));
            } else {
                assert(rs.subrange(0, i) =~= pre);
            }
        }
    }
}

/// Storing the records of `a` and then those of `b` is storing those of `a + b`.
pub proof fn lemma_replay_concat(kv: Map<Seq<u8>, Seq<u8>>, a: Seq<(Seq<u8>, Seq<u8>)>, b: Seq<(Seq<u8>, Seq<u8>)>)
    ensures
        replay(kv, a + b) == replay(replay(kv, a), b),
    decreases b.len(),
{
    if b.len() == 0 {
        assert(a + b =~= a);
    } else {
        lemma_replay_concat(kv, a, b.drop_last());
        assert((a + b).drop_last() =~= a + b.drop_last());
        assert((a + b).last() == b.last());
    }
}

impl<S: Store> Engine<S> {
    /// The engine's key/value pairs, by increasing key.
    pub open spec fn kv_records(&self) -> Seq<(Seq<u8>, Seq<u8>)> {
        self.index.key_seq().map_values(|k: Seq<u8>| (k, self.lookup(k)))
    }

    /// The engine's key/value pairs in their stored form: one record per
    /// key, by increasing key.
    pub fn kv_bytes(&self) -> (r: Vec<u8>)
        ensures
            S::infallible() ==> r@ == encode_all(self.kv_records()),
    {
        let keys = self.index.keys();
        let ghost recs = self.kv_records();
        let mut out: Vec<u8> = Vec::new();
        let mut i: usize = 0;
        while i < keys.len()
            invariant
                i <= keys@.len(),
                keys@.len() == recs.len(),
                recs == self.kv_records(),
                forall|j: int| 0 <= j < keys@.len() ==> (#[trigger] keys@[j])@ == self.index.key_seq()[j],
                S::infallible() ==> out@ == encode_all(recs.take(i as int)),
            decreases keys@.len() - i,
        {
            let k = &keys[i];
            let key = copy_range(k.as_slice(), 0, k.len());
            let value = self.get_bytes(copy_range(k.as_slice(), 0, k.len()));
            let rec = Record { key, value };
            let b = rec.Bytes();
            append_bytes(&mut out, b.as_slice());
            proof {
                let t = recs.take(i + 1);
                assert(t.drop_last() =~= recs.take(i as int));
                assert(t.last() == recs[i as int]);
                assert(recs[i as int] == (self.index.key_seq()[i as int], self.lookup(self.index.key_seq()[i as int])));
                assert(rec.key@ == self.index.key_seq()[i as int]);
                if S::infallible() {
                    assert(rec.value@ == self.lookup(rec.key@));
                    assert(encode_all(t) == encode_all(t.drop_last()) + encode_record(t.last().0, t.last().1));
                }
            }
            i = i + 1;
        }
        proof {
            assert(recs.take(keys@.len() as int) =~= recs);
        }
        out
    }

    /// The key/value map that the index `m` gives over this engine's segments.
    pub open spec fn kv_of(&self, m: Map<Seq<u8>, RecordPos>) -> Map<Seq<u8>, Seq<u8>> {
        Map::new(|k: Seq<u8>| m.contains_key(k), |k: Seq<u8>| self.value_at(m[k]))
    }

    /// Indexing a segment made of the records `rs` stores them in order.
    proof fn lemma_put_all_replays(&self, m: Map<Seq<u8>, RecordPos>, fid: u32, rs: Seq<(Seq<u8>, Seq<u8>)>, j: int)
        requires
            records_fit(rs),
            self.segment_contents(fid) == Some(encode_all(rs)),
            encode_all(rs).len() <= u64::MAX,
            0 <= j <= rs.len(),
        ensures
            self.kv_of(put_all(m, fid, scan(encode_all(rs), 0).subrange(0, j))) == replay(self.kv_of(m), rs.subrange(0, j)),
        decreases j,
    {
        let c = encode_all(rs);
        lemma_scan_encode_all(rs);
        let s = scan(c, 0);
        if j == 0 {
            assert(s.subrange(0, 0) =~= Seq::<(Seq<u8>, int)>::empty());
            assert(rs.subrange(0, 0) =~= Seq::<(Seq<u8>, Seq<u8>)>::empty());
            assert(self.kv_of(m) =~= self.kv_of(m));
        } else {
            self.lemma_put_all_replays(m, fid, rs, j - 1);
            let sj = s.subrange(0, j);
            assert(sj.drop_last() =~= s.subrange(0, j - 1));
            assert(rs.subrange(0, j).drop_last() =~= rs.subrange(0, j - 1));
            assert(sj.last() == s[j - 1]);
            assert(s[j - 1] == (rs[j - 1].0, rec_off(rs, j - 1)));
            assert(read_value(c, rec_off(rs, j - 1)) == Some(rs[j - 1].1));
            let off = rec_off(rs, j - 1);
            assert(off <= c.len()) by {
                assert(read_count(c, off, 16) == 16);
            }
            let pos = RecordPos { fid, offset: off as u64 };
            assert(self.value_at(pos) == rs[j - 1].1);
            let prev = put_all(m, fid, s.subrange(0, j - 1));
            assert(put_all(m, fid, sj) == prev.insert(rs[j - 1].0, pos));
            assert(self.kv_of(prev.insert(rs[j - 1].0, pos)) =~= self.kv_of(prev).insert(rs[j - 1].0, rs[j - 1].1));
        }
    }

    proof fn lemma_rebuild_replays(&self, m: Map<Seq<u8>, RecordPos>, rss: Seq<Seq<(Seq<u8>, Seq<u8>)>>, fids: Seq<u32>)
        requires
            rss.len() == fids.len(),
            forall|i: int| 0 <= i < rss.len() ==> {
                &&& records_fit(#[trigger] rss[i])
                &&& self.segment_contents(fids[i]) == Some(encode_all(rss[i]))
                &&& encode_all(rss[i]).len() <= u64::MAX
            },
        ensures
            self.kv_of(self.rebuild(m, fids)) == replay(self.kv_of(m), flatten(rss)),
        decreases fids.len(),
    {
        if fids.len() > 0 {
            let n = fids.len() - 1;
            assert forall|i: int| 0 <= i < rss.drop_last().len() implies {
                &&& records_fit(#[trigger] rss.drop_last()[i])
                &&& self.segment_contents(fids.drop_last()[i]) == Some(encode_all(rss.drop_last()[i]))
                &&& encode_all(rss.drop_last()[i]).len() <= u64::MAX
            } by {
                assert(rss.drop_last()[i] == rss[i]);
                assert(fids.drop_last()[i] == fids[i]);
            }
            self.lemma_rebuild_replays(m, rss.drop_last(), fids.drop_last());
            let rs = rss[n];
            assert(records_fit(rss[n]));
            let c = encode_all(rs);
            lemma_scan_encode_all(rs);
            self.lemma_put_all_replays(self.rebuild(m, fids.drop_last()), fids.last(), rs, rs.len() as int);
            assert(scan(c, 0).subrange(0, rs.len() as int) =~= scan(c, 0));
            assert(rs.subrange(0, rs.len() as int) =~= rs);
            lemma_replay_concat(self.kv_of(m), flatten(rss.drop_last()), rs);
        } else {
            assert(self.kv_of(m) =~= self.kv_of(m));
        }
    }

    /// An engine whose index was rebuilt from segments that hold the records
    /// `rss` (segment after segment, in the order of its segment ids) gives
    /// each key the value it was last stored with.
    pub proof fn lemma_recovery(e: &Self, rss: Seq<Seq<(Seq<u8>, Seq<u8>)>>)
        requires
            e.index@ == e.rebuild(Map::empty(), e.fids@),
            rss.len() == e.fids@.len(),
            forall|i: int| 0 <= i < rss.len() ==> {
                &&& records_fit(#[trigger] rss[i])
                &&& e.segment_contents(e.fids@[i]) == Some(encode_all(rss[i]))
                &&& encode_all(rss[i]).len() <= u64::MAX
            },
        ensures
            e.kv() == replay(Map::empty(), flatten(rss)),
    {
        e.lemma_rebuild_replays(Map::empty(), rss, e.fids@);
        assert(e.kv_of(Map::empty()) =~= Map::<Seq<u8>, Seq<u8>>::empty());
        assert(e.kv() =~= e.kv_of(e.index@));
    }
}

} // verus!
