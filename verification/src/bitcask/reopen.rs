//! Reopening: an engine whose index was rebuilt from segments that read as
//! whole records is consistent.
use vstd::prelude::*;
use crate::bitcask::data::{decoded_key, RecordPos};
use crate::bitcask::db::{Engine, record_fits, scan, put_all};
use crate::bitcask::fio::Store;
use crate::bitcask::naming::sorted_ids;
use crate::bitcask::recovery::chain_ok;
use crate::bitcask::segment::{read_record_at, lemma_read_complete};

verus! {

/// Every record found reading whole records from `off` is a whole record
/// that fits this machine, stored with the key it was found with.
pub proof fn lemma_scan_whole_records(c: Seq<u8>, off: int)
    requires
        chain_ok(c, off),
    ensures
        forall|j: int| 0 <= j < scan(c, off).len() ==> {
            &&& record_fits(c, (#[trigger] scan(c, off)[j]).1)
            &&& decoded_key(c.subrange(scan(c, off)[j].1, c.len() as int)) == scan(c, off)[j].0
            &&& 0 <= scan(c, off)[j].1 <= c.len()
        },
    decreases c.len() - off,
{
    if off < c.len() {
        let rec = read_record_at(c, off)->0;
        lemma_scan_whole_records(c, off + rec.2);
        lemma_read_complete(c, off, Seq::empty());
        assert(c + Seq::<u8>::empty() =~= c);
        let s = scan(c, off);
        let t = scan(c, off + rec.2);
        assert(s == seq![(rec.0, off)] + t);
        assert forall|j: int| 0 <= j < s.len() implies {
            &&& record_fits(c, (#[trigger] s[j]).1)
            &&& decoded_key(c.subrange(s[j].1, c.len() as int)) == s[j].0
            &&& 0 <= s[j].1 <= c.len()
        } by {
            if j > 0 {
                assert(s[j] == t[j - 1]);
            }
        }
    } else {
        assert(crate::bitcask::fio::read_count(c, c.len() as int, 16) == 0);
    }
}

/// A key indexed by `put_all` was indexed before or comes from one of the
/// records `s`, at that record's offset.
proof fn lemma_put_all_from(m: Map<Seq<u8>, RecordPos>, fid: u32, s: Seq<(Seq<u8>, int)>, k: Seq<u8>)
    ensures
        put_all(m, fid, s).contains_key(k) ==> (m.contains_key(k) && put_all(m, fid, s)[k] == m[k]) || (exists|j: int|
            0 <= j < s.len() && (#[trigger] s[j]).0 == k && put_all(m, fid, s)[k] == (RecordPos {
                fid,
                offset: s[j].1 as u64,
            })),
    decreases s.len(),
{
    if s.len() > 0 {
        let pre = s.drop_last();
        lemma_put_all_from(m, fid, pre, k);
        if put_all(m, fid, s).contains_key(k) && s.last().0 != k {
            if exists|j: int| 0 <= j < pre.len() && (#[trigger] pre[j]).0 == k && put_all(m, fid, pre)[k] == (RecordPos {
                fid,
                offset: pre[j].1 as u64,
            }) {
                let j = choose|j: int| 0 <= j < pre.len() && (#[trigger] pre[j]).0 == k && put_all(m, fid, pre)[k]
                    == (RecordPos { fid, offset: pre[j].1 as u64 });
                assert(s[j] == pre[j]);
            }
        }
        if s.last().0 == k {
            assert(s[s.len() - 1].0 == k);
        }
    }
}

impl<S: Store> Engine<S> {
    /// A key of an index rebuilt from the segments `fids` comes from a
    /// record found in one of them, at that record's offset.
    proof fn lemma_rebuild_from(&self, fids: Seq<u32>, k: Seq<u8>)
        ensures
            self.rebuild(Map::empty(), fids).contains_key(k) ==> (exists|i: int, j: int|
                0 <= i < fids.len() && 0 <= j < scan(self.segment_contents(fids[i])->0, 0).len() && #[trigger] scan(
                    self.segment_contents(fids[i])->0,
                    0,
                )[j].0 == k && self.rebuild(Map::empty(), fids)[k] == (RecordPos {
                    fid: fids[i],
                    offset: scan(self.segment_contents(fids[i])->0, 0)[j].1 as u64,
                })),
        decreases fids.len(),
    {
        if fids.len() > 0 {
            let pre = fids.drop_last();
            let n = fids.len() - 1;
            self.lemma_rebuild_from(pre, k);
            let s = scan(self.segment_contents(fids.last())->0, 0);
            lemma_put_all_from(self.rebuild(Map::empty(), pre), fids.last(), s, k);
            if self.rebuild(Map::empty(), fids).contains_key(k) {
                if exists|j: int| 0 <= j < s.len() && (#[trigger] s[j]).0 == k && self.rebuild(Map::empty(), fids)[k]
                    == (RecordPos { fid: fids.last(), offset: s[j].1 as u64 }) {
                    let j = choose|j: int| 0 <= j < s.len() && (#[trigger] s[j]).0 == k && self.rebuild(
                        Map::empty(),
                        fids,
                    )[k] == (RecordPos { fid: fids.last(), offset: s[j].1 as u64 });
                    assert(fids[n] == fids.last());
                    assert(scan(self.segment_contents(fids[n])->0, 0)[j].0 == k);
                } else {
                    let (i, j) = choose|i: int, j: int|
                        0 <= i < pre.len() && 0 <= j < scan(self.segment_contents(pre[i])->0, 0).len() && #[trigger] scan(
                            self.segment_contents(pre[i])->0,
                            0,
                        )[j].0 == k && self.rebuild(Map::empty(), pre)[k] == (RecordPos {
                            fid: pre[i],
                            offset: scan(self.segment_contents(pre[i])->0, 0)[j].1 as u64,
                        });
                    assert(pre[i] == fids[i]);
                    assert(scan(self.segment_contents(fids[i])->0, 0)[j].0 == k);
                }
            }
        }
    }

    /// An engine whose index was rebuilt from its segments, each of which
    /// reads as whole records, and whose write offset is the end of its
    /// active segment (the last of its sorted segment ids), is consistent:
    /// reopening what was written gives an engine that can be written to.
    pub proof fn lemma_reopened_wf(e: &Self)
        requires
            e.index@ == e.rebuild(Map::empty(), e.fids@),
            sorted_ids(e.fids@),
            e.fids@.len() > 0 ==> e.active_segment.fileid == e.fids@.last(),
            forall|i: int| 0 <= i < e.fids@.len() ==> ((#[trigger] e.segment_contents(e.fids@[i])) matches Some(c) && (
            chain_ok(c, 0) && c.len() <= u64::MAX)),
            e.active_segment.write_offset == e.active_segment.contents().len(),
        ensures
            e.wf(),
    {
        assert forall|k: Seq<u8>| #[trigger] e.index@.contains_key(k) implies {
            let p = e.index@[k];
            &&& p.fid <= e.active_segment.fileid
            &&& e.segment_contents(p.fid) matches Some(c) && {
                &&& record_fits(c, p.offset as int)
                &&& decoded_key(c.subrange(p.offset as int, c.len() as int)) == k
            }
        } by {
            e.lemma_rebuild_from(e.fids@, k);
            let (i, j) = choose|i: int, j: int|
                0 <= i < e.fids@.len() && 0 <= j < scan(e.segment_contents(e.fids@[i])->0, 0).len() && #[trigger] scan(
                    e.segment_contents(e.fids@[i])->0,
                    0,
                )[j].0 == k && e.rebuild(Map::empty(), e.fids@)[k] == (RecordPos {
                    fid: e.fids@[i],
                    offset: scan(e.segment_contents(e.fids@[i])->0, 0)[j].1 as u64,
                });
            let c = e.segment_contents(e.fids@[i])->0;
            assert(e.segment_contents(e.fids@[i]) is Some);
            lemma_scan_whole_records(c, 0);
            assert(e.fids@[i] <= e.fids@[e.fids@.len() - 1]);
        }
    }
}

} // verus!
