//! A segment: one store of appended records, with the offset where the next
//! record goes.
use vstd::prelude::*;
use crate::bitcask::data::{encode_record, from_be, holds_record, decoded_key, decoded_value, lemma_decode_encode, read_be_u64, Record, ReadRecordRes, HEADER_SIZE};
use crate::bitcask::error::{errors, Result};
use crate::bitcask::fio::{Store, NewStore, read_count, filled, extends};
use crate::bitcask::naming::{segment_file_name, segment_name};
use crate::bitcask::sys::{string_from_utf8, lemma_ascii_valid_utf8};
use vstd::utf8::encode_utf8;

verus! {

/// `n` zero bytes.
pub open spec fn zeros(n: int) -> Seq<u8> {
    Seq::new(n as nat, |i: int| 0u8)
}

/// What reading a record at `off` of `c` yields: its key, its value and the
/// number of bytes it took, or `None` when no full header is there (or the
/// header announces a length no buffer of this machine can hold). Key and
/// value are read as far as `c` goes; what is missing reads as zero bytes.
pub open spec fn read_record_at(c: Seq<u8>, off: int) -> Option<(Seq<u8>, Seq<u8>, int)> {
    if read_count(c, off, 16) != 16 || from_be(c, off) > usize::MAX || from_be(c, off + 8) > usize::MAX {
        None
    } else {
        let kl = from_be(c, off) as int;
        let vl = from_be(c, off + 8) as int;
        let kn = read_count(c, off + 16, kl);
        let vn = read_count(c, off + 16 + kn, vl);
        Some((filled(zeros(kl), c, off + 16, kn), filled(zeros(vl), c, off + 16 + kn, vn), 16 + kn + vn))
    }
}

/// Whether a whole record starts at `off` in `c`.
pub open spec fn complete_at(c: Seq<u8>, off: int) -> bool {
    0 <= off <= c.len() && holds_record(c.subrange(off, c.len() as int))
}

/// Reading a whole record gives its key, its value and its stored length, and
/// appending bytes after it does not change what is read.
pub proof fn lemma_read_complete(c: Seq<u8>, off: int, extra: Seq<u8>)
    requires
        complete_at(c, off),
        from_be(c, off) <= usize::MAX,
        from_be(c, off + 8) <= usize::MAX,
    ensures
        complete_at(c + extra, off),
        read_record_at(c, off) == Some(
            (
                decoded_key(c.subrange(off, c.len() as int)),
                decoded_value(c.subrange(off, c.len() as int)),
                HEADER_SIZE + from_be(c, off) + from_be(c, off + 8),
            ),
        ),
        read_record_at(c + extra, off) == read_record_at(c, off),
{
    let s = c.subrange(off, c.len() as int);
    let d = c + extra;
    let s2 = d.subrange(off, d.len() as int);
    assert forall|i: int| 0 <= i < s.len() implies s2[i] == #[trigger] s[i] by {
        assert(s2[i] == d[off + i]);
        assert(d[off + i] == c[off + i]);
    }
    assert(from_be(s, 0) == from_be(c, off));
    assert(from_be(s, 8) == from_be(c, off + 8));
    assert(from_be(s2, 0) == from_be(d, off));
    assert(from_be(s2, 8) == from_be(d, off + 8));
    assert(from_be(d, off) == from_be(c, off));
    assert(from_be(d, off + 8) == from_be(c, off + 8));
    let kl = from_be(c, off) as int;
    let vl = from_be(c, off + 8) as int;
    assert(filled(zeros(kl), c, off + 16, kl) =~= decoded_key(s));
    assert(filled(zeros(vl), c, off + 16 + kl, vl) =~= decoded_value(s));
    assert(filled(zeros(kl), d, off + 16, kl) =~= filled(zeros(kl), c, off + 16, kl));
    assert(filled(zeros(vl), d, off + 16 + kl, vl) =~= filled(zeros(vl), c, off + 16 + kl, vl));
}

/// A segment: the store that holds it, its id and the offset of its end.
#[allow(non_camel_case_types)]
#[derive(Debug)]
pub struct Semgent<S> {
    pub fileid: u32,
    pub write_offset: u64,
    pub file: S,
}

/// Reading at the offset where a record's bytes were appended gives back the
/// record's key and value, and its stored length.
pub proof fn lemma_read_after_append(c: Seq<u8>, key: Seq<u8>, value: Seq<u8>)
    requires
        key.len() <= usize::MAX,
        value.len() <= usize::MAX,
    ensures
        read_record_at(c + encode_record(key, value), c.len() as int) == Some(
            (key, value, encode_record(key, value).len() as int),
        ),
{
    let b = encode_record(key, value);
    let d = c + b;
    let off = c.len() as int;
    lemma_decode_encode(key, value);
    assert(d.subrange(off, d.len() as int) =~= b);
    assert(from_be(d, off) == from_be(b, 0));
    assert(from_be(d, off + 8) == from_be(b, 8));
    lemma_read_complete(d, off, Seq::<u8>::empty());
}

impl<S: Store> Default for Semgent<S> {
    /// Segment 0 over a default store, with a write offset of zero.
    fn default() -> (s: Semgent<S>)
        ensures
            s.fileid == 0,
            s.write_offset == 0,
    {
        Semgent { fileid: 0, write_offset: 0, file: S::default() }
    }
}

/// A zeroed buffer of `n` bytes.
fn zeroed(n: usize) -> (v: Vec<u8>)
    ensures
        v@ == zeros(n as int),
{
    let mut v: Vec<u8> = Vec::new();
    let mut i: usize = 0;
    while i < n
        invariant
            i <= n,
            v@ == zeros(i as int),
        decreases n - i,
    {
        v.push(0u8);
        i = i + 1;
        assert(v@ =~= zeros(i as int));
    }
    v
}

impl<S: Store> Semgent<S> {
    /// The bytes the segment holds.
    pub open spec fn contents(&self) -> Seq<u8> {
        self.file.contents()@
    }

    /// Whether the segment's store is the file named after the segment's id
    /// inside `dir`.
    pub open spec fn stored_in(&self, dir: std::path::PathBuf) -> bool {
        &&& self.file.dir() == dir
        &&& encode_utf8(self.file.name()@) == segment_name(self.fileid)
    }

    /// A segment with id `fileid`, over the store kept in the file named
    /// after the id inside `dir_path`; it starts with a write offset of zero.
    pub fn new(dir_path: std::path::PathBuf, fileid: u32) -> (r: Result<Self>)
        ensures
            match r {
                Ok(seg) => {
                    &&& seg.fileid == fileid
                    &&& seg.write_offset == 0
                    &&& seg.stored_in(dir_path)
                    &&& S::opens_empty() ==> seg.contents().len() == 0
                },
                Err(e) => !S::infallible() && e is FialedToOpenFile,
            },
    {
        let name_bytes = segment_file_name(fileid);
        proof {
            crate::bitcask::naming::lemma_segment_name_ascii(fileid);
            lemma_ascii_valid_utf8(name_bytes@);
        }
        let file_name = string_from_utf8(name_bytes);
        let file_name = match file_name {
            Some(name) => name,
            None => {
                return Err(errors::FialedToOpenFile);
            },
        };
        let fileio = NewStore::<S>(dir_path, file_name)?;
        Ok(Semgent { fileid, write_offset: 0, file: fileio })
    }

    /// Makes what was written to the segment durable.
    #[allow(non_snake_case)]
    pub fn Sync(&self) -> (r: Result<()>)
        ensures
            r is Err ==> !S::infallible() && r->Err_0 is FailedTosyncFromFile,
    {
        self.file.Sync()
    }

    /// Reads the record stored at `offset`.
    #[allow(non_snake_case)]
    pub fn ReadRecord(&self, offset: u64) -> (r: Result<ReadRecordRes>)
        ensures
            r is Ok ==> self.contents().len() <= u64::MAX && offset + r->Ok_0.size <= self.contents().len(),
            match r {
                Ok(res) => read_record_at(self.contents(), offset as int) == Some(
                    (res.record.key@, res.record.value@, res.size as int),
                ),
                Err(e) => {
                    &&& e is FailedToReadFromFile
                    &&& S::infallible() ==> read_record_at(self.contents(), offset as int) is None
                },
            },
    {
        let ghost c = self.contents();
        let mut buf = zeroed(16);
        let size = self.file.Read(buf.as_mut_slice(), offset)?;
        if size != 16 {
            return Err(errors::FailedToReadFromFile);
        }
        assert(buf@ == filled(zeros(16), c, offset as int, 16));
        let key_size = read_be_u64(buf.as_slice(), 0);
        let value_size = read_be_u64(buf.as_slice(), 8);
        assert(key_size == from_be(c, offset as int));
        assert(value_size == from_be(c, offset + 8));
        if key_size > usize::MAX as u64 || value_size > usize::MAX as u64 {
            return Err(errors::FailedToReadFromFile);
        }
        let mut key_buf = zeroed(key_size as usize);
        let mut value_buf = zeroed(value_size as usize);
        let key_read = self.file.Read(key_buf.as_mut_slice(), offset + 16)?;
        let value_read = self.file.Read(value_buf.as_mut_slice(), offset + 16 + key_read as u64)?;
        let record = Record { key: key_buf, value: value_buf };
        let read_record_res = ReadRecordRes {
            record: record,
            size: 16 + key_read as u64 + value_read as u64,
        };
        Ok(read_record_res)
    }

    /// Appends `b` to the segment and returns how many bytes were written.
    #[allow(non_snake_case)]
    pub fn Append(&mut self, b: &[u8]) -> (r: Result<u64>)
        requires
            old(self).write_offset + b@.len() <= u64::MAX,
        ensures
            final(self).fileid == old(self).fileid,
            final(self).file.dir() == old(self).file.dir(),
            final(self).file.name() == old(self).file.name(),
            match r {
                Ok(n) => {
                    &&& n == b@.len()
                    &&& final(self).contents() == old(self).contents() + b@
                    &&& final(self).write_offset == old(self).write_offset + n
                },
                Err(e) => {
                    &&& !S::infallible()
                    &&& e is FailedToWriteFromFile
                    &&& final(self).write_offset == old(self).write_offset
                    &&& extends(old(self).contents(), final(self).contents())
                },
            },
    {
        let size = self.file.Write(b)?;
        self.write_offset = self.write_offset + size as u64;
        Ok(size as u64)
    }
}

} // verus!
