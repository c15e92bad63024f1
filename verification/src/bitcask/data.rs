//! On-disk record format: an eight-byte big-endian key length, an eight-byte
//! big-endian value length, then the key bytes and the value bytes.
use vstd::prelude::*;

verus! {

/// Size of the fixed header that precedes every record.
pub const HEADER_SIZE: u64 = 16;

/// Big-endian encoding of a `u64` into eight bytes, most significant first.
pub open spec fn be_bytes(x: u64) -> Seq<u8> {
    seq![
        ((x >> 56u64) & 0xffu64) as u8,
        ((x >> 48u64) & 0xffu64) as u8,
        ((x >> 40u64) & 0xffu64) as u8,
        ((x >> 32u64) & 0xffu64) as u8,
        ((x >> 24u64) & 0xffu64) as u8,
        ((x >> 16u64) & 0xffu64) as u8,
        ((x >> 8u64) & 0xffu64) as u8,
        (x & 0xffu64) as u8,
    ]
}

/// The `u64` whose big-endian encoding is the eight bytes of `s` starting at `at`.
pub open spec fn from_be(s: Seq<u8>, at: int) -> u64 {
    (s[at] as u64) << 56u64 | (s[at + 1] as u64) << 48u64 | (s[at + 2] as u64) << 40u64 | (s[at
        + 3] as u64) << 32u64 | (s[at + 4] as u64) << 24u64 | (s[at + 5] as u64) << 16u64 | (s[at
        + 6] as u64) << 8u64 | (s[at + 7] as u64)
}

/// Reading back the big-endian encoding of a number gives the number.
pub proof fn lemma_from_be_of_be_bytes(x: u64, s: Seq<u8>, at: int)
    requires
        0 <= at,
        at + 8 <= s.len(),
        s.subrange(at, at + 8) == be_bytes(x),
    ensures
        from_be(s, at) == x,
{
    let b = be_bytes(x);
    assert(s[at] == b[0] && s[at + 1] == b[1] && s[at + 2] == b[2] && s[at + 3] == b[3] && s[at
        + 4] == b[4] && s[at + 5] == b[5] && s[at + 6] == b[6] && s[at + 7] == b[7]) by {
        assert(s.subrange(at, at + 8)[0] == s[at]);
        assert(s.subrange(at, at + 8)[1] == s[at + 1]);
        assert(s.subrange(at, at + 8)[2] == s[at + 2]);
        assert(s.subrange(at, at + 8)[3] == s[at + 3]);
        assert(s.subrange(at, at + 8)[4] == s[at + 4]);
        assert(s.subrange(at, at + 8)[5] == s[at + 5]);
        assert(s.subrange(at, at + 8)[6] == s[at + 6]);
        assert(s.subrange(at, at + 8)[7] == s[at + 7]);
    }
    assert((((x >> 56u64) & 0xffu64) as u8 as u64) << 56u64 | (((x >> 48u64) & 0xffu64) as u8
        as u64) << 48u64 | (((x >> 40u64) & 0xffu64) as u8 as u64) << 40u64 | (((x >> 32u64)
        & 0xffu64) as u8 as u64) << 32u64 | (((x >> 24u64) & 0xffu64) as u8 as u64) << 24u64 | (((x
        >> 16u64) & 0xffu64) as u8 as u64) << 16u64 | (((x >> 8u64) & 0xffu64) as u8 as u64)
        << 8u64 | ((x & 0xffu64) as u8 as u64) == x) by (bit_vector);
}

/// Appends the big-endian encoding of `x` to `out`.
pub fn push_be_u64(out: &mut Vec<u8>, x: u64)
    ensures
        final(out)@ == old(out)@ + be_bytes(x),
{
    out.push(((x >> 56u64) & 0xffu64) as u8);
    out.push(((x >> 48u64) & 0xffu64) as u8);
    out.push(((x >> 40u64) & 0xffu64) as u8);
    out.push(((x >> 32u64) & 0xffu64) as u8);
    out.push(((x >> 24u64) & 0xffu64) as u8);
    out.push(((x >> 16u64) & 0xffu64) as u8);
    out.push(((x >> 8u64) & 0xffu64) as u8);
    out.push((x & 0xffu64) as u8);
    assert(out@ =~= old(out)@ + be_bytes(x));
}

/// Reads the big-endian `u64` stored in `s[at..at + 8]`.
pub fn read_be_u64(s: &[u8], at: usize) -> (x: u64)
    requires
        at + 8 <= s@.len(),
    ensures
        x == from_be(s@, at as int),
{
    (s[at] as u64) << 56u64 | (s[at + 1] as u64) << 48u64 | (s[at + 2] as u64) << 40u64 | (s[at
        + 3] as u64) << 32u64 | (s[at + 4] as u64) << 24u64 | (s[at + 5] as u64) << 16u64 | (s[at
        + 6] as u64) << 8u64 | (s[at + 7] as u64)
}

/// Appends all of `src` to `out`.
pub fn append_bytes(out: &mut Vec<u8>, src: &[u8])
    ensures
        final(out)@ == old(out)@ + src@,
{
    let mut i: usize = 0;
    while i < src.len()
        invariant
            i <= src@.len(),
            out@ == old(out)@ + src@.subrange(0, i as int),
        decreases src@.len() - i,
    {
        out.push(src[i]);
        i = i + 1;
        assert(out@ =~= old(out)@ + src@.subrange(0, i as int));
    }
    assert(src@.subrange(0, src@.len() as int) =~= src@);
}

/// A copy of `src[start..end]`.
pub fn copy_range(src: &[u8], start: usize, end: usize) -> (out: Vec<u8>)
    requires
        start <= end <= src@.len(),
    ensures
        out@ == src@.subrange(start as int, end as int),
{
    let mut out: Vec<u8> = Vec::new();
    let mut i: usize = start;
    while i < end
        invariant
            start <= i <= end,
            end <= src@.len(),
            out@ == src@.subrange(start as int, i as int),
        decreases end - i,
    {
        out.push(src[i]);
        i = i + 1;
        assert(out@ =~= src@.subrange(start as int, i as int));
    }
    out
}

/// The bytes that represent a record with this key and value.
pub open spec fn encode_record(key: Seq<u8>, value: Seq<u8>) -> Seq<u8> {
    be_bytes(key.len() as u64) + be_bytes(value.len() as u64) + key + value
}

/// Whether `bytes` starts with a whole record: a header and as many key and
/// value bytes as the header announces.
pub open spec fn holds_record(bytes: Seq<u8>) -> bool {
    &&& bytes.len() >= HEADER_SIZE
    &&& HEADER_SIZE + from_be(bytes, 0) + from_be(bytes, 8) <= bytes.len()
}

/// Key of the record at the start of `bytes`.
pub open spec fn decoded_key(bytes: Seq<u8>) -> Seq<u8> {
    bytes.subrange(HEADER_SIZE as int, HEADER_SIZE + from_be(bytes, 0))
}

/// Value of the record at the start of `bytes`.
pub open spec fn decoded_value(bytes: Seq<u8>) -> Seq<u8> {
    let k = HEADER_SIZE + from_be(bytes, 0);
    bytes.subrange(k, k + from_be(bytes, 8))
}

/// A key/value pair as it is stored in a segment.
#[derive(Debug, Clone, Default)]
pub struct Record {
    pub key: Vec<u8>,
    pub value: Vec<u8>,
}

impl Record {
    /// The record in its stored form.
    #[allow(non_snake_case)]
    pub fn Bytes(&self) -> (bytes: Vec<u8>)
        ensures
            bytes@ == encode_record(self.key@, self.value@),
    {
        let mut bytes: Vec<u8> = Vec::new();
        push_be_u64(&mut bytes, self.key.len() as u64);
        push_be_u64(&mut bytes, self.value.len() as u64);
        append_bytes(&mut bytes, self.key.as_slice());
        append_bytes(&mut bytes, self.value.as_slice());
        bytes
    }

    /// Reads the record stored at the start of `bytes`.
    pub fn from_bytes(bytes: &[u8]) -> (r: Record)
        requires
            holds_record(bytes@),
        ensures
            r.key@ == decoded_key(bytes@),
            r.value@ == decoded_value(bytes@),
    {
        let keylen = read_be_u64(bytes, 0);
        let valuelen = read_be_u64(bytes, 8);
        let n = bytes.len();
        assert(n == bytes@.len());
        let kend = 16 + keylen as usize;
        let vend = kend + valuelen as usize;
        let key = copy_range(bytes, 16, kend);
        let value = copy_range(bytes, kend, vend);
        Record { key, value }
    }
}

/// Reading back the stored form of a record gives the record.
pub proof fn lemma_decode_encode(key: Seq<u8>, value: Seq<u8>)
    requires
        key.len() <= u64::MAX,
        value.len() <= u64::MAX,
    ensures
        holds_record(encode_record(key, value)),
        decoded_key(encode_record(key, value)) == key,
        decoded_value(encode_record(key, value)) == value,
{
    let b = encode_record(key, value);
    let kl = key.len() as u64;
    let vl = value.len() as u64;
    assert(b.subrange(0, 8) =~= be_bytes(kl));
    assert(b.subrange(8, 16) =~= be_bytes(vl));
    lemma_from_be_of_be_bytes(kl, b, 0);
    lemma_from_be_of_be_bytes(vl, b, 8);
    assert(decoded_key(b) =~= key);
    assert(decoded_value(b) =~= value);
}

/// Bytes after a whole record do not change what is decoded from it.
pub proof fn lemma_decode_prefix(s: Seq<u8>, extra: Seq<u8>)
    requires
        holds_record(s),
    ensures
        holds_record(s + extra),
        decoded_key(s + extra) == decoded_key(s),
        decoded_value(s + extra) == decoded_value(s),
{
    let t = s + extra;
    assert(from_be(t, 0) == from_be(s, 0));
    assert(from_be(t, 8) == from_be(s, 8));
    assert(decoded_key(t) =~= decoded_key(s));
    assert(decoded_value(t) =~= decoded_value(s));
}

/// Where a record lives: the segment it was written to and its byte offset there.
#[derive(Debug, Clone, Copy, PartialEq, Eq)]
pub struct RecordPos {
    pub fid: u32,
    pub offset: u64,
}

/// A record read from a segment together with the number of bytes it took.
#[derive(Debug, Clone, Default)]
pub struct ReadRecordRes {
    pub record: Record,
    pub size: u64,
}

} // verus!
