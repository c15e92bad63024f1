//! Segment file names: the decimal id of the segment followed by `.store`.
use vstd::prelude::*;

verus! {

/// Decimal digits of `n`, most significant first, as ASCII bytes.
pub open spec fn decimal(n: nat) -> Seq<u8>
    decreases n,
{
    if n < 10 {
        seq![(48 + n) as u8]
    } else {
        decimal(n / 10).push((48 + n % 10) as u8)
    }
}

/// The bytes of `.store`.
pub open spec fn store_suffix() -> Seq<u8> {
    seq![46u8, 115u8, 116u8, 111u8, 114u8, 101u8]
}

/// The name of the file that holds segment `fid`.
pub open spec fn segment_name(fid: u32) -> Seq<u8> {
    decimal(fid as nat) + store_suffix()
}

/// `s` with every trailing `.store` removed.
pub open spec fn trim_store(s: Seq<u8>) -> Seq<u8>
    decreases s.len(),
{
    if s.len() >= 6 && s.subrange(s.len() - 6, s.len() as int) == store_suffix() {
        trim_store(s.subrange(0, s.len() - 6))
    } else {
        s
    }
}

pub open spec fn is_digit(b: u8) -> bool {
    48 <= b <= 57
}

pub open spec fn all_digits(s: Seq<u8>) -> bool {
    forall|i: int| 0 <= i < s.len() ==> is_digit(#[trigger] s[i])
}

/// The number that the decimal digits `s` denote.
pub open spec fn digits_value(s: Seq<u8>) -> nat
    decreases s.len(),
{
    if s.len() == 0 {
        0
    } else {
        digits_value(s.drop_last()) * 10 + (s.last() - 48) as nat
    }
}

/// How a `u32` is read from text: an optional `+`, then at least one decimal
/// digit, and no more than fits in a `u32`.
pub open spec fn parse_u32(s: Seq<u8>) -> Option<u32> {
    let digits = if s.len() > 0 && s[0] == 43u8 {
        s.drop_first()
    } else {
        s
    };
    if s.len() == 0 || digits.len() == 0 || !all_digits(digits) || digits_value(digits)
        > u32::MAX {
        None
    } else {
        Some(digits_value(digits) as u32)
    }
}

/// The segment id named by a file name, if it names one.
pub open spec fn segment_id_of(name: Seq<u8>) -> Option<u32> {
    parse_u32(trim_store(name))
}

pub proof fn lemma_decimal_shape(n: nat)
    ensures
        decimal(n).len() >= 1,
        all_digits(decimal(n)),
        digits_value(decimal(n)) == n,
    decreases n,
{
    if n >= 10 {
        lemma_decimal_shape(n / 10);
        let d = decimal(n);
        assert(d.drop_last() =~= decimal(n / 10));
        assert forall|i: int| 0 <= i < d.len() implies is_digit(#[trigger] d[i]) by {
            if i < d.len() - 1 {
                assert(d[i] == decimal(n / 10)[i]);
            }
        }
        assert(d.last() == (48 + n % 10) as u8);
        assert(digits_value(d) == digits_value(decimal(n / 10)) * 10 + (n % 10));
    } else {
        let d = decimal(n);
        assert(d.drop_last() =~= Seq::<u8>::empty());
        assert(digits_value(Seq::<u8>::empty()) == 0);
        assert(digits_value(d) == digits_value(d.drop_last()) * 10 + (d.last() - 48) as nat);
    }
}

proof fn lemma_digits_value_prefix_mono(s: Seq<u8>, j: int)
    requires
        0 <= j <= s.len(),
        all_digits(s),
    ensures
        digits_value(s.subrange(0, j)) <= digits_value(s),
    decreases s.len() - j,
{
    if j < s.len() {
        lemma_digits_value_prefix_mono(s, j + 1);
        let p = s.subrange(0, j + 1);
        assert(p.drop_last() =~= s.subrange(0, j));
        assert(is_digit(s[j]));
    } else {
        assert(s.subrange(0, j) =~= s);
    }
}

/// Reading back the name of a segment file gives the segment's id.
pub proof fn lemma_segment_name_round_trip(fid: u32)
    ensures
        segment_id_of(segment_name(fid)) == Some(fid),
{
    let d = decimal(fid as nat);
    let name = segment_name(fid);
    lemma_decimal_shape(fid as nat);
    assert(name.subrange(name.len() - 6, name.len() as int) =~= store_suffix());
    assert(name.subrange(0, name.len() - 6) =~= d);
    let last = d[d.len() - 1];
    assert(is_digit(last));
    if d.len() >= 6 {
        assert(d.subrange(d.len() - 6, d.len() as int)[5] == last);
        assert(d.subrange(d.len() - 6, d.len() as int) != store_suffix());
    }
    assert(trim_store(d) == d);
    assert(trim_store(name) == d);
    assert(d[0] != 43u8) by {
        assert(is_digit(d[0]));
    }
}

/// Segment file names are ASCII.
pub proof fn lemma_segment_name_ascii(fid: u32)
    ensures
        forall|i: int| 0 <= i < segment_name(fid).len() ==> segment_name(fid)[i] < 0x80,
{
    let d = decimal(fid as nat);
    lemma_decimal_shape(fid as nat);
    assert forall|i: int| 0 <= i < segment_name(fid).len() implies segment_name(fid)[i] < 0x80 by {
        if i < d.len() {
            assert(is_digit(d[i]));
        }
    }
}

/// Appends the decimal digits of `n` to `out`.
pub fn push_decimal(out: &mut Vec<u8>, n: u64)
    ensures
        final(out)@ == old(out)@ + decimal(n as nat),
    decreases n,
{
    if n >= 10 {
        push_decimal(out, n / 10);
    }
    out.push(48u8 + (n % 10) as u8);
    assert(out@ =~= old(out)@ + decimal(n as nat));
}

/// The file name of segment `fid`: its decimal id followed by `.store`.
pub fn segment_file_name(fid: u32) -> (name: Vec<u8>)
    ensures
        name@ == segment_name(fid),
{
    let mut name: Vec<u8> = Vec::new();
    push_decimal(&mut name, fid as u64);
    name.push(46u8);
    name.push(115u8);
    name.push(116u8);
    name.push(111u8);
    name.push(114u8);
    name.push(101u8);
    assert(name@ =~= segment_name(fid));
    name
}

fn ends_with_store(s: &[u8], len: usize) -> (b: bool)
    requires
        len <= s@.len(),
    ensures
        b == (len >= 6 && s@.subrange(len - 6, len as int) == store_suffix()),
{
    if len < 6 {
        return false;
    }
    let b = s[len - 6] == 46u8 && s[len - 5] == 115u8 && s[len - 4] == 116u8 && s[len - 3] == 111u8
        && s[len - 2] == 114u8 && s[len - 1] == 101u8;
    proof {
        let t = s@.subrange(len - 6, len as int);
        if b {
            assert(t =~= store_suffix());
        } else {
            assert(t[0] != 46u8 || t[1] != 115u8 || t[2] != 116u8 || t[3] != 111u8 || t[4] != 114u8
                || t[5] != 101u8);
        }
    }
    b
}

/// The id of the segment whose file is called `name`: every trailing
/// `.store` is removed and the rest is read as a `u32` (an optional `+` and
/// decimal digits). `None` when the rest is not such a number.
pub fn parse_segment_file_name(name: &[u8]) -> (r: Option<u32>)
    ensures
        r == segment_id_of(name@),
{
    let mut len: usize = name.len();
    assert(name@.subrange(0, len as int) =~= name@);
    while ends_with_store(name, len)
        invariant
            len <= name@.len(),
            trim_store(name@.subrange(0, len as int)) == trim_store(name@),
        decreases len,
    {
        proof {
            let s = name@.subrange(0, len as int);
            assert(s.subrange(s.len() - 6, s.len() as int) =~= name@.subrange(len - 6, len as int));
            assert(s.subrange(0, s.len() - 6) =~= name@.subrange(0, len - 6));
        }
        len = len - 6;
    }
    let ghost t = name@.subrange(0, len as int);
    proof {
        assert(name@.subrange(0, name@.len() as int) =~= name@);
        if t.len() >= 6 {
            assert(t.subrange(t.len() - 6, t.len() as int) =~= name@.subrange(len - 6, len as int));
        }
        assert(trim_store(t) == t);
        assert(trim_store(name@) == t);
    }
    if len == 0 {
        return None;
    }
    let start: usize = if name[0] == 43u8 {
        1
    } else {
        0
    };
    if start == len {
        return None;
    }
    assert(t[0] == name@[0]);
    let ghost digits = t.subrange(start as int, t.len() as int);
    assert(start == 1 ==> digits =~= t.drop_first());
    assert(start == 0 ==> digits =~= t);
    let mut acc: u64 = 0;
    let mut i: usize = start;
    while i < len
        invariant
            start <= i <= len,
            len <= name@.len(),
            t == name@.subrange(0, len as int),
            digits == t.subrange(start as int, len as int),
            segment_id_of(name@) == parse_u32(t),
            t.len() > 0,
            digits.len() > 0,
            digits == (if t.len() > 0 && t[0] == 43u8 { t.drop_first() } else { t }),
            all_digits(digits.subrange(0, i - start)),
            acc == digits_value(digits.subrange(0, i - start)),
            acc <= u32::MAX,
        decreases len - i,
    {
        let c = name[i];
        if c < 48u8 || c > 57u8 {
            assert(digits[i - start] == c);
            assert(!is_digit(digits[i - start]));
            assert(!all_digits(digits));
            return None;
        }
        let next = acc * 10 + (c - 48u8) as u64;
        proof {
            let p = digits.subrange(0, i + 1 - start);
            assert(p.drop_last() =~= digits.subrange(0, i - start));
            assert(p.last() == c);
            assert(all_digits(p));
            assert(digits_value(p) == next);
        }
        if next > 4294967295u64 {
            proof {
                if all_digits(digits) {
                    lemma_digits_value_prefix_mono(digits, i + 1 - start);
                }
            }
            return None;
        }
        acc = next;
        i = i + 1;
    }
    assert(digits.subrange(0, len - start) =~= digits);
    Some(acc as u32)
}

/// Whether `s` is in non-decreasing order.
pub open spec fn sorted_ids(s: Seq<u32>) -> bool {
    forall|i: int, j: int| 0 <= i <= j < s.len() ==> #[trigger] s[i] <= #[trigger] s[j]
}

/// Puts `x` into the sorted `out`, after any equal ids.
fn insert_sorted(out: &mut Vec<u32>, x: u32)
    requires
        sorted_ids(old(out)@),
    ensures
        sorted_ids(final(out)@),
        final(out)@.to_multiset() == old(out)@.to_multiset().insert(x),
{
    let mut p: usize = 0;
    while p < out.len() && out[p] <= x
        invariant
            p <= out@.len(),
            forall|j: int| 0 <= j < p ==> #[trigger] out@[j] <= x,
        decreases out@.len() - p,
    {
        p = p + 1;
    }
    let ghost before = out@;
    out.insert(p, x);
    proof {
        let s = out@;
        assert(s.remove(p as int) =~= before);
        s.to_multiset_ensures();
        assert(s[p as int] == x);
        assert(s.to_multiset().count(x) > 0) by {
            assert(s.contains(x));
        }
        assert(s.to_multiset() =~= before.to_multiset().insert(x));
        assert forall|i: int, j: int| 0 <= i <= j < s.len() implies #[trigger] s[i] <= #[trigger] s[j] by {
            let bi = if i < p { i } else { i - 1 };
            let bj = if j < p { j } else { j - 1 };
            if i < p && j > p {
                assert(before[bi] <= before[bj]);
            } else if i < p && j == p {
            } else if i == p && j > p {
                assert(!(before[p as int] <= x));
                assert(before[p as int] <= before[bj]);
            } else if i > p {
                assert(before[bi] <= before[bj]);
            } else if j < p {
                assert(before[bi] <= before[bj]);
            }
        }
    }
}

/// The ids of `ids` in non-decreasing order.
pub fn sort_ids(ids: &Vec<u32>) -> (out: Vec<u32>)
    ensures
        sorted_ids(out@),
        out@.to_multiset() == ids@.to_multiset(),
{
    let mut out: Vec<u32> = Vec::new();
    let mut i: usize = 0;
    proof {
        ids@.subrange(0, 0).to_multiset_ensures();
        assert(out@.to_multiset() =~= ids@.subrange(0, 0).to_multiset()) by {
            assert(out@ =~= ids@.subrange(0, 0));
        }
    }
    while i < ids.len()
        invariant
            i <= ids@.len(),
            sorted_ids(out@),
            out@.to_multiset() == ids@.subrange(0, i as int).to_multiset(),
        decreases ids@.len() - i,
    {
        insert_sorted(&mut out, ids[i]);
        proof {
            let pre = ids@.subrange(0, i as int);
            assert(ids@.subrange(0, i + 1) =~= pre.push(ids@[i as int]));
            pre.to_multiset_ensures();
        }
        i = i + 1;
    }
    assert(ids@.subrange(0, ids@.len() as int) =~= ids@);
    out
}

} // verus!
