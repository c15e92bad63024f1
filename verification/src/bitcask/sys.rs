//! The few standard-library calls the engine makes on strings and paths.
use vstd::prelude::*;
use vstd::utf8::*;

verus! {

/// `String::from_utf8`: the string whose UTF-8 encoding is `bytes`, or
/// `None` when `bytes` is not valid UTF-8 (the documented behaviour).
#[verifier::external_body]
pub(crate) fn string_from_utf8(bytes: Vec<u8>) -> (r: Option<String>)
    ensures
        r is Some <==> valid_utf8(bytes@),
        r matches Some(s) ==> encode_utf8(s@) == bytes@,
{
    String::from_utf8(bytes).ok()
}

/// The UTF-8 encoding of a string, as bytes.
pub(crate) fn string_bytes(s: &String) -> (b: Vec<u8>)
    ensures
        b@ == encode_utf8(s@),
{
    let bytes = s.as_str().as_bytes();
    crate::bitcask::data::copy_range(bytes, 0, bytes.len())
}

/// ASCII bytes are valid UTF-8.
pub proof fn lemma_ascii_valid_utf8(b: Seq<u8>)
    requires
        forall|i: int| 0 <= i < b.len() ==> b[i] < 0x80,
    ensures
        valid_utf8(b),
    decreases b.len(),
{
    if b.len() != 0 {
        assert(is_leading_byte_width_1(b[0]));
        assert(valid_first_scalar(b));
        let rest = pop_first_scalar(b);
        assert(rest =~= b.subrange(1, b.len() as int));
        lemma_ascii_valid_utf8(rest);
    }
}

} // verus!
