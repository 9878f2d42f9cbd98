//! The sized-string codec: a length-prefixed UTF-8 string, the building
//! block for tag keys, tag values and entry paths in the archive header.
//!
//! The encoded form is an 8-byte little-endian byte length followed by that
//! many UTF-8 bytes. Decoding a field whose bytes are not valid UTF-8 fails
//! soft: it yields the empty string and the cursor still moves past the
//! field, so the fields after it can still be read.

use vstd::prelude::*;
use vstd::bytes::*;
use vstd::utf8::*;
use vstd::string::*;
use vstd::slice::*;

verus! {

/// The encoded form of a sized string: an 8-byte little-endian byte length
/// followed by the UTF-8 bytes of the string.
pub open spec fn spec_sized_string(s: Seq<char>) -> Seq<u8> {
    spec_u64_to_le_bytes(encode_utf8(s).len() as u64) + encode_utf8(s)
}

/// What decoding a sized string at position `i` of `b` yields: the string
/// and the position just past the field, or `None` when `b` is too short
/// for the length field or for the bytes it announces. Content bytes that
/// are not valid UTF-8 decode to the empty string.
pub open spec fn spec_parse_sized_string(b: Seq<u8>, i: int) -> Option<(Seq<char>, int)> {
    if i < 0 || i + 8 > b.len() {
        None
    } else {
        let len = spec_u64_from_le_bytes(b.subrange(i, i + 8)) as int;
        if i + 8 + len > b.len() {
            None
        } else {
            let content = b.subrange(i + 8, i + 8 + len);
            if valid_utf8(content) {
                Some((decode_utf8(content), i + 8 + len))
            } else {
                Some((Seq::empty(), i + 8 + len))
            }
        }
    }
}

/// Relies on String::from_utf8: it returns the string holding exactly the
/// given bytes when they are valid UTF-8, and rejects them otherwise.
#[verifier::external_body]
pub(crate) fn string_from_utf8(bytes: Vec<u8>) -> (r: Option<String>)
    ensures
        r is Some <==> valid_utf8(bytes@),
        r matches Some(s) ==> s@ == decode_utf8(bytes@),
{
    String::from_utf8(bytes).ok()
}

/// Encodes `string` as a sized string: its byte length as a little-endian
/// u64, then its UTF-8 bytes.
pub fn sized_bit_string(string: &String) -> (r: Vec<u8>)
    ensures
        r@ == spec_sized_string(string@),
{
    let mut content = string.as_str().as_bytes_vec();
    let n: usize = content.len();
    let mut buffer = u64_to_le_bytes(n as u64);
    buffer.append(&mut content);
    proof {
        assert(buffer@ =~= spec_sized_string(string@));
    }
    buffer
}

/// Decodes a sized string from `buffer` at `*index` and advances `*index`
/// past the field. The caller must have checked that the buffer reaches at
/// least to the end of the field; content bytes that are not valid UTF-8
/// yield the empty string, and the cursor still advances.
pub fn read_sized_bit_string(buffer: &Vec<u8>, index: &mut usize) -> (r: String)
    requires
        spec_parse_sized_string(buffer@, *old(index) as int) is Some,
    ensures
        spec_parse_sized_string(buffer@, *old(index) as int) == Some((r@, *final(index) as int)),
{
    let i = *index;
    let total = buffer.len();
    let len_slice = slice_subrange(buffer.as_slice(), i, i + 8);
    let len = u64_from_le_bytes(len_slice);
    proof {
        // The whole field lies inside the buffer, so its length fits a
        // machine word.
        assert(i + 8 + len <= total);
    }
    let len_usize = len as usize;
    let content = slice_to_vec(slice_subrange(buffer.as_slice(), i + 8, i + 8 + len_usize));
    *index = i + 8 + len_usize;
    match string_from_utf8(content) {
        Some(s) => s,
        None => String::new(),
    }
}

/// Law: decoding an encoded sized string yields the original string, from
/// any position of any buffer that holds the encoded bytes there.
pub proof fn lemma_sized_string_round_trip(s: Seq<char>, b: Seq<u8>, i: int)
    requires
        encode_utf8(s).len() <= u64::MAX,
        0 <= i,
        i + spec_sized_string(s).len() <= b.len(),
        b.subrange(i, i + spec_sized_string(s).len() as int) == spec_sized_string(s),
    ensures
        spec_parse_sized_string(b, i) == Some((s, i + spec_sized_string(s).len() as int)),
{
    broadcast use encode_utf8_valid_utf8, encode_utf8_decode_utf8;

    lemma_auto_spec_u64_to_from_le_bytes();
    let enc = encode_utf8(s);
    let n = enc.len() as int;
    assert(spec_sized_string(s).len() == 8 + n);
    assert(b.subrange(i, i + 8) =~= spec_sized_string(s).subrange(0, 8));
    assert(spec_sized_string(s).subrange(0, 8) =~= spec_u64_to_le_bytes(enc.len() as u64));
    assert(spec_u64_from_le_bytes(b.subrange(i, i + 8)) == enc.len() as u64);
    assert(b.subrange(i + 8, i + 8 + n) =~= spec_sized_string(s).subrange(8, 8 + n));
    assert(spec_sized_string(s).subrange(8, 8 + n) =~= enc);
    assert(decode_utf8(enc) == s);
}

} // verus!
