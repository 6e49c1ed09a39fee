//! The shared encoding layer: length-prefixed UTF-8 string fields.
//!
//! Every record and every wire message is a tag byte followed by string
//! fields. A field carries eight little-endian length bytes and then the
//! UTF-8 encoding of the characters, so a stream of fields is self-delimiting
//! and a decoder always knows the exact byte span each value occupies.
use vstd::prelude::*;

verus! {

use vstd::bytes::{
    lemma_auto_spec_u64_to_from_le_bytes,
    spec_u64_from_le_bytes,
    spec_u64_to_le_bytes,
    u64_from_le_bytes,
    u64_to_le_bytes,
};
use vstd::slice::{slice_subrange, slice_to_vec};
use vstd::string::StrSliceExecFns;
use vstd::utf8::{
    decode_utf8,
    decode_utf8_encode_utf8,
    encode_utf8,
    encode_utf8_decode_utf8,
    encode_utf8_valid_utf8,
    valid_utf8,
};

/// One past the largest value the eight length bytes of a field can carry.
pub open spec fn field_len_limit() -> int {
    0x1_0000_0000_0000_0000
}

/// True when the UTF-8 encoding of `s` is short enough for its length to fit
/// in the eight length bytes of a field.
pub open spec fn fits_field(s: Seq<char>) -> bool {
    encode_utf8(s).len() < field_len_limit()
}

/// The bytes of one string field: eight little-endian length bytes followed
/// by the UTF-8 encoding of the characters.
pub open spec fn str_field(s: Seq<char>) -> Seq<u8> {
    spec_u64_to_le_bytes(encode_utf8(s).len() as u64) + encode_utf8(s)
}

/// One decoding step for a string field at `pos` in `data`: read the length,
/// take that many bytes, and decode them as UTF-8. `None` when the buffer is
/// too short or the bytes are not UTF-8.
pub open spec fn str_field_decode(data: Seq<u8>, pos: int) -> Option<(Seq<char>, int)> {
    if pos < 0 || pos + 8 > data.len() {
        None
    } else {
        let n = spec_u64_from_le_bytes(data.subrange(pos, pos + 8)) as int;
        if pos + 8 + n > data.len() {
            None
        } else {
            let b = data.subrange(pos + 8, pos + 8 + n);
            if valid_utf8(b) {
                Some((decode_utf8(b), pos + 8 + n))
            } else {
                None
            }
        }
    }
}

/// A decoded field ends after its length bytes and within the buffer.
pub proof fn lemma_str_field_decode_bounds(data: Seq<u8>, pos: int)
    requires
        str_field_decode(data, pos) is Some,
    ensures
        pos + 8 <= str_field_decode(data, pos)->Some_0.1 <= data.len(),
{
}

/// Decoding at the position where an encoded field was laid down yields the
/// field's characters and stops exactly at the field's last byte.
pub proof fn lemma_str_field_encode_decode(data: Seq<u8>, pos: int, s: Seq<char>)
    requires
        fits_field(s),
        0 <= pos,
        pos + str_field(s).len() <= data.len(),
        data.subrange(pos, pos + str_field(s).len() as int) == str_field(s),
    ensures
        str_field_decode(data, pos) == Some((s, pos + str_field(s).len() as int)),
{
    lemma_auto_spec_u64_to_from_le_bytes();
    let eb = encode_utf8(s);
    let lenb = spec_u64_to_le_bytes(eb.len() as u64);
    assert(lenb.len() == 8);
    assert(data.subrange(pos, pos + 8) =~= str_field(s).subrange(0, 8));
    assert(str_field(s).subrange(0, 8) =~= lenb);
    assert(spec_u64_from_le_bytes(data.subrange(pos, pos + 8)) == eb.len());
    assert(data.subrange(pos + 8, pos + 8 + eb.len() as int) =~= str_field(s).subrange(
        8,
        str_field(s).len() as int,
    ));
    assert(str_field(s).subrange(8, str_field(s).len() as int) =~= eb);
    encode_utf8_valid_utf8(s);
    encode_utf8_decode_utf8(s);
}

/// Whatever a successful field decode returns is canonical: the consumed
/// span is exactly the encoding of the returned characters, and they fit.
pub proof fn lemma_str_field_decode_canonical(data: Seq<u8>, pos: int)
    requires
        str_field_decode(data, pos) is Some,
    ensures
        ({
            let (s, end) = str_field_decode(data, pos)->Some_0;
            &&& pos + 8 <= end <= data.len()
            &&& fits_field(s)
            &&& data.subrange(pos, end) == str_field(s)
        }),
{
    lemma_auto_spec_u64_to_from_le_bytes();
    let n = spec_u64_from_le_bytes(data.subrange(pos, pos + 8)) as int;
    let b = data.subrange(pos + 8, pos + 8 + n);
    let s = decode_utf8(b);
    decode_utf8_encode_utf8(b);
    assert(encode_utf8(s) == b);
    assert(spec_u64_to_le_bytes(spec_u64_from_le_bytes(data.subrange(pos, pos + 8)))
        == data.subrange(pos, pos + 8));
    assert(data.subrange(pos, pos + 8 + n) =~= data.subrange(pos, pos + 8) + b);
    assert(data.subrange(pos, pos + 8 + n) =~= str_field(s));
}

/// Appending bytes after a decodable field does not change what it decodes to.
pub proof fn lemma_str_field_decode_prefix(data: Seq<u8>, ext: Seq<u8>, pos: int)
    requires
        str_field_decode(data, pos) is Some,
    ensures
        str_field_decode(data + ext, pos) == str_field_decode(data, pos),
{
    let (s, end) = str_field_decode(data, pos)->Some_0;
    lemma_str_field_decode_canonical(data, pos);
    assert((data + ext).subrange(pos, end) =~= data.subrange(pos, end));
    assert(end - pos == str_field(s).len());
    lemma_str_field_encode_decode(data + ext, pos, s);
}

/// Outcome of one decoding step on a buffer: a complete value together with
/// the position just after it, a buffer that ends too early, or bytes that
/// cannot decode no matter what follows.
pub enum DecodeStep<T> {
    Done(T, usize),
    Incomplete,
    Invalid,
}

/// Relies on `String::from_utf8`: it returns `Ok` exactly when the bytes are
/// valid UTF-8, and then the string whose UTF-8 encoding is those bytes.
#[verifier::external_body]
fn string_from_utf8(bytes: Vec<u8>) -> (r: Option<String>)
    ensures
        r is Some <==> valid_utf8(bytes@),
        r matches Some(s) ==> s@ == decode_utf8(bytes@),
{
    String::from_utf8(bytes).ok()
}

/// Append the field for `s` to `out`.
pub fn encode_str(out: &mut Vec<u8>, s: &str)
    ensures
        final(out)@ == old(out)@ + str_field(s@),
        fits_field(s@),
{
    let b: Vec<u8> = s.as_bytes_vec();
    let mut lenb: Vec<u8> = u64_to_le_bytes(b.len() as u64);
    let mut body = b;
    out.append(&mut lenb);
    out.append(&mut body);
    assert(out@ =~= old(out)@ + str_field(s@));
}

/// Decode one field from `data` at `pos`.
pub fn decode_str(data: &Vec<u8>, pos: usize) -> (r: DecodeStep<String>)
    ensures
        r matches DecodeStep::Done(s, end) ==> str_field_decode(data@, pos as int) == Some(
            (s@, end as int),
        ),
        r is Incomplete ==> str_field_decode(data@, pos as int) is None,
        r is Invalid ==> str_field_decode(data@, pos as int) is None,
{
    if pos >= data.len() || data.len() - pos < 8 {
        return DecodeStep::Incomplete;
    }
    let lenb: &[u8] = slice_subrange(data.as_slice(), pos, pos + 8);
    let n: u64 = u64_from_le_bytes(lenb);
    let after: usize = pos + 8;
    let rem: usize = data.len() - after;
    if n > rem as u64 {
        return DecodeStep::Incomplete;
    }
    let nn: usize = n as usize;
    let fieldb: Vec<u8> = slice_to_vec(slice_subrange(data.as_slice(), after, after + nn));
    match string_from_utf8(fieldb) {
        Some(s) => DecodeStep::Done(s, after + nn),
        None => DecodeStep::Invalid,
    }
}

/// Copy a byte vector; the engine hands the same record bytes to its log and
/// to its caller.
pub fn clone_bytes(v: &Vec<u8>) -> (r: Vec<u8>)
    ensures
        r@ == v@,
{
    slice_to_vec(v.as_slice())
}

} // verus!
