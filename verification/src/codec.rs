use vstd::prelude::*;

use vstd::string::StringSliceAdditionalSpecFns;
use vstd::utf8::{decode_utf8, encode_utf8, valid_utf8};

use crate::errors::FumError;

verus! {

/// The four big-endian (network order) bytes of a 32-bit value.
pub open spec fn u32_to_be(x: u32) -> Seq<u8> {
    seq![
        ((x >> 24) & 0xff) as u8,
        ((x >> 16) & 0xff) as u8,
        ((x >> 8) & 0xff) as u8,
        (x & 0xff) as u8,
    ]
}

/// The 32-bit value four big-endian bytes spell.
pub open spec fn be_to_u32(s: Seq<u8>) -> u32
    recommends
        s.len() == 4,
{
    ((s[0] as u32) << 24) | ((s[1] as u32) << 16) | ((s[2] as u32) << 8) | (s[3] as u32)
}

/// A length-prefixed byte blob: a `u32` length, then that many raw bytes.
pub open spec fn bytes_frame(data: Seq<u8>) -> Seq<u8>
    recommends
        data.len() <= u32::MAX,
{
    u32_to_be(data.len() as u32) + data
}

/// A string frame: a byte blob holding the string's UTF-8 encoding.
pub open spec fn string_frame(s: Seq<char>) -> Seq<u8>
    recommends
        encode_utf8(s).len() <= u32::MAX,
{
    bytes_frame(encode_utf8(s))
}

/// Decoding a `u32` at `pos`: the value and the position after it, or
/// nothing on a short buffer.
pub open spec fn dec_u32_at(buf: Seq<u8>, pos: int) -> Option<(u32, int)> {
    if 0 <= pos && pos + 4 <= buf.len() {
        Some((be_to_u32(buf.subrange(pos, pos + 4)), pos + 4))
    } else {
        None
    }
}

/// Decoding a byte blob at `pos`: the content and the position after it,
/// or nothing on a short buffer.
pub open spec fn dec_bytes_at(buf: Seq<u8>, pos: int) -> Option<(Seq<u8>, int)> {
    match dec_u32_at(buf, pos) {
        Option::None => None,
        Option::Some((n, p)) => if p + n <= buf.len() {
            Some((buf.subrange(p, p + n), p + n))
        } else {
            None
        },
    }
}

/// Decoding a string frame at `pos`: a short buffer is a
/// [`FumError::Connection`], content that is not valid UTF-8 a
/// [`FumError::Encoding`].
pub open spec fn dec_string_at(buf: Seq<u8>, pos: int) -> Result<(Seq<char>, int), FumError> {
    match dec_bytes_at(buf, pos) {
        Option::None => Err(FumError::Connection),
        Option::Some((content, p)) => if valid_utf8(content) {
            Ok((decode_utf8(content), p))
        } else {
            Err(FumError::Encoding)
        },
    }
}

/// Append the big-endian encoding of `value`.
pub fn encode_u32(value: u32, out: &mut Vec<u8>)
    ensures
        final(out)@ == old(out)@ + u32_to_be(value),
{
    proof {
        assert((value >> 24) & 0xff <= 0xff && (value >> 16) & 0xff <= 0xff && (value >> 8) & 0xff
            <= 0xff && value & 0xff <= 0xff) by (bit_vector);
    }
    out.push(((value >> 24) & 0xff) as u8);
    out.push(((value >> 16) & 0xff) as u8);
    out.push(((value >> 8) & 0xff) as u8);
    out.push((value & 0xff) as u8);
    proof {
        assert(out@ =~= old(out)@ + u32_to_be(value));
    }
}

/// Decode a `u32` at `pos`; a short buffer is a
/// [`FumError::Connection`].
pub fn decode_u32(buf: &Vec<u8>, pos: usize) -> (r: Result<(u32, usize), FumError>)
    ensures
        dec_u32_at(buf@, pos as int) matches Some(v) ==> (r matches Ok(o) && o.0 == v.0 && o.1
            as int == v.1),
        dec_u32_at(buf@, pos as int) is None ==> r == Err::<(u32, usize), FumError>(
            FumError::Connection,
        ),
{
    if buf.len() < 4 || pos > buf.len() - 4 {
        return Err(FumError::Connection);
    }
    let b0 = buf[pos];
    let b1 = buf[pos + 1];
    let b2 = buf[pos + 2];
    let b3 = buf[pos + 3];
    let value = ((b0 as u32) << 24) | ((b1 as u32) << 16) | ((b2 as u32) << 8) | (b3 as u32);
    proof {
        let w = buf@.subrange(pos as int, pos as int + 4);
        assert(w[0] == b0 && w[1] == b1 && w[2] == b2 && w[3] == b3);
    }
    Ok((value, pos + 4))
}

/// Append a length-prefixed byte blob.
pub fn encode_bytes(data: &[u8], out: &mut Vec<u8>)
    requires
        data@.len() <= u32::MAX,
    ensures
        final(out)@ == old(out)@ + bytes_frame(data@),
{
    encode_u32(data.len() as u32, out);
    let mut j: usize = 0;
    while j < data.len()
        invariant
            j <= data@.len(),
            out@ == old(out)@ + u32_to_be(data@.len() as u32) + data@.take(j as int),
        decreases data@.len() - j,
    {
        out.push(data[j]);
        proof {
            assert(out@ =~= old(out)@ + u32_to_be(data@.len() as u32) + data@.take(j + 1));
        }
        j = j + 1;
    }
    proof {
        assert(out@ =~= old(out)@ + bytes_frame(data@));
    }
}

/// Decode a byte blob at `pos`; a short buffer is a
/// [`FumError::Connection`].
pub fn decode_bytes(buf: &Vec<u8>, pos: usize) -> (r: Result<(Vec<u8>, usize), FumError>)
    ensures
        dec_bytes_at(buf@, pos as int) matches Some(v) ==> (r matches Ok(o) && o.0@ == v.0 && o.1
            as int == v.1),
        dec_bytes_at(buf@, pos as int) is None ==> r == Err::<(Vec<u8>, usize), FumError>(
            FumError::Connection,
        ),
{
    let (n, p) = match decode_u32(buf, pos) {
        Ok(o) => o,
        Err(e) => {
            return Err(e);
        },
    };
    if n as usize > buf.len() - p {
        return Err(FumError::Connection);
    }
    let end = p + n as usize;
    let content = vstd::slice::slice_to_vec(vstd::slice::slice_subrange(buf.as_slice(), p, end));
    Ok((content, end))
}

/// Append a string frame: the string's UTF-8 bytes, length-prefixed.
pub fn encode_string(s: &str, out: &mut Vec<u8>)
    requires
        encode_utf8(s@).len() <= u32::MAX,
    ensures
        final(out)@ == old(out)@ + string_frame(s@),
{
    let bytes = s.as_bytes();
    encode_bytes(bytes, out);
}

/// Relies on `String::from_utf8`: it succeeds exactly on valid UTF-8 and
/// returns the string those bytes encode.
#[verifier::external_body]
fn bytes_to_string(v: Vec<u8>) -> (r: Option<String>)
    ensures
        r is Some <==> valid_utf8(v@),
        r matches Some(s) ==> s@ == decode_utf8(v@),
{
    String::from_utf8(v).ok()
}

/// Decode a string frame at `pos`. A short buffer is a
/// [`FumError::Connection`]; content that is not valid UTF-8 is a
/// [`FumError::Encoding`].
pub fn decode_string(buf: &Vec<u8>, pos: usize) -> (r: Result<(String, usize), FumError>)
    ensures
        dec_string_at(buf@, pos as int) matches Ok(v) ==> (r matches Ok(o) && o.0@ == v.0 && o.1
            as int == v.1),
        dec_string_at(buf@, pos as int) matches Err(e) ==> r == Err::<(String, usize), FumError>(
            e,
        ),
{
    let (content, p) = match decode_bytes(buf, pos) {
        Ok(o) => o,
        Err(e) => {
            return Err(e);
        },
    };
    match bytes_to_string(content) {
        Some(s) => Ok((s, p)),
        None => Err(FumError::Encoding),
    }
}

/// Encoding then decoding a `u32` yields the original value, whatever
/// follows the frame.
pub proof fn lemma_u32_round_trip(x: u32, rest: Seq<u8>)
    ensures
        dec_u32_at(u32_to_be(x) + rest, 0) == Some((x, 4int)),
{
    let s = u32_to_be(x) + rest;
    assert(s.subrange(0, 4) =~= u32_to_be(x));
    let b0 = ((x >> 24) & 0xff) as u8;
    let b1 = ((x >> 16) & 0xff) as u8;
    let b2 = ((x >> 8) & 0xff) as u8;
    let b3 = (x & 0xff) as u8;
    assert(((((x >> 24) & 0xff) as u8 as u32) << 24) | ((((x >> 16) & 0xff) as u8 as u32) << 16) | (
    (((x >> 8) & 0xff) as u8 as u32) << 8) | ((x & 0xff) as u8 as u32) == x) by (bit_vector);
    assert(be_to_u32(u32_to_be(x)) == x);
}

/// Encoding then decoding a byte blob yields the original bytes,
/// whatever follows the frame.
pub proof fn lemma_bytes_round_trip(data: Seq<u8>, rest: Seq<u8>)
    requires
        data.len() <= u32::MAX,
    ensures
        dec_bytes_at(bytes_frame(data) + rest, 0) == Some((data, 4 + data.len() as int)),
{
    let n = data.len() as u32;
    let s = bytes_frame(data) + rest;
    assert(s =~= u32_to_be(n) + (data + rest));
    lemma_u32_round_trip(n, data + rest);
    assert(dec_u32_at(s, 0) == Some((n, 4int)));
    assert(s.subrange(4, 4 + n as int) =~= data);
}

/// Encoding then decoding a string frame yields the original characters,
/// whatever follows the frame.
pub proof fn lemma_string_round_trip(s: Seq<char>, rest: Seq<u8>)
    requires
        encode_utf8(s).len() <= u32::MAX,
    ensures
        dec_bytes_at(string_frame(s) + rest, 0) == Some(
            (encode_utf8(s), 4 + encode_utf8(s).len() as int),
        ),
        valid_utf8(encode_utf8(s)),
        decode_utf8(encode_utf8(s)) == s,
{
    lemma_bytes_round_trip(encode_utf8(s), rest);
    vstd::utf8::encode_utf8_valid_utf8(s);
    vstd::utf8::encode_utf8_decode_utf8(s);
}

} // verus!