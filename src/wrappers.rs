//! The calls into std and into byteorder that the library relies on.
use byteorder::{BigEndian, ByteOrder};
use vstd::prelude::*;

use crate::bytes::{be_u32_bytes, be_u64_bytes, u32_from_be, u64_from_be};

verus! {

/// Relies on `String::push`: appends the character to the end of the string.
#[verifier::external_body]
pub(crate) fn push_char(s: &mut String, c: char)
    ensures
        final(s)@ == old(s)@.push(c),
{
    s.push(c)
}

/// Relies on `String::from_utf8`: it succeeds exactly when the bytes are
/// well-formed UTF-8, and the string then holds the characters they encode.
#[verifier::external_body]
pub(crate) fn string_from_utf8(bytes: Vec<u8>) -> (r: Option<String>)
    ensures
        r is Some <==> vstd::utf8::valid_utf8(bytes@),
        r matches Some(s) ==> s@ == vstd::utf8::decode_utf8(bytes@),
{
    String::from_utf8(bytes).ok()
}

/// Relies on byteorder's `BigEndian::read_u32`: the first four bytes of the
/// slice, most significant first.
#[verifier::external_body]
pub(crate) fn read_be_u32(b: &[u8], pos: usize) -> (r: u32)
    requires
        pos + 4 <= b@.len(),
    ensures
        r == u32_from_be(b@[pos as int], b@[pos + 1], b@[pos + 2], b@[pos + 3]),
{
    BigEndian::read_u32(&b[pos..pos + 4])
}

/// Relies on byteorder's `BigEndian::read_u64`: the first eight bytes of the
/// slice, most significant first.
#[verifier::external_body]
pub(crate) fn read_be_u64(b: &[u8], pos: usize) -> (r: u64)
    requires
        pos + 8 <= b@.len(),
    ensures
        r == u64_from_be(b@.subrange(pos as int, pos + 8)),
{
    BigEndian::read_u64(&b[pos..pos + 8])
}

/// Relies on byteorder's `BigEndian::write_u32`: the four bytes of `n`, most
/// significant first, here appended to `out`.
#[verifier::external_body]
pub(crate) fn write_be_u32(out: &mut Vec<u8>, n: u32)
    ensures
        final(out)@ == old(out)@ + be_u32_bytes(n),
{
    let mut buf = [0u8; 4];
    BigEndian::write_u32(&mut buf, n);
    out.extend_from_slice(&buf);
}

/// Relies on byteorder's `BigEndian::write_u64`: the eight bytes of `n`,
/// most significant first, here appended to `out`.
#[verifier::external_body]
pub(crate) fn write_be_u64(out: &mut Vec<u8>, n: u64)
    ensures
        final(out)@ == old(out)@ + be_u64_bytes(n),
{
    let mut buf = [0u8; 8];
    BigEndian::write_u64(&mut buf, n);
    out.extend_from_slice(&buf);
}

} // verus!
