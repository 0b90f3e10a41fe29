//! Value interpretation helpers for handler implementations.

use crate::wire_format::{unzigzag32, unzigzag64};
use vstd::prelude::*;
use vstd::slice::slice_to_vec;
use vstd::utf8::{decode_utf8, valid_utf8};

verus! {

/// `std::string::FromUtf8Error`, handed back as it is.
#[verifier::external_type_specification]
#[verifier::external_body]
pub struct ExFromUtf8Error(std::string::FromUtf8Error);

/// `String::from_utf8`: succeeds exactly when `bytes` is well-formed UTF-8, and
/// then holds the characters that the bytes encode.
#[verifier::external_body]
fn string_from_utf8(bytes: Vec<u8>) -> (r: Result<String, std::string::FromUtf8Error>)
    ensures
        r is Ok <==> valid_utf8(bytes@),
        r matches Ok(s) ==> s@ == decode_utf8(bytes@),
{
    String::from_utf8(bytes)
}

/// A varint read as a bool: anything but zero is true.
pub fn as_bool(value: u64) -> (b: bool)
    ensures
        b == (value != 0),
{
    value != 0
}

/// A varint read as a zigzag-encoded `sint32` (its low 32 bits).
pub fn as_sint32(value: u64) -> (v: i32)
    ensures
        v == unzigzag32(value as u32),
{
    let n = (#[verifier::truncate] (value as u32));
    assert(((n >> 1) as i32) ^ ((-((n & 1) as i32)) as i32) == unzigzag32(n)) by (bit_vector);
    assert(n & 1 <= 1 && n >> 1 <= 0x7fff_ffff) by (bit_vector);
    ((n >> 1) as i32) ^ (-((n & 1) as i32))
}

/// A varint read as a zigzag-encoded `sint64`.
pub fn as_sint64(value: u64) -> (v: i64)
    ensures
        v == unzigzag64(value),
{
    assert(((value >> 1) as i64) ^ ((-((value & 1) as i64)) as i64) == unzigzag64(value))
        by (bit_vector);
    assert(value & 1 <= 1 && value >> 1 <= 0x7fff_ffff_ffff_ffff) by (bit_vector);
    ((value >> 1) as i64) ^ (-((value & 1) as i64))
}

/// Length-delimited bytes read as a UTF-8 string.
pub fn as_string(data: &[u8]) -> (r: Result<String, std::string::FromUtf8Error>)
    ensures
        r is Ok <==> valid_utf8(data@),
        r matches Ok(s) ==> s@ == decode_utf8(data@),
{
    string_from_utf8(slice_to_vec(data))
}

/// Length-delimited bytes copied out.
pub fn as_bytes(data: &[u8]) -> (v: Vec<u8>)
    ensures
        v@ == data@,
{
    slice_to_vec(data)
}

} // verus!
