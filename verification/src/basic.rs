//! An unsigned 32-bit integer as decimal text and as four big-endian bytes.

use crate::error::SizeMismatchError;
use crate::text::{
    decimal_digits, decimal_value, is_decimal, lemma_decimal_round_trip, push_decimal,
};
use vstd::pervasive::unreached;
use vstd::prelude::*;

verus! {

/// Renders `integer` in base ten: digits alone, which read back as
/// `integer`.
pub fn serialize_to_string(integer: u32) -> (text: String)
    ensures
        text@ == decimal_digits(integer as nat),
        is_decimal(text@),
        decimal_value(text@) == integer,
{
    let mut text = String::new();
    push_decimal(&mut text, integer);
    proof {
        lemma_decimal_round_trip(integer as nat);
    }
    text
}

/// The four bytes of `v`, most significant first.
pub open spec fn be_bytes(v: u32) -> Seq<u8> {
    seq![
        (v / 0x100_0000) as u8,
        (v / 0x1_0000 % 0x100) as u8,
        (v / 0x100 % 0x100) as u8,
        (v % 0x100) as u8,
    ]
}

/// The integer whose big-endian bytes are the first four of `b`.
pub open spec fn be_value(b: Seq<u8>) -> u32
    recommends
        b.len() == 4,
{
    (b[0] as int * 0x100_0000 + b[1] as int * 0x1_0000 + b[2] as int * 0x100 + b[3] as int) as u32
}

/// Encodes `integer` as four bytes, most significant first, from which it
/// can be decoded again.
pub fn serialize_to_bytes(integer: u32) -> (bytes: [u8; 4])
    ensures
        bytes@ == be_bytes(integer),
        be_value(bytes@) == integer,
{
    let bytes = [
        (integer / 0x100_0000) as u8,
        (integer / 0x1_0000 % 0x100) as u8,
        (integer / 0x100 % 0x100) as u8,
        (integer % 0x100) as u8,
    ];
    assert(bytes@ =~= be_bytes(integer));
    bytes
}

/// Decodes four big-endian bytes: the one integer that is encoded as
/// `bytes`.
pub fn deserialize_from_bytes(bytes: [u8; 4]) -> (integer: u32)
    ensures
        integer == be_value(bytes@),
        be_bytes(integer) == bytes@,
{
    proof {
        lemma_value_round_trip(bytes@);
    }
    let b0: u32 = bytes[0] as u32;
    let b1: u32 = bytes[1] as u32;
    let b2: u32 = bytes[2] as u32;
    let b3: u32 = bytes[3] as u32;
    b0 * 0x100_0000 + b1 * 0x1_0000 + b2 * 0x100 + b3
}

/// Decodes a buffer that should hold four big-endian bytes, and refuses one
/// of any other length.
pub fn deserialize_from_slice(bytes: &[u8]) -> (r: Result<u32, SizeMismatchError>)
    ensures
        match r {
            Ok(integer) => bytes@.len() == 4 && integer == be_value(bytes@),
            Err(e) => bytes@.len() != 4 && e == (SizeMismatchError {
                expected: 4,
                actual: bytes.len(),
            }),
        },
{
    if bytes.len() != 4 {
        return Err(SizeMismatchError { expected: 4, actual: bytes.len() });
    }
    Ok(deserialize_from_bytes([bytes[0], bytes[1], bytes[2], bytes[3]]))
}

/// The items of `v` as an array, if there are exactly `N` of them.
///
/// Trusted: stands for the standard library's conversion of a `Vec<T>` into
/// `[T; N]` (`TryFrom`), documented to hand over the whole contents as an
/// array when the length is `N` and to fail otherwise.
#[verifier::external_body]
fn vec_into_array<T, const N: usize>(v: Vec<T>) -> (r: Option<[T; N]>)
    ensures
        match r {
            Some(a) => v@.len() == N && a@ == v@,
            None => v@.len() != N,
        },
{
    let r: Result<[T; N], Vec<T>> = v.try_into();
    match r {
        Ok(a) => Some(a),
        Err(_) => None,
    }
}

/// Turns a vector of exactly `N` items into an array of them.
pub fn vec_to_array<T, const N: usize>(v: Vec<T>) -> (a: [T; N])
    requires
        v@.len() == N,
    ensures
        a@ == v@,
{
    match vec_into_array(v) {
        Some(a) => a,
        None => unreached(),
    }
}

/// Decoding undoes encoding: every integer comes back from its four bytes.
pub proof fn lemma_bytes_round_trip(v: u32)
    ensures
        be_bytes(v).len() == 4,
        be_value(be_bytes(v)) == v,
{
}

/// Encoding undoes decoding: four bytes come back from the integer they
/// encode, so no two buffers decode to the same integer.
pub proof fn lemma_value_round_trip(b: Seq<u8>)
    requires
        b.len() == 4,
    ensures
        be_bytes(be_value(b)) == b,
{
    let b0 = b[0] as int;
    let b1 = b[1] as int;
    let b2 = b[2] as int;
    let b3 = b[3] as int;
    let v = b0 * 0x100_0000 + b1 * 0x1_0000 + b2 * 0x100 + b3;
    assert(be_value(b) == v);
    assert(v / 0x100_0000 == b0);
    assert(v / 0x1_0000 == b0 * 0x100 + b1);
    assert(v / 0x100 == b0 * 0x1_0000 + b1 * 0x100 + b2);
    assert(be_bytes(be_value(b)) =~= b);
}

} // verus!
