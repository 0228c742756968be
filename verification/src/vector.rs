//! An ordered list of unsigned 32-bit integers as a binary blob.
//!
//! The blob is the number of items as eight big-endian bytes, followed by
//! each item as four big-endian bytes, in order.

use crate::basic::{be_bytes, lemma_bytes_round_trip, lemma_value_round_trip};
use crate::error::DecodeError;
use crate::wire::{
    be_bytes_u64, lemma_u64_at_written, lemma_u64_bytes_at, push_u32, push_u64, read_u32,
    read_u64, u32_at, u64_at,
};
use rand::Rng;
use vstd::prelude::*;

verus! {

/// The list 0, 1, 2, ... of `n` items.
pub open spec fn counting(n: nat) -> Seq<u32> {
    Seq::new(n, |i: int| i as u32)
}

/// A number drawn at random from `low..high`.
///
/// Trusted: stands for `rand::Rng::gen_range` on `rand::thread_rng()`, which
/// samples from the half-open range and panics on an empty one. The
/// generator itself panics if the system cannot seed it.
#[verifier::external_body]
fn random_in_range(low: u32, high: u32) -> (n: u32)
    requires
        low < high,
    ensures
        low <= n < high,
{
    rand::thread_rng().gen_range(low..high)
}

/// One item for each number from 1000 up to, but not including, `bound`:
/// the list counts them from zero.
pub fn counting_run(bound: u32) -> (data: Vec<u32>)
    ensures
        data@ == counting(
            if bound > 1000 {
                (bound - 1000) as nat
            } else {
                0
            },
        ),
{
    let mut data: Vec<u32> = Vec::new();
    let mut counter: u32 = 0;
    let mut i: u32 = 1000;
    while i < bound
        invariant
            1000 <= i,
            bound > 1000 ==> i <= bound,
            bound <= 1000 ==> i == 1000,
            counter == i - 1000,
            data@ == counting(counter as nat),
        decreases bound - i,
    {
        data.push(counter);
        assert(data@ =~= counting((counter + 1) as nat));
        counter += 1;
        i += 1;
    }
    data
}

/// A list that counts from zero, of a length drawn at random: at least 500
/// items and fewer than 9000.
pub fn random_run() -> (data: Vec<u32>)
    ensures
        500 <= data@.len() < 9000,
        data@ == counting(data@.len()),
{
    counting_run(random_in_range(1500, 10000))
}

/// The items of `s`, four bytes each, one after the other.
pub open spec fn encode_items(s: Seq<u32>) -> Seq<u8>
    decreases s.len(),
{
    if s.len() == 0 {
        Seq::empty()
    } else {
        encode_items(s.drop_last()) + be_bytes(s.last())
    }
}

/// The blob that holds `s`.
pub open spec fn encode_sequence(s: Seq<u32>) -> Seq<u8>
    recommends
        s.len() <= u64::MAX,
{
    be_bytes_u64(s.len() as u64) + encode_items(s)
}

/// The `n` items written four bytes each from `b[8]` on.
pub open spec fn items_at(b: Seq<u8>, n: nat) -> Seq<u32> {
    Seq::new(n, |i: int| u32_at(b, 8 + 4 * i))
}

/// What the blob `b` holds, or why it holds no list.
pub open spec fn decode_sequence(b: Seq<u8>) -> Result<Seq<u32>, DecodeError> {
    if b.len() < 8 {
        Err(DecodeError::Truncated)
    } else if b.len() - 8 < 4 * u64_at(b, 0) {
        Err(DecodeError::Truncated)
    } else if b.len() - 8 > 4 * u64_at(b, 0) {
        Err(DecodeError::TrailingBytes)
    } else {
        Ok(items_at(b, u64_at(b, 0) as nat))
    }
}

/// Each item takes four bytes, and stands at four times its index.
pub proof fn lemma_encode_items_at(s: Seq<u32>, i: int)
    requires
        0 <= i < s.len(),
    ensures
        encode_items(s).len() == 4 * s.len(),
        encode_items(s).subrange(4 * i, 4 * i + 4) == be_bytes(s[i]),
    decreases s.len(),
{
    let front = s.drop_last();
    let items = encode_items(s);
    if front.len() > 0 {
        lemma_encode_items_at(front, 0);
    }
    assert(encode_items(front).len() == 4 * front.len());
    if i == s.len() - 1 {
        assert(items.subrange(4 * i, 4 * i + 4) =~= be_bytes(s[i]));
    } else {
        lemma_encode_items_at(front, i);
        assert(items.subrange(4 * i, 4 * i + 4) =~= encode_items(front).subrange(4 * i, 4 * i + 4));
    }
}

/// Every list comes back from its blob: same length, same items, same
/// order.
pub proof fn lemma_sequence_round_trip(s: Seq<u32>)
    requires
        s.len() <= u64::MAX,
    ensures
        decode_sequence(encode_sequence(s)) == Ok::<Seq<u32>, DecodeError>(s),
{
    let n = s.len() as u64;
    let b = encode_sequence(s);
    let items = encode_items(s);
    lemma_u64_at_written(Seq::empty(), n, items);
    assert(b =~= Seq::<u8>::empty() + be_bytes_u64(n) + items);
    if s.len() > 0 {
        lemma_encode_items_at(s, 0);
    }
    assert(items.len() == 4 * s.len());
    let d = items_at(b, n as nat);
    assert forall|i: int| 0 <= i < s.len() implies d[i] == s[i] by {
        lemma_encode_items_at(s, i);
        assert(b.subrange(8 + 4 * i, 8 + 4 * i + 4) =~= items.subrange(4 * i, 4 * i + 4));
        lemma_bytes_round_trip(s[i]);
    }
    assert(d =~= s);
}

/// The items read from a blob are written with the bytes they were read
/// from.
pub proof fn lemma_items_at_encode(b: Seq<u8>, n: nat)
    requires
        8 + 4 * n <= b.len(),
    ensures
        encode_items(items_at(b, n)) == b.subrange(8, 8 + 4 * (n as int)),
    decreases n,
{
    if n == 0 {
        assert(b.subrange(8, 8) =~= Seq::<u8>::empty());
    } else {
        let m: int = n - 1;
        let end: int = 8 + 4 * m;
        lemma_items_at_encode(b, m as nat);
        assert(items_at(b, n).drop_last() =~= items_at(b, m as nat));
        lemma_value_round_trip(b.subrange(end, end + 4));
        assert(b.subrange(8, end) + b.subrange(end, end + 4) =~= b.subrange(8, end + 4));
    }
}

/// A blob that decodes is the blob of what it decodes to: no two blobs
/// hold the same list.
pub proof fn lemma_sequence_blob_unique(b: Seq<u8>)
    requires
        decode_sequence(b) is Ok,
    ensures
        encode_sequence(decode_sequence(b)->Ok_0) == b,
{
    let n = u64_at(b, 0);
    let end: int = 8 + 4 * (n as int);
    lemma_u64_bytes_at(b, 0);
    lemma_items_at_encode(b, n as nat);
    assert(b.subrange(0, 8) + b.subrange(8, end) =~= b);
}

/// Encodes `data` as a blob, from which the same list can be decoded
/// again.
pub fn serialize_vector(data: &[u32]) -> (bytes: Vec<u8>)
    ensures
        bytes@ == encode_sequence(data@),
        decode_sequence(bytes@) == Ok::<Seq<u32>, DecodeError>(data@),
{
    let mut bytes: Vec<u8> = Vec::new();
    push_u64(&mut bytes, data.len() as u64);
    let ghost head = bytes@;
    let mut i: usize = 0;
    while i < data.len()
        invariant
            i <= data.len(),
            head == be_bytes_u64(data@.len() as u64),
            bytes@ == head + encode_items(data@.take(i as int)),
        decreases data.len() - i,
    {
        push_u32(&mut bytes, data[i]);
        assert(data@.take(i + 1).drop_last() =~= data@.take(i as int));
        i += 1;
    }
    assert(data@.take(i as int) =~= data@);
    proof {
        lemma_sequence_round_trip(data@);
    }
    bytes
}

/// Decodes a blob, or says why it holds no list. A blob that holds a list
/// is the one blob that the list is encoded as.
pub fn deserialize_vector(bytes: &[u8]) -> (r: Result<Vec<u32>, DecodeError>)
    ensures
        match r {
            Ok(v) => decode_sequence(bytes@) == Ok::<Seq<u32>, DecodeError>(v@)
                && encode_sequence(v@) == bytes@,
            Err(e) => decode_sequence(bytes@) == Err::<Seq<u32>, DecodeError>(e),
        },
{
    proof {
        if decode_sequence(bytes@) is Ok {
            lemma_sequence_blob_unique(bytes@);
        }
    }
    if bytes.len() < 8 {
        return Err(DecodeError::Truncated);
    }
    let count: u64 = read_u64(bytes, 0);
    let body: usize = bytes.len() - 8;
    if ((body / 4) as u64) < count {
        return Err(DecodeError::Truncated);
    }
    let n: usize = count as usize;
    if 4 * n != body {
        return Err(DecodeError::TrailingBytes);
    }
    let mut data: Vec<u32> = Vec::new();
    let mut i: usize = 0;
    while i < n
        invariant
            i <= n,
            bytes.len() == 8 + 4 * n,
            data@ == items_at(bytes@, i as nat),
        decreases n - i,
    {
        data.push(read_u32(bytes, 8 + 4 * i));
        assert(data@ =~= items_at(bytes@, (i + 1) as nat));
        i += 1;
    }
    Ok(data)
}

} // verus!
