//! The CBOR data items that a record is made of: heads with their
//! argument, unsigned integers and text strings.
//!
//! A head is one byte that holds the major type in its upper three bits
//! and, in its lower five, either the argument itself (below 24) or the
//! width of the big-endian argument that follows (24 to 27 for one, two,
//! four and eight bytes). Writing always takes the shortest form; reading
//! takes any of them.

use crate::basic::be_bytes;
use crate::error::DecodeError;
use crate::text::string_from_utf8;
use crate::wire::{
    be_bytes_u64, lemma_u32_at_written, lemma_u64_at_written, push_bytes, push_u32, push_u64,
    read_u32, read_u64, u32_at, u64_at,
};
use vstd::prelude::*;
use vstd::slice::{slice_subrange, slice_to_vec};
use vstd::utf8::{
    decode_utf8, encode_utf8, encode_utf8_decode_utf8, encode_utf8_valid_utf8, valid_utf8,
};

verus! {

/// Major type of an unsigned integer.
pub const UNSIGNED: u8 = 0;

/// Major type of a text string.
pub const TEXT: u8 = 3;

/// Major type of an array.
pub const ARRAY: u8 = 4;

/// Major type of a map.
pub const MAP: u8 = 5;

/// The shortest head of major type `major` with the argument `n`.
#[verifier::opaque]
pub open spec fn head(major: u8, n: u64) -> Seq<u8>
    recommends
        major < 8,
{
    if n < 24 {
        seq![(major * 32 + n) as u8]
    } else if n < 0x100 {
        seq![(major * 32 + 24) as u8, n as u8]
    } else if n < 0x1_0000 {
        seq![(major * 32 + 25) as u8, (n / 0x100) as u8, (n % 0x100) as u8]
    } else if n < 0x1_0000_0000 {
        seq![(major * 32 + 26) as u8] + be_bytes(n as u32)
    } else {
        seq![(major * 32 + 27) as u8] + be_bytes_u64(n)
    }
}

/// The argument of the head of major type `major` at `b[at]`, and where
/// the head ends; or why no such head stands there.
#[verifier::opaque]
pub open spec fn head_at(b: Seq<u8>, at: int, major: u8) -> Result<(u64, int), DecodeError> {
    if !(0 <= at < b.len()) {
        Err(DecodeError::Truncated)
    } else if b[at] / 32 != major {
        Err(DecodeError::Malformed)
    } else if b[at] % 32 < 24 {
        Ok(((b[at] % 32) as u64, at + 1))
    } else if b[at] % 32 == 24 {
        if b.len() - at < 2 {
            Err(DecodeError::Truncated)
        } else {
            Ok((b[at + 1] as u64, at + 2))
        }
    } else if b[at] % 32 == 25 {
        if b.len() - at < 3 {
            Err(DecodeError::Truncated)
        } else {
            Ok(((b[at + 1] * 0x100 + b[at + 2]) as u64, at + 3))
        }
    } else if b[at] % 32 == 26 {
        if b.len() - at < 5 {
            Err(DecodeError::Truncated)
        } else {
            Ok((u32_at(b, at + 1) as u64, at + 5))
        }
    } else if b[at] % 32 == 27 {
        if b.len() - at < 9 {
            Err(DecodeError::Truncated)
        } else {
            Ok((u64_at(b, at + 1), at + 9))
        }
    } else {
        Err(DecodeError::Malformed)
    }
}

/// The text string `t` as a data item: its head with the number of bytes,
/// and the text in UTF-8.
pub open spec fn text(t: Seq<char>) -> Seq<u8>
    recommends
        encode_utf8(t).len() <= u64::MAX,
{
    head(TEXT, encode_utf8(t).len() as u64) + encode_utf8(t)
}

/// The text string at `b[at]`, and where it ends; or why none stands
/// there.
pub open spec fn text_at(b: Seq<u8>, at: int) -> Result<(Seq<char>, int), DecodeError> {
    match head_at(b, at, TEXT) {
        Err(e) => Err(e),
        Ok((n, start)) => if b.len() - start < n {
            Err(DecodeError::Truncated)
        } else if !valid_utf8(b.subrange(start, start + n)) {
            Err(DecodeError::InvalidText)
        } else {
            Ok((decode_utf8(b.subrange(start, start + n)), start + n))
        },
    }
}

/// A head written behind `pre` is read back there, with its argument.
pub proof fn lemma_head_written(pre: Seq<u8>, major: u8, n: u64, post: Seq<u8>)
    requires
        major < 8,
    ensures
        1 <= head(major, n).len() <= 9,
        head_at(pre + head(major, n) + post, pre.len() as int, major) == Ok::<
            (u64, int),
            DecodeError,
        >((n, (pre.len() + head(major, n).len()) as int)),
{
    reveal(head);
    reveal(head_at);
    let h = head(major, n);
    let b = pre + h + post;
    let at = pre.len() as int;
    assert(b[at] == h[0]);
    if n < 24 {
    } else if n < 0x100 {
        assert(b[at + 1] == h[1]);
    } else if n < 0x1_0000 {
        assert(b[at + 1] == h[1]);
        assert(b[at + 2] == h[2]);
    } else if n < 0x1_0000_0000 {
        let first = seq![(major * 32 + 26) as u8];
        assert(b =~= (pre + first) + be_bytes(n as u32) + post);
        lemma_u32_at_written(pre + first, n as u32, post);
    } else {
        let first = seq![(major * 32 + 27) as u8];
        assert(b =~= (pre + first) + be_bytes_u64(n) + post);
        lemma_u64_at_written(pre + first, n, post);
    }
}

/// A text string written behind `pre` is read back there.
pub proof fn lemma_text_written(pre: Seq<u8>, t: Seq<char>, post: Seq<u8>)
    requires
        encode_utf8(t).len() <= u64::MAX,
    ensures
        text_at(pre + text(t) + post, pre.len() as int) == Ok::<(Seq<char>, int), DecodeError>(
            (t, (pre.len() + text(t).len()) as int),
        ),
{
    let bytes = encode_utf8(t);
    let n = bytes.len() as u64;
    let h = head(TEXT, n);
    let b = pre + text(t) + post;
    lemma_head_written(pre, TEXT, n, bytes + post);
    assert(b =~= pre + h + (bytes + post));
    let start = (pre.len() + h.len()) as int;
    assert(b.subrange(start, start + n) =~= bytes);
    encode_utf8_valid_utf8(t);
    encode_utf8_decode_utf8(t);
}

/// Appends the shortest head of major type `major` with the argument `n`.
pub fn push_head(out: &mut Vec<u8>, major: u8, n: u64)
    requires
        major < 8,
    ensures
        final(out)@ == old(out)@ + head(major, n),
{
    if n < 24 {
        out.push(major * 32 + n as u8);
    } else if n < 0x100 {
        out.push(major * 32 + 24);
        out.push(n as u8);
    } else if n < 0x1_0000 {
        out.push(major * 32 + 25);
        out.push((n / 0x100) as u8);
        out.push((n % 0x100) as u8);
    } else if n < 0x1_0000_0000 {
        out.push(major * 32 + 26);
        push_u32(out, n as u32);
    } else {
        out.push(major * 32 + 27);
        push_u64(out, n);
    }
    proof {
        reveal(head);
    }
    assert(out@ =~= old(out)@ + head(major, n));
}

/// Appends `t` as a text string.
pub fn push_text(out: &mut Vec<u8>, t: &str)
    ensures
        final(out)@ == old(out)@ + text(t@),
        encode_utf8(t@).len() <= u64::MAX,
{
    let bytes = t.as_bytes();
    push_head(out, TEXT, bytes.len() as u64);
    push_bytes(out, bytes);
    assert(out@ =~= old(out)@ + text(t@));
}

/// Reads the head of major type `major` at `bytes[at]`.
pub fn read_head(bytes: &[u8], at: usize, major: u8) -> (r: Result<(u64, usize), DecodeError>)
    requires
        at <= bytes.len(),
    ensures
        head_at(bytes@, at as int, major) == match r {
            Ok((n, next)) => Ok((n, next as int)),
            Err(e) => Err(e),
        },
        r matches Ok((_, next)) ==> at < next <= bytes.len(),
{
    proof {
        reveal(head_at);
    }
    if at >= bytes.len() {
        return Err(DecodeError::Truncated);
    }
    let first = bytes[at];
    if first / 32 != major {
        return Err(DecodeError::Malformed);
    }
    let left = bytes.len() - at;
    let info = first % 32;
    if info < 24 {
        Ok((info as u64, at + 1))
    } else if info == 24 {
        if left < 2 {
            Err(DecodeError::Truncated)
        } else {
            Ok((bytes[at + 1] as u64, at + 2))
        }
    } else if info == 25 {
        if left < 3 {
            Err(DecodeError::Truncated)
        } else {
            Ok((bytes[at + 1] as u64 * 0x100 + bytes[at + 2] as u64, at + 3))
        }
    } else if info == 26 {
        if left < 5 {
            Err(DecodeError::Truncated)
        } else {
            Ok((read_u32(bytes, at + 1) as u64, at + 5))
        }
    } else if info == 27 {
        if left < 9 {
            Err(DecodeError::Truncated)
        } else {
            Ok((read_u64(bytes, at + 1), at + 9))
        }
    } else {
        Err(DecodeError::Malformed)
    }
}

/// Reads the text string at `bytes[at]`.
pub fn read_text(bytes: &[u8], at: usize) -> (r: Result<(String, usize), DecodeError>)
    requires
        at <= bytes.len(),
    ensures
        text_at(bytes@, at as int) == match r {
            Ok((t, next)) => Ok((t@, next as int)),
            Err(e) => Err(e),
        },
        r matches Ok((_, next)) ==> at < next <= bytes.len(),
{
    let (n, start) = match read_head(bytes, at, TEXT) {
        Ok(found) => found,
        Err(e) => {
            return Err(e);
        },
    };
    if ((bytes.len() - start) as u64) < n {
        return Err(DecodeError::Truncated);
    }
    let end: usize = start + n as usize;
    match string_from_utf8(slice_to_vec(slice_subrange(bytes, start, end))) {
        Some(t) => Ok((t, end)),
        None => Err(DecodeError::InvalidText),
    }
}

} // verus!
