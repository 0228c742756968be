//! The lexical grammar of JSON text: white space, numbers and strings.

use crate::text::{
    char_from_code, chars_of, decimal_digits, decimal_value, digit_value, is_decimal, is_digit,
    lemma_decimal_round_trip, push_char,
};
use vstd::prelude::*;

verus! {

/// Where the longest run of digits that starts at `s[i]` ends.
pub open spec fn digits_end(s: Seq<char>, i: int) -> int
    decreases s.len() - i,
{
    if 0 <= i < s.len() && is_digit(s[i]) {
        digits_end(s, i + 1)
    } else {
        i
    }
}

/// Whether a digit stands at `s[i]`.
pub open spec fn digit_at(s: Seq<char>, i: int) -> bool {
    0 <= i < s.len() && is_digit(s[i])
}

/// Where the whole part of a number that starts at `s[i]` ends: a single
/// `0`, or a run of digits that starts with another digit.
pub open spec fn whole_end(s: Seq<char>, i: int) -> Option<int> {
    if !digit_at(s, i) {
        None
    } else if s[i] == '0' {
        Some(i + 1)
    } else {
        Some(digits_end(s, i))
    }
}

/// Where an optional fraction that starts at `s[i]` ends: a point and at
/// least one digit, or nothing.
pub open spec fn fraction_end(s: Seq<char>, i: int) -> Option<int> {
    if 0 <= i < s.len() && s[i] == '.' {
        if digit_at(s, i + 1) {
            Some(digits_end(s, i + 1))
        } else {
            None
        }
    } else {
        Some(i)
    }
}

/// Where an optional exponent that starts at `s[i]` ends: `e` or `E`, an
/// optional sign and at least one digit, or nothing.
pub open spec fn exponent_end(s: Seq<char>, i: int) -> Option<int> {
    if 0 <= i < s.len() && (s[i] == 'e' || s[i] == 'E') {
        let d = if 0 <= i + 1 < s.len() && (s[i + 1] == '+' || s[i + 1] == '-') {
            i + 2
        } else {
            i + 1
        };
        if digit_at(s, d) {
            Some(digits_end(s, d))
        } else {
            None
        }
    } else {
        Some(i)
    }
}

/// Where the JSON number that starts at `s[i]` ends, if one starts there:
/// an optional minus sign, the whole part, an optional fraction and an
/// optional exponent.
#[verifier::opaque]
pub open spec fn number_end(s: Seq<char>, i: int) -> Option<int> {
    let a = if 0 <= i < s.len() && s[i] == '-' {
        i + 1
    } else {
        i
    };
    match whole_end(s, a) {
        None => None,
        Some(b) => match fraction_end(s, b) {
            None => None,
            Some(c) => exponent_end(s, c),
        },
    }
}

/// Whether `s` is, from its first to its last character, one JSON number.
pub open spec fn is_number(s: Seq<char>) -> bool {
    number_end(s, 0) == Some(s.len() as int)
}

/// A run of digits ends at or behind its start, and inside the text.
pub proof fn lemma_digits_end_bounds(s: Seq<char>, i: int)
    requires
        0 <= i <= s.len(),
    ensures
        i <= digits_end(s, i) <= s.len(),
        digit_at(s, i) ==> i < digits_end(s, i),
        forall|k: int| i <= k < digits_end(s, i) ==> is_digit(#[trigger] s[k]),
        !digit_at(s, digits_end(s, i)),
    decreases s.len() - i,
{
    if i < s.len() && is_digit(s[i]) {
        lemma_digits_end_bounds(s, i + 1);
    }
}

/// Whether `c` is one of `0` to `9`.
pub fn is_digit_char(c: char) -> (r: bool)
    ensures
        r == is_digit(c),
{
    '0' <= c && c <= '9'
}

/// Finds where the run of digits that starts at `s[i]` ends.
pub fn scan_digits(s: &[char], i: usize) -> (end: usize)
    requires
        i <= s.len(),
    ensures
        end == digits_end(s@, i as int),
        i <= end <= s.len(),
{
    let mut j: usize = i;
    while j < s.len() && is_digit_char(s[j])
        invariant
            i <= j <= s.len(),
            digits_end(s@, i as int) == digits_end(s@, j as int),
        decreases s.len() - j,
    {
        j += 1;
    }
    j
}

/// Finds where the JSON number that starts at `s[i]` ends, if one starts
/// there.
pub fn scan_number(s: &[char], i: usize) -> (end: Option<usize>)
    requires
        i <= s.len(),
    ensures
        match end {
            Some(e) => number_end(s@, i as int) == Some(e as int) && i < e <= s.len(),
            None => number_end(s@, i as int) is None,
        },
{
    proof {
        reveal(number_end);
    }
    let n = s.len();
    let a: usize = if i < n && s[i] == '-' {
        i + 1
    } else {
        i
    };
    if !(a < n && is_digit_char(s[a])) {
        return None;
    }
    let b: usize = if s[a] == '0' {
        a + 1
    } else {
        scan_digits(s, a)
    };
    proof {
        lemma_digits_end_bounds(s@, a as int);
    }
    let c: usize = if b < n && s[b] == '.' {
        if b + 1 < n && is_digit_char(s[b + 1]) {
            scan_digits(s, b + 1)
        } else {
            return None;
        }
    } else {
        b
    };
    if c < n && (s[c] == 'e' || s[c] == 'E') {
        let d: usize = if c + 1 < n && (s[c + 1] == '+' || s[c + 1] == '-') {
            c + 2
        } else {
            c + 1
        };
        if d < n && is_digit_char(s[d]) {
            let e = scan_digits(s, d);
            proof {
                lemma_digits_end_bounds(s@, d as int);
            }
            Some(e)
        } else {
            None
        }
    } else {
        Some(c)
    }
}

/// Whether `c` is white space between the tokens of JSON.
pub open spec fn is_ws(c: char) -> bool {
    c == ' ' || c == '\n' || c == '\r' || c == '\t'
}

/// Where the white space that starts at `s[i]` ends.
pub open spec fn ws_end(s: Seq<char>, i: int) -> int
    decreases s.len() - i,
{
    if 0 <= i < s.len() && is_ws(s[i]) {
        ws_end(s, i + 1)
    } else {
        i
    }
}

/// Finds where the white space that starts at `s[i]` ends.
pub fn skip_ws(s: &[char], i: usize) -> (end: usize)
    requires
        i <= s.len(),
    ensures
        end == ws_end(s@, i as int),
        i <= end <= s.len(),
{
    let mut j: usize = i;
    while j < s.len() && (s[j] == ' ' || s[j] == '\n' || s[j] == '\r' || s[j] == '\t')
        invariant
            i <= j <= s.len(),
            ws_end(s@, i as int) == ws_end(s@, j as int),
        decreases s.len() - j,
    {
        j += 1;
    }
    j
}

/// The value of the hexadecimal digit `c`, if it is one.
pub open spec fn hex_value(c: char) -> Option<u32> {
    if '0' <= c <= '9' {
        Some((c as u32 - 48) as u32)
    } else if 'a' <= c <= 'f' {
        Some((c as u32 - 87) as u32)
    } else if 'A' <= c <= 'F' {
        Some((c as u32 - 55) as u32)
    } else {
        None
    }
}

/// The number below 65536 that the four hexadecimal digits at `s[i]`
/// write, if four stand there.
pub open spec fn hex4_at(s: Seq<char>, i: int) -> Option<u32> {
    if 0 <= i && i + 4 <= s.len() && hex_value(s[i]) is Some && hex_value(s[i + 1]) is Some
        && hex_value(s[i + 2]) is Some && hex_value(s[i + 3]) is Some {
        Some(
            (hex_value(s[i])->Some_0 * 0x1000 + hex_value(s[i + 1])->Some_0 * 0x100 + hex_value(
                s[i + 2],
            )->Some_0 * 0x10 + hex_value(s[i + 3])->Some_0) as u32,
        )
    } else {
        None
    }
}

/// The character that the escape at `s[i]` writes, and where the escape
/// ends; `s[i]` is the character behind the backslash. A `u` takes four
/// hexadecimal digits; the first half of a surrogate pair takes the second
/// half behind it, written the same way, and a half alone is no character.
#[verifier::opaque]
pub open spec fn escape_at(s: Seq<char>, i: int) -> Option<(char, int)> {
    if !(0 <= i < s.len()) {
        None
    } else if s[i] == '"' || s[i] == '\\' || s[i] == '/' {
        Some((s[i], i + 1))
    } else if s[i] == 'b' {
        Some(('\x08', i + 1))
    } else if s[i] == 'f' {
        Some(('\x0c', i + 1))
    } else if s[i] == 'n' {
        Some(('\n', i + 1))
    } else if s[i] == 'r' {
        Some(('\r', i + 1))
    } else if s[i] == 't' {
        Some(('\t', i + 1))
    } else if s[i] == 'u' {
        match hex4_at(s, i + 1) {
            None => None,
            Some(unit) => if 0xD800 <= unit <= 0xDBFF {
                if i + 7 <= s.len() && s[i + 5] == '\\' && s[i + 6] == 'u' {
                    match hex4_at(s, i + 7) {
                        None => None,
                        Some(low) => if 0xDC00 <= low <= 0xDFFF {
                            Some(
                                (
                                    (0x1_0000 + (unit - 0xD800) * 0x400 + (low - 0xDC00)) as char,
                                    i + 11,
                                ),
                            )
                        } else {
                            None
                        },
                    }
                } else {
                    None
                }
            } else if 0xDC00 <= unit <= 0xDFFF {
                None
            } else {
                Some((unit as char, i + 5))
            },
        }
    } else {
        None
    }
}

/// The text of a string whose opening quote stands before `s[i]`, and
/// where the string ends behind its closing quote. Control characters must
/// be escaped.
#[verifier::opaque]
pub open spec fn string_tail(s: Seq<char>, i: int) -> Option<(Seq<char>, int)>
    decreases s.len() - i,
{
    if !(0 <= i < s.len()) {
        None
    } else if s[i] == '"' {
        Some((Seq::empty(), i + 1))
    } else if s[i] == '\\' {
        match escape_at(s, i + 1) {
            None => None,
            Some((c, next)) => if next <= i || next > s.len() {
                None
            } else {
                match string_tail(s, next) {
                    None => None,
                    Some((rest, end)) => Some((seq![c] + rest, end)),
                }
            },
        }
    } else if (s[i] as u32) < 0x20 {
        None
    } else {
        match string_tail(s, i + 1) {
            None => None,
            Some((rest, end)) => Some((seq![s[i]] + rest, end)),
        }
    }
}

/// The text of the string that starts with a quote at `s[i]`, and where
/// the string ends.
pub open spec fn string_at(s: Seq<char>, i: int) -> Option<(Seq<char>, int)> {
    if 0 <= i < s.len() && s[i] == '"' {
        string_tail(s, i + 1)
    } else {
        None
    }
}

/// Reads one hexadecimal digit.
fn read_hex(c: char) -> (r: Option<u32>)
    ensures
        r == hex_value(c),
{
    if '0' <= c && c <= '9' {
        Some(c as u32 - 48)
    } else if 'a' <= c && c <= 'f' {
        Some(c as u32 - 87)
    } else if 'A' <= c && c <= 'F' {
        Some(c as u32 - 55)
    } else {
        None
    }
}

/// Reads the four hexadecimal digits at `s[i]`.
fn read_hex4(s: &[char], i: usize) -> (r: Option<u32>)
    requires
        i <= s.len(),
    ensures
        r == hex4_at(s@, i as int),
        r matches Some(v) ==> v < 0x1_0000 && i + 4 <= s.len(),
{
    if s.len() - i < 4 {
        return None;
    }
    match (read_hex(s[i]), read_hex(s[i + 1]), read_hex(s[i + 2]), read_hex(s[i + 3])) {
        (Some(a), Some(b), Some(c), Some(d)) => Some(a * 0x1000 + b * 0x100 + c * 0x10 + d),
        _ => None,
    }
}

/// Reads the escape whose backslash stands before `s[i]`.
fn read_escape(s: &[char], i: usize) -> (r: Option<(char, usize)>)
    requires
        i <= s.len(),
    ensures
        escape_at(s@, i as int) == match r {
            Some((c, next)) => Some((c, next as int)),
            None => None,
        },
        r matches Some((_, next)) ==> i < next <= s.len(),
{
    proof {
        reveal(escape_at);
    }
    if i >= s.len() {
        return None;
    }
    let c = s[i];
    if c == '"' || c == '\\' || c == '/' {
        Some((c, i + 1))
    } else if c == 'b' {
        Some(('\x08', i + 1))
    } else if c == 'f' {
        Some(('\x0c', i + 1))
    } else if c == 'n' {
        Some(('\n', i + 1))
    } else if c == 'r' {
        Some(('\r', i + 1))
    } else if c == 't' {
        Some(('\t', i + 1))
    } else if c == 'u' {
        let unit = match read_hex4(s, i + 1) {
            Some(unit) => unit,
            None => {
                return None;
            },
        };
        if 0xD800 <= unit && unit <= 0xDBFF {
            if s.len() - i >= 7 && s[i + 5] == '\\' && s[i + 6] == 'u' {
                match read_hex4(s, i + 7) {
                    Some(low) => if 0xDC00 <= low && low <= 0xDFFF {
                        let code: u32 = 0x1_0000 + (unit - 0xD800) * 0x400 + (low - 0xDC00);
                        match char_from_code(code) {
                            Some(c) => Some((c, i + 11)),
                            None => None,
                        }
                    } else {
                        None
                    },
                    None => None,
                }
            } else {
                None
            }
        } else {
            match char_from_code(unit) {
                Some(c) => Some((c, i + 5)),
                None => None,
            }
        }
    } else {
        None
    }
}

/// Reads the string that starts with a quote at `s[i]`.
pub fn read_string(s: &[char], i: usize) -> (r: Option<(String, usize)>)
    requires
        i <= s.len(),
    ensures
        string_at(s@, i as int) == match r {
            Some((t, next)) => Some((t@, next as int)),
            None => None,
        },
        r matches Some((_, next)) ==> i < next <= s.len(),
{
    if i >= s.len() || s[i] != '"' {
        return None;
    }
    let mut t = String::new();
    let mut j: usize = i + 1;
    loop
        invariant
            i < j <= s.len(),
            string_at(s@, i as int) == match string_tail(s@, j as int) {
                Some((rest, end)) => Some((t@ + rest, end)),
                None => None,
            },
        decreases s.len() - j,
    {
        proof {
            reveal(string_tail);
        }
        if j >= s.len() {
            return None;
        }
        let c = s[j];
        if c == '"' {
            assert(t@ + Seq::<char>::empty() =~= t@);
            return Some((t, j + 1));
        }
        let ghost before = t@;
        if c == '\\' {
            match read_escape(s, j + 1) {
                Some((unescaped, next)) => {
                    push_char(&mut t, unescaped);
                    proof {
                        match string_tail(s@, next as int) {
                            Some((rest, end)) => {
                                assert(before + (seq![unescaped] + rest) =~= t@ + rest);
                            },
                            None => {},
                        }
                    }
                    j = next;
                },
                None => {
                    return None;
                },
            }
        } else if (c as u32) < 0x20 {
            return None;
        } else {
            push_char(&mut t, c);
            proof {
                match string_tail(s@, j + 1) {
                    Some((rest, end)) => {
                        assert(before + (seq![c] + rest) =~= t@ + rest);
                    },
                    None => {},
                }
            }
            j += 1;
        }
    }
}

/// The lower-case hexadecimal digit that writes `d`.
pub open spec fn hex_char(d: u32) -> char
    recommends
        d < 16,
{
    if d < 10 {
        ((48 + d) as u8) as char
    } else {
        ((87 + d) as u8) as char
    }
}

/// How the character `c` is written inside a string: a quote, a backslash
/// and the control characters escaped, every other character as it is.
pub open spec fn escaped(c: char) -> Seq<char> {
    if c == '"' {
        seq!['\\', '"']
    } else if c == '\\' {
        seq!['\\', '\\']
    } else if c == '\n' {
        seq!['\\', 'n']
    } else if c == '\r' {
        seq!['\\', 'r']
    } else if c == '\t' {
        seq!['\\', 't']
    } else if (c as u32) < 0x20 {
        seq!['\\', 'u', '0', '0', hex_char(c as u32 / 16), hex_char(c as u32 % 16)]
    } else {
        seq![c]
    }
}

/// How the text `t` is written inside a string.
pub open spec fn escaped_all(t: Seq<char>) -> Seq<char>
    decreases t.len(),
{
    if t.len() == 0 {
        Seq::empty()
    } else {
        escaped(t[0]) + escaped_all(t.drop_first())
    }
}

/// The text `t` as a string: its characters between two quotes.
pub open spec fn quoted(t: Seq<char>) -> Seq<char> {
    seq!['"'] + escaped_all(t) + seq!['"']
}

/// One more character at the end of a text adds its escape at the end.
pub proof fn lemma_escaped_all_push(t: Seq<char>, c: char)
    ensures
        escaped_all(t.push(c)) == escaped_all(t) + escaped(c),
    decreases t.len(),
{
    if t.len() == 0 {
        assert(t.push(c).drop_first() =~= Seq::<char>::empty());
        assert(t.push(c)[0] == c);
        assert(escaped_all(t.push(c).drop_first()) =~= Seq::<char>::empty());
        assert(escaped_all(t.push(c)) =~= escaped_all(t) + escaped(c));
    } else {
        lemma_escaped_all_push(t.drop_first(), c);
        assert(t.push(c).drop_first() =~= t.drop_first().push(c));
        assert(t.push(c)[0] == t[0]);
        assert(escaped_all(t.push(c)) == escaped(t[0]) + escaped_all(t.drop_first().push(c)));
        assert(escaped_all(t.push(c)) =~= escaped_all(t) + escaped(c));
    }
}

/// An escaped character is read back as the character.
pub proof fn lemma_escaped_read(pre: Seq<char>, c: char, post: Seq<char>)
    ensures
        1 <= escaped(c).len() <= 6,
        string_tail(pre + escaped(c) + post, pre.len() as int) == match string_tail(
            pre + escaped(c) + post,
            (pre.len() + escaped(c).len()) as int,
        ) {
            Some((rest, end)) => Some((seq![c] + rest, end)),
            None => None,
        },
{
    reveal(string_tail);
    reveal(escape_at);
    let x = escaped(c);
    let s = pre + x + post;
    let i = pre.len() as int;
    assert(s[i] == x[0]);
    if c == '"' || c == '\\' || c == '\n' || c == '\r' || c == '\t' {
        assert(s[i + 1] == x[1]);
    } else if (c as u32) < 0x20 {
        let hi = c as u32 / 16;
        let lo = c as u32 % 16;
        assert(s[i + 1] == x[1]);
        assert(s[i + 2] == x[2]);
        assert(s[i + 3] == x[3]);
        assert(s[i + 4] == x[4]);
        assert(s[i + 5] == x[5]);
        assert(hex_value('0') == Some(0u32));
        assert(hex_value(hex_char(hi)) == Some(hi));
        assert(hex_value(hex_char(lo)) == Some(lo));
        assert(hex4_at(s, i + 2) == Some(c as u32));
        assert(escape_at(s, i + 1) == Some((c, i + 6)));
    } else {
    }
}

/// An escaped text is read back as the text, up to what follows it.
pub proof fn lemma_escaped_all_read(pre: Seq<char>, t: Seq<char>, post: Seq<char>)
    ensures
        string_tail(pre + escaped_all(t) + post, pre.len() as int) == match string_tail(
            pre + escaped_all(t) + post,
            (pre.len() + escaped_all(t).len()) as int,
        ) {
            Some((rest, end)) => Some((t + rest, end)),
            None => None,
        },
    decreases t.len(),
{
    reveal(string_tail);
    let s = pre + escaped_all(t) + post;
    if t.len() == 0 {
        match string_tail(s, pre.len() as int) {
            Some((rest, end)) => {
                assert(t + rest =~= rest);
            },
            None => {},
        }
    } else {
        let c = t[0];
        let rest_t = t.drop_first();
        let tail = escaped_all(rest_t) + post;
        assert(s =~= pre + escaped(c) + tail);
        lemma_escaped_read(pre, c, tail);
        let pre2 = pre + escaped(c);
        assert(s =~= pre2 + escaped_all(rest_t) + post);
        lemma_escaped_all_read(pre2, rest_t, post);
        match string_tail(s, (pre.len() + escaped_all(t).len()) as int) {
            Some((rest, end)) => {
                assert(seq![c] + (rest_t + rest) =~= t + rest);
            },
            None => {},
        }
    }
}

/// A string is read back as the text that it was written for.
pub proof fn lemma_quoted_read(pre: Seq<char>, t: Seq<char>, post: Seq<char>)
    ensures
        string_at(pre + quoted(t) + post, pre.len() as int) == Some(
            (t, (pre.len() + quoted(t).len()) as int),
        ),
{
    reveal(string_tail);
    let quote = seq!['"'];
    let s = pre + quoted(t) + post;
    let pre2 = pre + quote;
    let post2 = quote + post;
    assert(s =~= pre2 + escaped_all(t) + post2);
    lemma_escaped_all_read(pre2, t, post2);
    let close = (pre2.len() + escaped_all(t).len()) as int;
    assert(s[close] == '"');
    assert(s[pre.len() as int] == '"');
    assert(t + Seq::<char>::empty() =~= t);
}

/// Appends the character `c` as it is written inside a string.
fn push_escaped(out: &mut String, c: char)
    ensures
        final(out)@ == old(out)@ + escaped(c),
{
    if c == '"' {
        push_char(out, '\\');
        push_char(out, '"');
    } else if c == '\\' {
        push_char(out, '\\');
        push_char(out, '\\');
    } else if c == '\n' {
        push_char(out, '\\');
        push_char(out, 'n');
    } else if c == '\r' {
        push_char(out, '\\');
        push_char(out, 'r');
    } else if c == '\t' {
        push_char(out, '\\');
        push_char(out, 't');
    } else if (c as u32) < 0x20 {
        let code: u32 = c as u32;
        let hi: u32 = code / 16;
        let lo: u32 = code % 16;
        push_char(out, '\\');
        push_char(out, 'u');
        push_char(out, '0');
        push_char(out, '0');
        push_char(out, ((48 + hi) as u8) as char);
        if lo < 10 {
            push_char(out, ((48 + lo) as u8) as char);
        } else {
            push_char(out, ((87 + lo) as u8) as char);
        }
    } else {
        push_char(out, c);
    }
    assert(out@ =~= old(out)@ + escaped(c));
}

/// Appends the text `t` as a string.
pub fn push_quoted(out: &mut String, t: &str)
    ensures
        final(out)@ == old(out)@ + quoted(t@),
{
    let chars = chars_of(t);
    push_char(out, '"');
    let ghost before = out@;
    let mut i: usize = 0;
    while i < chars.len()
        invariant
            i <= chars.len(),
            out@ == before + escaped_all(chars@.take(i as int)),
        decreases chars.len() - i,
    {
        push_escaped(out, chars[i]);
        proof {
            lemma_escaped_all_push(chars@.take(i as int), chars@[i as int]);
            assert(chars@.take(i + 1) =~= chars@.take(i as int).push(chars@[i as int]));
            assert(out@ =~= before + escaped_all(chars@.take(i + 1)));
        }
        i += 1;
    }
    assert(chars@.take(i as int) =~= chars@);
    push_char(out, '"');
    assert(out@ =~= old(out)@ + quoted(t@));
}

/// Whether `c`, standing behind a number, leaves the number as it is: no
/// digit, no point and no `e`.
pub open spec fn ends_number(c: char) -> bool {
    !is_digit(c) && c != '.' && c != 'e' && c != 'E'
}

/// The count at `s[i]`, and where it ends: a JSON number that is written
/// with digits alone and is below 65536.
pub open spec fn count_at(s: Seq<char>, i: int) -> Option<(u16, int)> {
    match number_end(s, i) {
        None => None,
        Some(end) => if is_decimal(s.subrange(i, end)) && decimal_value(s.subrange(i, end))
            <= 0xffff {
            Some((decimal_value(s.subrange(i, end)) as u16, end))
        } else {
            None
        },
    }
}

/// The first digits of a numeral write no more than all of them.
pub proof fn lemma_decimal_value_prefix(t: Seq<char>, k: int)
    requires
        0 <= k <= t.len(),
    ensures
        decimal_value(t.take(k)) <= decimal_value(t),
    decreases t.len(),
{
    if k == t.len() {
        assert(t.take(k) =~= t);
    } else {
        lemma_decimal_value_prefix(t.drop_last(), k);
        assert(t.drop_last().take(k) =~= t.take(k));
    }
}

/// A run of `k` digits that no digit follows ends behind its last digit.
pub proof fn lemma_digits_end_run(s: Seq<char>, i: int, k: nat)
    requires
        0 <= i,
        i + k <= s.len(),
        forall|j: int| i <= j < i + k ==> is_digit(#[trigger] s[j]),
        i + k == s.len() || !is_digit(s[i + k]),
    ensures
        digits_end(s, i) == i + k,
    decreases k,
{
    if k > 0 {
        lemma_digits_end_run(s, i + 1, (k - 1) as nat);
    }
}

/// Inside a text that no digit follows, a run of digits ends where it
/// ends in the text alone.
pub proof fn lemma_digits_end_shift(pre: Seq<char>, t: Seq<char>, post: Seq<char>, j: int)
    requires
        0 <= j <= t.len(),
        post.len() > 0,
        !is_digit(post[0]),
    ensures
        digits_end(pre + t + post, pre.len() + j) == pre.len() + digits_end(t, j),
    decreases t.len() - j,
{
    let s = pre + t + post;
    if j < t.len() {
        assert(s[pre.len() + j] == t[j]);
        if is_digit(t[j]) {
            lemma_digits_end_shift(pre, t, post, j + 1);
        }
    } else {
        assert(s[pre.len() + j] == post[0]);
    }
}

/// Inside a text that no digit follows, the whole part of a number ends
/// where it ends in the text alone.
proof fn lemma_whole_end_shift(pre: Seq<char>, t: Seq<char>, post: Seq<char>, a: int)
    requires
        0 <= a <= t.len(),
        whole_end(t, a) is Some,
        post.len() > 0,
        !is_digit(post[0]),
    ensures
        whole_end(pre + t + post, pre.len() + a) == Some(pre.len() + whole_end(t, a)->Some_0),
        a < whole_end(t, a)->Some_0 <= t.len(),
{
    let s = pre + t + post;
    assert(s[pre.len() + a] == t[a]);
    lemma_digits_end_bounds(t, a);
    lemma_digits_end_shift(pre, t, post, a);
}

/// Inside a text that neither a digit nor a point follows, the fraction of
/// a number ends where it ends in the text alone.
proof fn lemma_fraction_end_shift(pre: Seq<char>, t: Seq<char>, post: Seq<char>, b: int)
    requires
        0 <= b <= t.len(),
        fraction_end(t, b) is Some,
        post.len() > 0,
        ends_number(post[0]),
    ensures
        fraction_end(pre + t + post, pre.len() + b) == Some(
            pre.len() + fraction_end(t, b)->Some_0,
        ),
        b <= fraction_end(t, b)->Some_0 <= t.len(),
{
    let s = pre + t + post;
    if b < t.len() {
        assert(s[pre.len() + b] == t[b]);
        if t[b] == '.' {
            assert(s[pre.len() + b + 1] == t[b + 1]);
            lemma_digits_end_bounds(t, b + 1);
            lemma_digits_end_shift(pre, t, post, b + 1);
        }
    } else {
        assert(s[pre.len() + b] == post[0]);
    }
}

/// Inside a text that neither a digit nor an `e` follows, the exponent of
/// a number ends where it ends in the text alone.
proof fn lemma_exponent_end_shift(pre: Seq<char>, t: Seq<char>, post: Seq<char>, c: int)
    requires
        0 <= c <= t.len(),
        exponent_end(t, c) is Some,
        post.len() > 0,
        ends_number(post[0]),
    ensures
        exponent_end(pre + t + post, pre.len() + c) == Some(
            pre.len() + exponent_end(t, c)->Some_0,
        ),
        c <= exponent_end(t, c)->Some_0 <= t.len(),
{
    let s = pre + t + post;
    if c < t.len() {
        assert(s[pre.len() + c] == t[c]);
        if t[c] == 'e' || t[c] == 'E' {
            let d = if c + 1 < t.len() && (t[c + 1] == '+' || t[c + 1] == '-') {
                c + 2
            } else {
                c + 1
            };
            assert(digit_at(t, d));
            assert(s[pre.len() + c + 1] == t[c + 1]);
            assert(s[pre.len() + d] == t[d]);
            lemma_digits_end_bounds(t, d);
            lemma_digits_end_shift(pre, t, post, d);
        }
    } else {
        assert(s[pre.len() + c] == post[0]);
    }
}

/// A number written before a character that leaves it as it is ends there.
pub proof fn lemma_number_written(pre: Seq<char>, t: Seq<char>, post: Seq<char>)
    requires
        is_number(t),
        post.len() > 0,
        ends_number(post[0]),
    ensures
        number_end(pre + t + post, pre.len() as int) == Some((pre.len() + t.len()) as int),
{
    reveal(number_end);
    let s = pre + t + post;
    let n = pre.len() as int;
    let a = if 0 < t.len() && t[0] == '-' {
        1int
    } else {
        0int
    };
    assert(t.len() > 0) by {
        if t.len() == 0 {
            assert(whole_end(t, 0) is None);
        }
    }
    assert(s[n] == t[0]);
    lemma_whole_end_shift(pre, t, post, a);
    let b = whole_end(t, a)->Some_0;
    lemma_fraction_end_shift(pre, t, post, b);
    let c = fraction_end(t, b)->Some_0;
    lemma_exponent_end_shift(pre, t, post, c);
}

/// A count written before a character that leaves it as it is is read
/// back there.
pub proof fn lemma_count_written(pre: Seq<char>, n: u16, post: Seq<char>)
    requires
        post.len() > 0,
        ends_number(post[0]),
    ensures
        count_at(pre + decimal_digits(n as nat) + post, pre.len() as int) == Some(
            (n, (pre.len() + decimal_digits(n as nat).len()) as int),
        ),
{
    reveal(number_end);
    let t = decimal_digits(n as nat);
    let s = pre + t + post;
    lemma_decimal_round_trip(n as nat);
    assert(is_number(t)) by {
        if n == 0 {
            assert(t.len() == 1);
        } else {
            lemma_digits_end_run(t, 0, t.len());
        }
    }
    lemma_number_written(pre, t, post);
    assert(s.subrange(pre.len() as int, (pre.len() + t.len()) as int) =~= t);
}

/// Reads the count at `s[i]`.
pub fn read_count(s: &[char], i: usize) -> (r: Option<(u16, usize)>)
    requires
        i <= s.len(),
    ensures
        count_at(s@, i as int) == match r {
            Some((n, next)) => Some((n, next as int)),
            None => None,
        },
        r matches Some((_, next)) ==> i < next <= s.len(),
{
    let end = match scan_number(s, i) {
        Some(end) => end,
        None => {
            return None;
        },
    };
    let ghost token = s@.subrange(i as int, end as int);
    let mut value: u32 = 0;
    let mut j: usize = i;
    while j < end
        invariant
            i <= j <= end <= s.len(),
            number_end(s@, i as int) == Some(end as int),
            token == s@.subrange(i as int, end as int),
            forall|k: int| 0 <= k < j - i ==> is_digit(#[trigger] token[k]),
            value == decimal_value(token.take(j - i)),
            value <= 0xffff,
        decreases end - j,
    {
        let c = s[j];
        if !is_digit_char(c) {
            assert(!is_digit(token[j - i]));
            return None;
        }
        proof {
            assert(token.take(j - i + 1).drop_last() =~= token.take(j - i));
            assert(token.take(j - i + 1).last() == c);
            lemma_decimal_value_prefix(token, j - i + 1);
            assert(decimal_value(token.take(j - i + 1)) == value * 10 + digit_value(c));
        }
        value = value * 10 + (c as u32 - 48);
        if value > 0xffff {
            return None;
        }
        j += 1;
    }
    assert(token.take(j - i) =~= token);
    Some((value as u16, end))
}

} // verus!
