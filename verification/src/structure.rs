//! A university's record: its name, two enrollment counts, its schools and
//! its acceptance rate; as a CBOR map and as a JSON object.
//!
//! In both forms the record is a map from the five field names to their
//! values. The rate is kept, and travels, as the decimal literal that it
//! was written with: in JSON as a number, in CBOR as a text string.

use crate::cbor::{
    head, head_at, lemma_head_written, lemma_text_written, push_head, push_text, read_head,
    read_text, text, text_at, ARRAY, MAP, UNSIGNED,
};
use crate::error::{DecodeError, ParseError};
use crate::json::{is_number, push_quoted, quoted, scan_number, skip_ws};
use crate::object::{
    array, lemma_json_round_trip, member, parse_record, push_array, push_key, read_object,
    render_record,
};
use crate::text::{chars_of, decimal_digits, lemma_utf8_len, push_char, push_decimal, str_eq};
use vstd::prelude::*;
use vstd::utf8::encode_utf8;

verus! {

/// The name of the field that holds the name.
pub const NAME: &'static str = "name";

/// The name of the field that holds the number of undergraduates.
pub const UNDERGRADUATE_ENROLLMENT: &'static str = "undergraduate_enrollment";

/// The name of the field that holds the number of graduates.
pub const GRADUATE_ENROLLMENT: &'static str = "graduate_enrollment";

/// The name of the field that holds the schools.
pub const SCHOOLS: &'static str = "schools";

/// The name of the field that holds the acceptance rate.
pub const ACCEPTANCE_RATE: &'static str = "acceptance_rate";

/// A ratio, kept as the decimal literal that it was written with, such as
/// `0.07`. The library copies the literal and never computes with it, so a
/// ratio comes back from every form exactly as it went in.
#[derive(Debug)]
pub struct Ratio {
    literal: String,
}

impl View for Ratio {
    type V = Seq<char>;

    closed spec fn view(&self) -> Seq<char> {
        self.literal@
    }
}

impl Clone for Ratio {
    fn clone(&self) -> (copy: Ratio)
        ensures
            copy@ == self@,
    {
        proof {
            use_type_invariant(self);
        }
        Ratio { literal: self.literal.clone() }
    }
}

impl Ratio {
    #[verifier::type_invariant]
    spec fn well_formed(&self) -> bool {
        is_number(self.literal@)
    }

    /// The ratio that `literal` writes, if `literal` is a JSON number.
    pub fn parse(literal: &str) -> (r: Option<Ratio>)
        ensures
            match r {
                Some(ratio) => is_number(literal@) && ratio@ == literal@,
                None => !is_number(literal@),
            },
    {
        let chars = chars_of(literal);
        match scan_number(chars.as_slice(), 0) {
            Some(end) => if end == chars.len() {
                Some(Ratio { literal: literal.to_owned() })
            } else {
                None
            },
            None => None,
        }
    }

    /// The literal.
    pub fn as_str(&self) -> (literal: &str)
        ensures
            literal@ == self@,
            is_number(self@),
    {
        proof {
            use_type_invariant(self);
        }
        self.literal.as_str()
    }
}

/// A university.
#[derive(Debug, Clone)]
pub struct University {
    pub name: String,
    pub undergraduate_enrollment: u16,
    pub graduate_enrollment: u16,
    pub schools: Vec<String>,
    pub acceptance_rate: Ratio,
}

/// What a university's record holds, in plain values.
pub ghost struct UniversityView {
    pub name: Seq<char>,
    pub undergraduate_enrollment: u16,
    pub graduate_enrollment: u16,
    pub schools: Seq<Seq<char>>,
    pub acceptance_rate: Seq<char>,
}

/// The texts that the strings `v` hold.
pub open spec fn texts_view(v: Seq<String>) -> Seq<Seq<char>> {
    Seq::new(v.len(), |i: int| v[i]@)
}

impl View for University {
    type V = UniversityView;

    open spec fn view(&self) -> UniversityView {
        UniversityView {
            name: self.name@,
            undergraduate_enrollment: self.undergraduate_enrollment,
            graduate_enrollment: self.graduate_enrollment,
            schools: texts_view(self.schools@),
            acceptance_rate: self.acceptance_rate@,
        }
    }
}

impl PartialEq for Ratio {
    /// Two ratios are equal when they are written with the same literal.
    fn eq(&self, other: &Ratio) -> (r: bool) {
        str_eq(self.literal.as_str(), other.literal.as_str())
    }
}

impl vstd::std_specs::cmp::PartialEqSpecImpl for Ratio {
    open spec fn obeys_eq_spec() -> bool {
        true
    }

    open spec fn eq_spec(&self, other: &Ratio) -> bool {
        self@ == other@
    }
}

/// Whether the two lists hold the same texts in the same order.
fn same_texts(a: &Vec<String>, b: &Vec<String>) -> (r: bool)
    ensures
        r == (texts_view(a@) == texts_view(b@)),
{
    if a.len() != b.len() {
        assert(texts_view(a@).len() != texts_view(b@).len());
        return false;
    }
    let mut i: usize = 0;
    while i < a.len()
        invariant
            i <= a.len(),
            a.len() == b.len(),
            forall|k: int| 0 <= k < i ==> a@[k]@ == b@[k]@,
        decreases a.len() - i,
    {
        if !str_eq(a[i].as_str(), b[i].as_str()) {
            assert(texts_view(a@)[i as int] != texts_view(b@)[i as int]);
            return false;
        }
        i += 1;
    }
    assert(texts_view(a@) =~= texts_view(b@));
    true
}

impl PartialEq for University {
    /// Two records are equal when they hold the same values, field by
    /// field.
    fn eq(&self, other: &University) -> (r: bool) {
        str_eq(self.name.as_str(), other.name.as_str()) && self.undergraduate_enrollment
            == other.undergraduate_enrollment && self.graduate_enrollment
            == other.graduate_enrollment && same_texts(&self.schools, &other.schools)
            && self.acceptance_rate == other.acceptance_rate
    }
}

impl vstd::std_specs::cmp::PartialEqSpecImpl for University {
    open spec fn obeys_eq_spec() -> bool {
        true
    }

    open spec fn eq_spec(&self, other: &University) -> bool {
        self@ == other@
    }
}

/// The text strings `ts` as data items, one after the other.
pub open spec fn texts(ts: Seq<Seq<char>>) -> Seq<u8>
    decreases ts.len(),
{
    if ts.len() == 0 {
        Seq::empty()
    } else {
        texts(ts.drop_last()) + text(ts.last())
    }
}

/// An array of the text strings `ts`.
pub open spec fn array_of_texts(ts: Seq<Seq<char>>) -> Seq<u8>
    recommends
        ts.len() <= u64::MAX,
{
    head(ARRAY, ts.len() as u64) + texts(ts)
}

/// An entry of the map: the key as a text string, and the value.
pub open spec fn field(key: Seq<char>, value: Seq<u8>) -> Seq<u8> {
    text(key) + value
}

/// The record as a CBOR map of five entries, in the order of the fields.
pub open spec fn encode_record(v: UniversityView) -> Seq<u8> {
    head(MAP, 5) + field(NAME@, text(v.name)) + field(
        UNDERGRADUATE_ENROLLMENT@,
        head(UNSIGNED, v.undergraduate_enrollment as u64),
    ) + field(GRADUATE_ENROLLMENT@, head(UNSIGNED, v.graduate_enrollment as u64)) + field(
        SCHOOLS@,
        array_of_texts(v.schools),
    ) + field(ACCEPTANCE_RATE@, text(v.acceptance_rate))
}

/// Where the text string `key` at `b[at]` ends, or why it does not stand
/// there.
pub open spec fn key_at(b: Seq<u8>, at: int, key: Seq<char>) -> Result<int, DecodeError> {
    match text_at(b, at) {
        Err(e) => Err(e),
        Ok((t, next)) => if t == key {
            Ok(next)
        } else {
            Err(DecodeError::Malformed)
        },
    }
}

/// The text under `key` at `b[at]`, and where the entry ends; or why no
/// such entry stands there.
pub open spec fn text_field_at(b: Seq<u8>, at: int, key: Seq<char>) -> Result<
    (Seq<char>, int),
    DecodeError,
> {
    match key_at(b, at, key) {
        Err(e) => Err(e),
        Ok(start) => text_at(b, start),
    }
}

/// The unsigned integer below 65536 under `key` at `b[at]`, and where the
/// entry ends; or why no such entry stands there.
pub open spec fn u16_field_at(b: Seq<u8>, at: int, key: Seq<char>) -> Result<
    (u16, int),
    DecodeError,
> {
    match key_at(b, at, key) {
        Err(e) => Err(e),
        Ok(start) => match head_at(b, start, UNSIGNED) {
            Err(e) => Err(e),
            Ok((n, next)) => if n > 0xffff {
                Err(DecodeError::Malformed)
            } else {
                Ok((n as u16, next))
            },
        },
    }
}

/// The `n` text strings from `b[at]` on, behind the texts `acc`, and where
/// they end; or why they do not stand there.
pub open spec fn texts_at(b: Seq<u8>, at: int, n: nat, acc: Seq<Seq<char>>) -> Result<
    (Seq<Seq<char>>, int),
    DecodeError,
>
    decreases n,
{
    if n == 0 {
        Ok((acc, at))
    } else {
        match text_at(b, at) {
            Err(e) => Err(e),
            Ok((t, next)) => texts_at(b, next, (n - 1) as nat, acc.push(t)),
        }
    }
}

/// The array of text strings under `key` at `b[at]`, and where the entry
/// ends; or why no such entry stands there.
pub open spec fn texts_field_at(b: Seq<u8>, at: int, key: Seq<char>) -> Result<
    (Seq<Seq<char>>, int),
    DecodeError,
> {
    match key_at(b, at, key) {
        Err(e) => Err(e),
        Ok(start) => match head_at(b, start, ARRAY) {
            Err(e) => Err(e),
            Ok((n, next)) => texts_at(b, next, n as nat, Seq::empty()),
        },
    }
}

/// The decimal literal under `key` at `b[at]`, and where the entry ends;
/// or why no such entry stands there.
pub open spec fn ratio_field_at(b: Seq<u8>, at: int, key: Seq<char>) -> Result<
    (Seq<char>, int),
    DecodeError,
> {
    match text_field_at(b, at, key) {
        Err(e) => Err(e),
        Ok((t, next)) => if is_number(t) {
            Ok((t, next))
        } else {
            Err(DecodeError::Malformed)
        },
    }
}

/// The record that the bytes `b` hold, or why they hold none: a map of
/// five entries, keyed by the five field names in their order, and nothing
/// behind it.
pub open spec fn decode_record(b: Seq<u8>) -> Result<UniversityView, DecodeError> {
    match head_at(b, 0, MAP) {
        Err(e) => Err(e),
        Ok((n, at0)) => if n != 5 {
            Err(DecodeError::Malformed)
        } else {
            match text_field_at(b, at0, NAME@) {
                Err(e) => Err(e),
                Ok((name, at1)) => match u16_field_at(b, at1, UNDERGRADUATE_ENROLLMENT@) {
                    Err(e) => Err(e),
                    Ok((undergraduates, at2)) => match u16_field_at(b, at2, GRADUATE_ENROLLMENT@) {
                        Err(e) => Err(e),
                        Ok((graduates, at3)) => match texts_field_at(b, at3, SCHOOLS@) {
                            Err(e) => Err(e),
                            Ok((schools, at4)) => match ratio_field_at(b, at4, ACCEPTANCE_RATE@) {
                                Err(e) => Err(e),
                                Ok((rate, at5)) => if at5 != b.len() {
                                    Err(DecodeError::TrailingBytes)
                                } else {
                                    Ok(
                                        UniversityView {
                                            name,
                                            undergraduate_enrollment: undergraduates,
                                            graduate_enrollment: graduates,
                                            schools,
                                            acceptance_rate: rate,
                                        },
                                    )
                                },
                            },
                        },
                    },
                },
            }
        },
    }
}

/// Whether the texts of `v`, and the number of its schools, are short
/// enough for the 64-bit lengths that the encoding writes. Every record
/// that fits in memory is.
pub open spec fn fits(v: UniversityView) -> bool {
    &&& encode_utf8(v.name).len() <= u64::MAX
    &&& encode_utf8(v.acceptance_rate).len() <= u64::MAX
    &&& v.schools.len() <= u64::MAX
    &&& forall|i: int|
        0 <= i < v.schools.len() ==> encode_utf8(#[trigger] v.schools[i]).len() <= u64::MAX
}

/// The five field names are short.
pub proof fn lemma_keys_fit()
    ensures
        encode_utf8(NAME@).len() <= u64::MAX,
        encode_utf8(UNDERGRADUATE_ENROLLMENT@).len() <= u64::MAX,
        encode_utf8(GRADUATE_ENROLLMENT@).len() <= u64::MAX,
        encode_utf8(SCHOOLS@).len() <= u64::MAX,
        encode_utf8(ACCEPTANCE_RATE@).len() <= u64::MAX,
{
    reveal_strlit("name");
    reveal_strlit("undergraduate_enrollment");
    reveal_strlit("graduate_enrollment");
    reveal_strlit("schools");
    reveal_strlit("acceptance_rate");
    lemma_utf8_len(NAME@);
    lemma_utf8_len(UNDERGRADUATE_ENROLLMENT@);
    lemma_utf8_len(GRADUATE_ENROLLMENT@);
    lemma_utf8_len(SCHOOLS@);
    lemma_utf8_len(ACCEPTANCE_RATE@);
}

/// A key written behind `pre` is found there.
pub proof fn lemma_key_written(pre: Seq<u8>, key: Seq<char>, post: Seq<u8>)
    requires
        encode_utf8(key).len() <= u64::MAX,
    ensures
        key_at(pre + text(key) + post, pre.len() as int, key) == Ok::<int, DecodeError>(
            (pre.len() + text(key).len()) as int,
        ),
{
    lemma_text_written(pre, key, post);
}

/// A text written under its key behind `pre` is read back there.
pub proof fn lemma_text_field_written(pre: Seq<u8>, key: Seq<char>, t: Seq<char>, post: Seq<u8>)
    requires
        encode_utf8(key).len() <= u64::MAX,
        encode_utf8(t).len() <= u64::MAX,
    ensures
        text_field_at(pre + field(key, text(t)) + post, pre.len() as int, key) == Ok::<
            (Seq<char>, int),
            DecodeError,
        >((t, (pre.len() + field(key, text(t)).len()) as int)),
{
    let b = pre + field(key, text(t)) + post;
    assert(b =~= pre + text(key) + (text(t) + post));
    lemma_key_written(pre, key, text(t) + post);
    assert(b =~= (pre + text(key)) + text(t) + post);
    lemma_text_written(pre + text(key), t, post);
}

/// A decimal literal written under its key behind `pre` is read back
/// there.
pub proof fn lemma_ratio_field_written(pre: Seq<u8>, key: Seq<char>, t: Seq<char>, post: Seq<u8>)
    requires
        encode_utf8(key).len() <= u64::MAX,
        encode_utf8(t).len() <= u64::MAX,
        is_number(t),
    ensures
        ratio_field_at(pre + field(key, text(t)) + post, pre.len() as int, key) == Ok::<
            (Seq<char>, int),
            DecodeError,
        >((t, (pre.len() + field(key, text(t)).len()) as int)),
{
    lemma_text_field_written(pre, key, t, post);
}

/// A count written under its key behind `pre` is read back there.
pub proof fn lemma_u16_field_written(pre: Seq<u8>, key: Seq<char>, n: u16, post: Seq<u8>)
    requires
        encode_utf8(key).len() <= u64::MAX,
    ensures
        u16_field_at(
            pre + field(key, head(UNSIGNED, n as u64)) + post,
            pre.len() as int,
            key,
        ) == Ok::<(u16, int), DecodeError>(
            (n, (pre.len() + field(key, head(UNSIGNED, n as u64)).len()) as int),
        ),
{
    let value = head(UNSIGNED, n as u64);
    let b = pre + field(key, value) + post;
    assert(b =~= pre + text(key) + (value + post));
    lemma_key_written(pre, key, value + post);
    assert(b =~= (pre + text(key)) + value + post);
    lemma_head_written(pre + text(key), UNSIGNED, n as u64, post);
}

/// The bytes of a run of text strings start with the first of them.
pub proof fn lemma_texts_front(ts: Seq<Seq<char>>)
    requires
        ts.len() > 0,
    ensures
        texts(ts) == text(ts[0]) + texts(ts.drop_first()),
    decreases ts.len(),
{
    if ts.len() == 1 {
        assert(ts.drop_last() =~= Seq::<Seq<char>>::empty());
        assert(ts.drop_first() =~= Seq::<Seq<char>>::empty());
        assert(texts(ts) =~= text(ts[0]) + texts(ts.drop_first()));
    } else {
        lemma_texts_front(ts.drop_last());
        let rest = ts.drop_first();
        assert(rest.drop_last() =~= ts.drop_last().drop_first());
        assert(rest.last() == ts.last());
        assert(ts.drop_last()[0] == ts[0]);
        assert(texts(ts) =~= text(ts[0]) + texts(rest));
    }
}

/// Text strings written behind `pre` are read back there, in order, behind
/// the texts read before them.
pub proof fn lemma_texts_written(
    pre: Seq<u8>,
    ts: Seq<Seq<char>>,
    post: Seq<u8>,
    acc: Seq<Seq<char>>,
)
    requires
        forall|i: int| 0 <= i < ts.len() ==> encode_utf8(#[trigger] ts[i]).len() <= u64::MAX,
    ensures
        texts_at(pre + texts(ts) + post, pre.len() as int, ts.len(), acc) == Ok::<
            (Seq<Seq<char>>, int),
            DecodeError,
        >((acc + ts, (pre.len() + texts(ts).len()) as int)),
    decreases ts.len(),
{
    let b = pre + texts(ts) + post;
    if ts.len() == 0 {
        assert(acc + ts =~= acc);
    } else {
        let t = ts[0];
        let rest = ts.drop_first();
        lemma_texts_front(ts);
        assert(b =~= pre + text(t) + (texts(rest) + post));
        lemma_text_written(pre, t, texts(rest) + post);
        let pre2 = pre + text(t);
        assert(b =~= pre2 + texts(rest) + post);
        assert forall|i: int| 0 <= i < rest.len() implies encode_utf8(#[trigger] rest[i]).len()
            <= u64::MAX by {
            assert(rest[i] == ts[i + 1]);
        }
        lemma_texts_written(pre2, rest, post, acc.push(t));
        assert(acc.push(t) + rest =~= acc + ts);
    }
}

/// An array of text strings written under its key behind `pre` is read
/// back there.
pub proof fn lemma_texts_field_written(
    pre: Seq<u8>,
    key: Seq<char>,
    ts: Seq<Seq<char>>,
    post: Seq<u8>,
)
    requires
        encode_utf8(key).len() <= u64::MAX,
        ts.len() <= u64::MAX,
        forall|i: int| 0 <= i < ts.len() ==> encode_utf8(#[trigger] ts[i]).len() <= u64::MAX,
    ensures
        texts_field_at(pre + field(key, array_of_texts(ts)) + post, pre.len() as int, key) == Ok::<
            (Seq<Seq<char>>, int),
            DecodeError,
        >((ts, (pre.len() + field(key, array_of_texts(ts)).len()) as int)),
{
    let count = head(ARRAY, ts.len() as u64);
    let b = pre + field(key, array_of_texts(ts)) + post;
    assert(b =~= pre + text(key) + (array_of_texts(ts) + post));
    lemma_key_written(pre, key, array_of_texts(ts) + post);
    let pre2 = pre + text(key);
    assert(b =~= pre2 + count + (texts(ts) + post));
    lemma_head_written(pre2, ARRAY, ts.len() as u64, texts(ts) + post);
    let pre3 = pre2 + count;
    assert(b =~= pre3 + texts(ts) + post);
    lemma_texts_written(pre3, ts, post, Seq::empty());
    assert(Seq::<Seq<char>>::empty() + ts =~= ts);
}

/// Every record comes back from its CBOR form, field by field.
pub proof fn lemma_record_round_trip(v: UniversityView)
    requires
        fits(v),
        is_number(v.acceptance_rate),
    ensures
        decode_record(encode_record(v)) == Ok::<UniversityView, DecodeError>(v),
{
    lemma_keys_fit();
    let b = encode_record(v);
    let nil = Seq::<u8>::empty();
    let x0 = head(MAP, 5);
    let x1 = field(NAME@, text(v.name));
    let x2 = field(UNDERGRADUATE_ENROLLMENT@, head(UNSIGNED, v.undergraduate_enrollment as u64));
    let x3 = field(GRADUATE_ENROLLMENT@, head(UNSIGNED, v.graduate_enrollment as u64));
    let x4 = field(SCHOOLS@, array_of_texts(v.schools));
    let x5 = field(ACCEPTANCE_RATE@, text(v.acceptance_rate));
    let a1 = x0;
    let a2 = a1 + x1;
    let a3 = a2 + x2;
    let a4 = a3 + x3;
    let a5 = a4 + x4;
    let z4 = x5 + nil;
    let z3 = x4 + z4;
    let z2 = x3 + z3;
    let z1 = x2 + z2;
    let z0 = x1 + z1;
    assert(b == a5 + x5 + nil) by {
        assert(a5 + x5 + nil =~= a5 + x5);
    }
    assert(b == a4 + x4 + z4) by {
        assert(a4 + x4 + z4 =~= a5 + x5 + nil);
    }
    assert(b == a3 + x3 + z3) by {
        assert(a3 + x3 + z3 =~= a4 + x4 + z4);
    }
    assert(b == a2 + x2 + z2) by {
        assert(a2 + x2 + z2 =~= a3 + x3 + z3);
    }
    assert(b == a1 + x1 + z1) by {
        assert(a1 + x1 + z1 =~= a2 + x2 + z2);
    }
    assert(b == nil + x0 + z0) by {
        assert(nil + x0 + z0 =~= a1 + x1 + z1);
    }
    lemma_head_written(nil, MAP, 5, z0);
    lemma_text_field_written(a1, NAME@, v.name, z1);
    lemma_u16_field_written(a2, UNDERGRADUATE_ENROLLMENT@, v.undergraduate_enrollment, z2);
    lemma_u16_field_written(a3, GRADUATE_ENROLLMENT@, v.graduate_enrollment, z3);
    lemma_texts_field_written(a4, SCHOOLS@, v.schools, z4);
    lemma_ratio_field_written(a5, ACCEPTANCE_RATE@, v.acceptance_rate, nil);
}

/// Appends the text strings of `list` as an array.
fn push_texts(out: &mut Vec<u8>, list: &Vec<String>)
    ensures
        final(out)@ == old(out)@ + array_of_texts(texts_view(list@)),
        list@.len() <= u64::MAX,
        forall|i: int|
            0 <= i < list@.len() ==> encode_utf8(#[trigger] texts_view(list@)[i]).len()
                <= u64::MAX,
{
    let ghost ts = texts_view(list@);
    push_head(out, ARRAY, list.len() as u64);
    let ghost before = out@;
    let mut i: usize = 0;
    while i < list.len()
        invariant
            i <= list.len(),
            ts == texts_view(list@),
            out@ == before + texts(ts.take(i as int)),
            forall|j: int| 0 <= j < i ==> encode_utf8(#[trigger] ts[j]).len() <= u64::MAX,
        decreases list.len() - i,
    {
        push_text(out, list[i].as_str());
        proof {
            assert(ts.take(i + 1).drop_last() =~= ts.take(i as int));
            assert(ts.take(i + 1).last() == list@[i as int]@);
            assert(out@ =~= before + texts(ts.take(i + 1)));
        }
        i += 1;
    }
    assert(ts.take(i as int) =~= ts);
    assert(out@ =~= old(out)@ + array_of_texts(ts));
}

/// Encodes the record as a CBOR map, from which the same record can be
/// decoded again.
pub fn serialize_struct_to_cbor(struct_data: &University) -> (bytes: Vec<u8>)
    ensures
        bytes@ == encode_record(struct_data@),
        decode_record(bytes@) == Ok::<UniversityView, DecodeError>(struct_data@),
{
    let mut bytes: Vec<u8> = Vec::new();
    push_head(&mut bytes, MAP, 5);
    let ghost a1 = bytes@;
    push_text(&mut bytes, NAME);
    push_text(&mut bytes, struct_data.name.as_str());
    let ghost a2 = bytes@;
    assert(a2 =~= a1 + field(NAME@, text(struct_data.name@)));
    push_text(&mut bytes, UNDERGRADUATE_ENROLLMENT);
    push_head(&mut bytes, UNSIGNED, struct_data.undergraduate_enrollment as u64);
    let ghost a3 = bytes@;
    assert(a3 =~= a2 + field(
        UNDERGRADUATE_ENROLLMENT@,
        head(UNSIGNED, struct_data.undergraduate_enrollment as u64),
    ));
    push_text(&mut bytes, GRADUATE_ENROLLMENT);
    push_head(&mut bytes, UNSIGNED, struct_data.graduate_enrollment as u64);
    let ghost a4 = bytes@;
    assert(a4 =~= a3 + field(
        GRADUATE_ENROLLMENT@,
        head(UNSIGNED, struct_data.graduate_enrollment as u64),
    ));
    push_text(&mut bytes, SCHOOLS);
    push_texts(&mut bytes, &struct_data.schools);
    let ghost a5 = bytes@;
    assert(a5 =~= a4 + field(SCHOOLS@, array_of_texts(texts_view(struct_data.schools@))));
    push_text(&mut bytes, ACCEPTANCE_RATE);
    push_text(&mut bytes, struct_data.acceptance_rate.as_str());
    assert(bytes@ =~= a5 + field(ACCEPTANCE_RATE@, text(struct_data.acceptance_rate@)));
    proof {
        lemma_record_round_trip(struct_data@);
    }
    bytes
}

/// Reads the text string `key` at `bytes[at]`.
fn read_key(bytes: &[u8], at: usize, key: &str) -> (r: Result<usize, DecodeError>)
    requires
        at <= bytes.len(),
    ensures
        key_at(bytes@, at as int, key@) == match r {
            Ok(next) => Ok(next as int),
            Err(e) => Err(e),
        },
        r matches Ok(next) ==> at < next <= bytes.len(),
{
    match read_text(bytes, at) {
        Ok((t, next)) => if str_eq(t.as_str(), key) {
            Ok(next)
        } else {
            Err(DecodeError::Malformed)
        },
        Err(e) => Err(e),
    }
}

/// Reads the text under `key` at `bytes[at]`.
fn read_text_field(bytes: &[u8], at: usize, key: &str) -> (r: Result<(String, usize), DecodeError>)
    requires
        at <= bytes.len(),
    ensures
        text_field_at(bytes@, at as int, key@) == match r {
            Ok((t, next)) => Ok((t@, next as int)),
            Err(e) => Err(e),
        },
        r matches Ok((_, next)) ==> at < next <= bytes.len(),
{
    match read_key(bytes, at, key) {
        Ok(start) => read_text(bytes, start),
        Err(e) => Err(e),
    }
}

/// Reads the unsigned integer below 65536 under `key` at `bytes[at]`.
fn read_u16_field(bytes: &[u8], at: usize, key: &str) -> (r: Result<(u16, usize), DecodeError>)
    requires
        at <= bytes.len(),
    ensures
        u16_field_at(bytes@, at as int, key@) == match r {
            Ok((n, next)) => Ok((n, next as int)),
            Err(e) => Err(e),
        },
        r matches Ok((_, next)) ==> at < next <= bytes.len(),
{
    let start = match read_key(bytes, at, key) {
        Ok(start) => start,
        Err(e) => {
            return Err(e);
        },
    };
    match read_head(bytes, start, UNSIGNED) {
        Ok((n, next)) => if n > 0xffff {
            Err(DecodeError::Malformed)
        } else {
            Ok((n as u16, next))
        },
        Err(e) => Err(e),
    }
}

/// Reads the array of text strings under `key` at `bytes[at]`.
fn read_texts_field(bytes: &[u8], at: usize, key: &str) -> (r: Result<
    (Vec<String>, usize),
    DecodeError,
>)
    requires
        at <= bytes.len(),
    ensures
        texts_field_at(bytes@, at as int, key@) == match r {
            Ok((list, next)) => Ok((texts_view(list@), next as int)),
            Err(e) => Err(e),
        },
        r matches Ok((_, next)) ==> at < next <= bytes.len(),
{
    let start = match read_key(bytes, at, key) {
        Ok(start) => start,
        Err(e) => {
            return Err(e);
        },
    };
    let (count, first) = match read_head(bytes, start, ARRAY) {
        Ok(found) => found,
        Err(e) => {
            return Err(e);
        },
    };
    let mut list: Vec<String> = Vec::new();
    let mut left: u64 = count;
    let mut next: usize = first;
    assert(texts_view(list@) =~= Seq::<Seq<char>>::empty());
    while left > 0
        invariant
            at < next <= bytes.len(),
            texts_field_at(bytes@, at as int, key@) == texts_at(
                bytes@,
                next as int,
                left as nat,
                texts_view(list@),
            ),
        decreases left,
    {
        match read_text(bytes, next) {
            Ok((t, end)) => {
                let ghost before = texts_view(list@);
                list.push(t);
                assert(texts_view(list@) =~= before.push(t@));
                next = end;
            },
            Err(e) => {
                return Err(e);
            },
        }
        left -= 1;
    }
    Ok((list, next))
}

/// Reads the decimal literal under `key` at `bytes[at]`.
fn read_ratio_field(bytes: &[u8], at: usize, key: &str) -> (r: Result<(Ratio, usize), DecodeError>)
    requires
        at <= bytes.len(),
    ensures
        ratio_field_at(bytes@, at as int, key@) == match r {
            Ok((rate, next)) => Ok((rate@, next as int)),
            Err(e) => Err(e),
        },
        r matches Ok((_, next)) ==> at < next <= bytes.len(),
{
    match read_text_field(bytes, at, key) {
        Ok((t, next)) => match Ratio::parse(t.as_str()) {
            Some(rate) => Ok((rate, next)),
            None => Err(DecodeError::Malformed),
        },
        Err(e) => Err(e),
    }
}

/// Decodes a record from a CBOR map as `serialize_struct_to_cbor` writes
/// it, or says why the bytes hold none.
pub fn deserialize_struct_from_cbor(bytes: &[u8]) -> (r: Result<University, DecodeError>)
    ensures
        match r {
            Ok(university) => decode_record(bytes@) == Ok::<UniversityView, DecodeError>(
                university@,
            ),
            Err(e) => decode_record(bytes@) == Err::<UniversityView, DecodeError>(e),
        },
{
    let at0 = match read_head(bytes, 0, MAP) {
        Ok((n, next)) => if n != 5 {
            return Err(DecodeError::Malformed);
        } else {
            next
        },
        Err(e) => {
            return Err(e);
        },
    };
    let (name, at1) = match read_text_field(bytes, at0, NAME) {
        Ok(found) => found,
        Err(e) => {
            return Err(e);
        },
    };
    let (undergraduate_enrollment, at2) = match read_u16_field(
        bytes,
        at1,
        UNDERGRADUATE_ENROLLMENT,
    ) {
        Ok(found) => found,
        Err(e) => {
            return Err(e);
        },
    };
    let (graduate_enrollment, at3) = match read_u16_field(bytes, at2, GRADUATE_ENROLLMENT) {
        Ok(found) => found,
        Err(e) => {
            return Err(e);
        },
    };
    let (schools, at4) = match read_texts_field(bytes, at3, SCHOOLS) {
        Ok(found) => found,
        Err(e) => {
            return Err(e);
        },
    };
    let (acceptance_rate, at5) = match read_ratio_field(bytes, at4, ACCEPTANCE_RATE) {
        Ok(found) => found,
        Err(e) => {
            return Err(e);
        },
    };
    if at5 != bytes.len() {
        return Err(DecodeError::TrailingBytes);
    }
    Ok(University { name, undergraduate_enrollment, graduate_enrollment, schools, acceptance_rate })
}

/// Writes the record as JSON text: an object with the five fields in their
/// order, without white space. The same record can be read from the text
/// again.
pub fn serialize_struct_to_jsonstring(struct_data: &University) -> (text: String)
    ensures
        text@ == render_record(struct_data@),
        parse_record(text@) == Some(struct_data@),
{
    let mut text = String::new();
    push_char(&mut text, '{');
    let ghost a1 = text@;
    assert(a1 =~= seq!['{']);
    push_key(&mut text, NAME);
    push_quoted(&mut text, struct_data.name.as_str());
    let ghost a2 = text@;
    assert(a2 =~= a1 + member(NAME@, quoted(struct_data.name@)));
    push_char(&mut text, ',');
    push_key(&mut text, UNDERGRADUATE_ENROLLMENT);
    push_decimal(&mut text, struct_data.undergraduate_enrollment as u32);
    let ghost a3 = text@;
    assert(a3 =~= a2 + seq![','] + member(
        UNDERGRADUATE_ENROLLMENT@,
        decimal_digits(struct_data.undergraduate_enrollment as nat),
    ));
    push_char(&mut text, ',');
    push_key(&mut text, GRADUATE_ENROLLMENT);
    push_decimal(&mut text, struct_data.graduate_enrollment as u32);
    let ghost a4 = text@;
    assert(a4 =~= a3 + seq![','] + member(
        GRADUATE_ENROLLMENT@,
        decimal_digits(struct_data.graduate_enrollment as nat),
    ));
    push_char(&mut text, ',');
    push_key(&mut text, SCHOOLS);
    push_array(&mut text, &struct_data.schools);
    let ghost a5 = text@;
    assert(a5 =~= a4 + seq![','] + member(SCHOOLS@, array(texts_view(struct_data.schools@))));
    push_char(&mut text, ',');
    push_key(&mut text, ACCEPTANCE_RATE);
    let rate = struct_data.acceptance_rate.as_str();
    text.append(rate);
    assert(text@ =~= a5 + seq![','] + member(ACCEPTANCE_RATE@, struct_data.acceptance_rate@));
    push_char(&mut text, '}');
    proof {
        lemma_json_round_trip(struct_data@);
    }
    text
}

/// Reads a record from its JSON form: an object that holds each of the
/// five fields once, in any order.
pub fn deserialize_jsonstring_to_struct(string_data: &str) -> (r: Result<University, ParseError>)
    ensures
        match r {
            Ok(university) => parse_record(string_data@) == Some(university@),
            Err(_) => parse_record(string_data@) is None,
        },
{
    let chars = chars_of(string_data);
    let s = chars.as_slice();
    let (partial, end) = match read_object(s, skip_ws(s, 0)) {
        Some(found) => found,
        None => {
            return Err(ParseError);
        },
    };
    if skip_ws(s, end) != s.len() {
        return Err(ParseError);
    }
    match partial.finish() {
        Some(university) => Ok(university),
        None => Err(ParseError),
    }
}

} // verus!
