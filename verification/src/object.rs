//! The university's record as a JSON object.
//!
//! The object holds each of the five fields once, in any order, with white
//! space allowed between its tokens; a field of another name, a field
//! twice, and anything but white space behind the object are refused.

use crate::json::{
    count_at, ends_number, is_number, is_ws, lemma_count_written, lemma_number_written,
    lemma_quoted_read, number_end, push_quoted, quoted, read_count, read_string, scan_number,
    skip_ws, string_at, whole_end, ws_end,
};
use crate::structure::{
    texts_view, Ratio, University, UniversityView, ACCEPTANCE_RATE, GRADUATE_ENROLLMENT, NAME,
    SCHOOLS, UNDERGRADUATE_ENROLLMENT,
};
use crate::text::{
    decimal_digits, is_digit, lemma_decimal_round_trip, push_char, str_eq, string_of,
};
use vstd::prelude::*;

verus! {

/// The fields of a record that were read so far.
pub ghost struct Fields {
    pub name: Option<Seq<char>>,
    pub undergraduates: Option<u16>,
    pub graduates: Option<u16>,
    pub schools: Option<Seq<Seq<char>>>,
    pub rate: Option<Seq<char>>,
}

/// No field read yet.
pub open spec fn no_fields() -> Fields {
    Fields { name: None, undergraduates: None, graduates: None, schools: None, rate: None }
}

/// The record that the fields make up, if none is missing.
pub open spec fn complete(f: Fields) -> Option<UniversityView> {
    if f.name is Some && f.undergraduates is Some && f.graduates is Some && f.schools is Some
        && f.rate is Some {
        Some(
            UniversityView {
                name: f.name->Some_0,
                undergraduate_enrollment: f.undergraduates->Some_0,
                graduate_enrollment: f.graduates->Some_0,
                schools: f.schools->Some_0,
                acceptance_rate: f.rate->Some_0,
            },
        )
    } else {
        None
    }
}

/// Whether the character `c` stands at `s[i]`.
pub open spec fn char_at(s: Seq<char>, i: int, c: char) -> bool {
    0 <= i < s.len() && s[i] == c
}

/// The strings of an array from the string at `s[i]` on, behind the texts
/// `acc`, and where the array ends behind its closing bracket.
pub open spec fn strings_from(s: Seq<char>, i: int, acc: Seq<Seq<char>>) -> Option<
    (Seq<Seq<char>>, int),
>
    decreases s.len() - i,
{
    match string_at(s, i) {
        None => None,
        Some((t, end)) => if char_at(s, ws_end(s, end), ',') {
            let next = ws_end(s, ws_end(s, end) + 1);
            if i < next <= s.len() {
                strings_from(s, next, acc.push(t))
            } else {
                None
            }
        } else if char_at(s, ws_end(s, end), ']') {
            Some((acc.push(t), ws_end(s, end) + 1))
        } else {
            None
        },
    }
}

/// The array of strings that starts with a bracket at `s[i]`, and where it
/// ends.
pub open spec fn strings_at(s: Seq<char>, i: int) -> Option<(Seq<Seq<char>>, int)> {
    if !char_at(s, i, '[') {
        None
    } else if char_at(s, ws_end(s, i + 1), ']') {
        Some((Seq::empty(), ws_end(s, i + 1) + 1))
    } else {
        strings_from(s, ws_end(s, i + 1), Seq::empty())
    }
}

/// The number at `s[i]` as it is written, and where it ends.
pub open spec fn literal_at(s: Seq<char>, i: int) -> Option<(Seq<char>, int)> {
    match number_end(s, i) {
        None => None,
        Some(end) => if is_number(s.subrange(i, end)) {
            Some((s.subrange(i, end), end))
        } else {
            None
        },
    }
}

/// The fields `f` with the value at `s[i]` as the field that `key` names,
/// and where the value ends; nothing if `key` names no field or one that
/// `f` holds already, or if no value of the field's type stands there.
pub open spec fn value_at(s: Seq<char>, i: int, key: Seq<char>, f: Fields) -> Option<
    (Fields, int),
> {
    if key == NAME@ {
        match string_at(s, i) {
            Some((t, end)) if f.name is None => Some((Fields { name: Some(t), ..f }, end)),
            _ => None,
        }
    } else if key == UNDERGRADUATE_ENROLLMENT@ {
        match count_at(s, i) {
            Some((n, end)) if f.undergraduates is None => Some(
                (Fields { undergraduates: Some(n), ..f }, end),
            ),
            _ => None,
        }
    } else if key == GRADUATE_ENROLLMENT@ {
        match count_at(s, i) {
            Some((n, end)) if f.graduates is None => Some(
                (Fields { graduates: Some(n), ..f }, end),
            ),
            _ => None,
        }
    } else if key == SCHOOLS@ {
        match strings_at(s, i) {
            Some((ts, end)) if f.schools is None => Some((Fields { schools: Some(ts), ..f }, end)),
            _ => None,
        }
    } else if key == ACCEPTANCE_RATE@ {
        match literal_at(s, i) {
            Some((t, end)) if f.rate is None => Some((Fields { rate: Some(t), ..f }, end)),
            _ => None,
        }
    } else {
        None
    }
}

/// The fields `f` with the member at `s[i]`: a string that names a field,
/// a colon and the field's value.
pub open spec fn member_at(s: Seq<char>, i: int, f: Fields) -> Option<(Fields, int)> {
    match string_at(s, i) {
        None => None,
        Some((key, end)) => if char_at(s, ws_end(s, end), ':') {
            value_at(s, ws_end(s, ws_end(s, end) + 1), key, f)
        } else {
            None
        },
    }
}

/// The fields `f` with the members from `s[i]` on, and where the object
/// ends behind its closing brace.
pub open spec fn members_from(s: Seq<char>, i: int, f: Fields) -> Option<(Fields, int)>
    decreases s.len() - i,
{
    match member_at(s, i, f) {
        None => None,
        Some((g, end)) => if char_at(s, ws_end(s, end), ',') {
            let next = ws_end(s, ws_end(s, end) + 1);
            if i < next <= s.len() {
                members_from(s, next, g)
            } else {
                None
            }
        } else if char_at(s, ws_end(s, end), '}') {
            Some((g, ws_end(s, end) + 1))
        } else {
            None
        },
    }
}

/// The fields of the object that starts with a brace at `s[i]`, and where
/// it ends.
pub open spec fn object_at(s: Seq<char>, i: int) -> Option<(Fields, int)> {
    if !char_at(s, i, '{') {
        None
    } else if char_at(s, ws_end(s, i + 1), '}') {
        Some((no_fields(), ws_end(s, i + 1) + 1))
    } else {
        members_from(s, ws_end(s, i + 1), no_fields())
    }
}

/// The record that the JSON text `s` holds, if it holds one: an object
/// with the five fields, and white space at most around it.
pub open spec fn parse_record(s: Seq<char>) -> Option<UniversityView> {
    match object_at(s, ws_end(s, 0)) {
        None => None,
        Some((f, end)) => if ws_end(s, end) == s.len() {
            complete(f)
        } else {
            None
        },
    }
}

/// The fields of a record that were read so far.
pub struct Partial {
    pub name: Option<String>,
    pub undergraduates: Option<u16>,
    pub graduates: Option<u16>,
    pub schools: Option<Vec<String>>,
    pub rate: Option<Ratio>,
}

impl View for Partial {
    type V = Fields;

    open spec fn view(&self) -> Fields {
        Fields {
            name: match self.name {
                Some(t) => Some(t@),
                None => None,
            },
            undergraduates: self.undergraduates,
            graduates: self.graduates,
            schools: match self.schools {
                Some(list) => Some(texts_view(list@)),
                None => None,
            },
            rate: match self.rate {
                Some(rate) => Some(rate@),
                None => None,
            },
        }
    }
}

impl Partial {
    /// No field read yet.
    pub fn new() -> (partial: Partial)
        ensures
            partial@ == no_fields(),
    {
        Partial { name: None, undergraduates: None, graduates: None, schools: None, rate: None }
    }

    /// The record, if no field is missing.
    pub fn finish(self) -> (r: Option<University>)
        ensures
            complete(self@) == match r {
                Some(university) => Some(university@),
                None => None,
            },
    {
        match (self.name, self.undergraduates, self.graduates, self.schools, self.rate) {
            (
                Some(name),
                Some(undergraduate_enrollment),
                Some(graduate_enrollment),
                Some(schools),
                Some(acceptance_rate),
            ) => Some(
                University {
                    name,
                    undergraduate_enrollment,
                    graduate_enrollment,
                    schools,
                    acceptance_rate,
                },
            ),
            _ => None,
        }
    }
}

/// Whether the character `c` stands at `s[i]`.
fn is_char_at(s: &[char], i: usize, c: char) -> (r: bool)
    ensures
        r == char_at(s@, i as int, c),
{
    i < s.len() && s[i] == c
}

/// Reads the array of strings that starts with a bracket at `s[i]`.
pub fn read_strings(s: &[char], i: usize) -> (r: Option<(Vec<String>, usize)>)
    requires
        i <= s.len(),
    ensures
        strings_at(s@, i as int) == match r {
            Some((list, next)) => Some((texts_view(list@), next as int)),
            None => None,
        },
        r matches Some((_, next)) ==> i < next <= s.len(),
{
    if !is_char_at(s, i, '[') {
        return None;
    }
    let mut list: Vec<String> = Vec::new();
    assert(texts_view(list@) =~= Seq::<Seq<char>>::empty());
    let mut at: usize = skip_ws(s, i + 1);
    if is_char_at(s, at, ']') {
        return Some((list, at + 1));
    }
    loop
        invariant
            i < at <= s.len(),
            strings_at(s@, i as int) == strings_from(s@, at as int, texts_view(list@)),
        decreases s.len() - at,
    {
        let (t, end) = match read_string(s, at) {
            Some(found) => found,
            None => {
                return None;
            },
        };
        let ghost before = texts_view(list@);
        list.push(t);
        assert(texts_view(list@) =~= before.push(t@));
        let mark = skip_ws(s, end);
        if is_char_at(s, mark, ',') {
            at = skip_ws(s, mark + 1);
        } else if is_char_at(s, mark, ']') {
            return Some((list, mark + 1));
        } else {
            return None;
        }
    }
}

/// Reads the number at `s[i]` as it is written.
pub fn read_literal(s: &[char], i: usize) -> (r: Option<(Ratio, usize)>)
    requires
        i <= s.len(),
    ensures
        literal_at(s@, i as int) == match r {
            Some((rate, next)) => Some((rate@, next as int)),
            None => None,
        },
        r matches Some((_, next)) ==> i < next <= s.len(),
{
    let end = match scan_number(s, i) {
        Some(end) => end,
        None => {
            return None;
        },
    };
    match Ratio::parse(string_of(s, i, end).as_str()) {
        Some(rate) => Some((rate, end)),
        None => None,
    }
}

/// Reads the value at `s[i]` as the field that `key` names.
pub fn read_value(s: &[char], i: usize, key: &str, partial: Partial) -> (r: Option<
    (Partial, usize),
>)
    requires
        i <= s.len(),
    ensures
        value_at(s@, i as int, key@, partial@) == match r {
            Some((filled, next)) => Some((filled@, next as int)),
            None => None,
        },
        r matches Some((_, next)) ==> i < next <= s.len(),
{
    let mut partial = partial;
    if str_eq(key, NAME) {
        match read_string(s, i) {
            Some((t, end)) => if partial.name.is_none() {
                partial.name = Some(t);
                Some((partial, end))
            } else {
                None
            },
            None => None,
        }
    } else if str_eq(key, UNDERGRADUATE_ENROLLMENT) {
        match read_count(s, i) {
            Some((n, end)) => if partial.undergraduates.is_none() {
                partial.undergraduates = Some(n);
                Some((partial, end))
            } else {
                None
            },
            None => None,
        }
    } else if str_eq(key, GRADUATE_ENROLLMENT) {
        match read_count(s, i) {
            Some((n, end)) => if partial.graduates.is_none() {
                partial.graduates = Some(n);
                Some((partial, end))
            } else {
                None
            },
            None => None,
        }
    } else if str_eq(key, SCHOOLS) {
        match read_strings(s, i) {
            Some((list, end)) => if partial.schools.is_none() {
                partial.schools = Some(list);
                Some((partial, end))
            } else {
                None
            },
            None => None,
        }
    } else if str_eq(key, ACCEPTANCE_RATE) {
        match read_literal(s, i) {
            Some((rate, end)) => if partial.rate.is_none() {
                partial.rate = Some(rate);
                Some((partial, end))
            } else {
                None
            },
            None => None,
        }
    } else {
        None
    }
}

/// Reads the member at `s[i]`.
pub fn read_member(s: &[char], i: usize, partial: Partial) -> (r: Option<(Partial, usize)>)
    requires
        i <= s.len(),
    ensures
        member_at(s@, i as int, partial@) == match r {
            Some((filled, next)) => Some((filled@, next as int)),
            None => None,
        },
        r matches Some((_, next)) ==> i < next <= s.len(),
{
    let (key, end) = match read_string(s, i) {
        Some(found) => found,
        None => {
            return None;
        },
    };
    let mark = skip_ws(s, end);
    if !is_char_at(s, mark, ':') {
        return None;
    }
    read_value(s, skip_ws(s, mark + 1), key.as_str(), partial)
}

/// Reads the object that starts with a brace at `s[i]`.
pub fn read_object(s: &[char], i: usize) -> (r: Option<(Partial, usize)>)
    requires
        i <= s.len(),
    ensures
        object_at(s@, i as int) == match r {
            Some((filled, next)) => Some((filled@, next as int)),
            None => None,
        },
        r matches Some((_, next)) ==> i < next <= s.len(),
{
    if !is_char_at(s, i, '{') {
        return None;
    }
    let mut partial = Partial::new();
    let mut at: usize = skip_ws(s, i + 1);
    if is_char_at(s, at, '}') {
        return Some((partial, at + 1));
    }
    loop
        invariant
            i < at <= s.len(),
            object_at(s@, i as int) == members_from(s@, at as int, partial@),
        decreases s.len() - at,
    {
        let (filled, end) = match read_member(s, at, partial) {
            Some(found) => found,
            None => {
                return None;
            },
        };
        partial = filled;
        let mark = skip_ws(s, end);
        if is_char_at(s, mark, ',') {
            at = skip_ws(s, mark + 1);
        } else if is_char_at(s, mark, '}') {
            return Some((partial, mark + 1));
        } else {
            return None;
        }
    }
}

/// The texts `ts` as strings, each behind a comma.
pub open spec fn more_strings(ts: Seq<Seq<char>>) -> Seq<char>
    decreases ts.len(),
{
    if ts.len() == 0 {
        Seq::empty()
    } else {
        more_strings(ts.drop_last()) + seq![','] + quoted(ts.last())
    }
}

/// The texts `ts` as an array of strings.
pub open spec fn array(ts: Seq<Seq<char>>) -> Seq<char> {
    if ts.len() == 0 {
        seq!['[', ']']
    } else {
        seq!['['] + quoted(ts[0]) + more_strings(ts.drop_first()) + seq![']']
    }
}

/// A member: the field's name as a string, a colon and the value.
pub open spec fn member(key: Seq<char>, value: Seq<char>) -> Seq<char> {
    quoted(key) + seq![':'] + value
}

/// The record as a JSON object: the five fields in their order, without
/// white space.
pub open spec fn render_record(v: UniversityView) -> Seq<char> {
    seq!['{'] + member(NAME@, quoted(v.name)) + seq![','] + member(
        UNDERGRADUATE_ENROLLMENT@,
        decimal_digits(v.undergraduate_enrollment as nat),
    ) + seq![','] + member(GRADUATE_ENROLLMENT@, decimal_digits(v.graduate_enrollment as nat))
        + seq![','] + member(SCHOOLS@, array(v.schools)) + seq![','] + member(
        ACCEPTANCE_RATE@,
        v.acceptance_rate,
    ) + seq!['}']
}

/// Appends the strings of `list` as an array.
pub fn push_array(out: &mut String, list: &Vec<String>)
    ensures
        final(out)@ == old(out)@ + array(texts_view(list@)),
{
    let ghost ts = texts_view(list@);
    push_char(out, '[');
    if list.len() > 0 {
        push_quoted(out, list[0].as_str());
        let ghost before = out@;
        let ghost rest = ts.drop_first();
        let mut i: usize = 1;
        while i < list.len()
            invariant
                1 <= i <= list.len(),
                ts == texts_view(list@),
                rest == ts.drop_first(),
                out@ == before + more_strings(rest.take(i - 1)),
            decreases list.len() - i,
        {
            push_char(out, ',');
            push_quoted(out, list[i].as_str());
            proof {
                assert(rest.take(i as int).drop_last() =~= rest.take(i - 1));
                assert(rest.take(i as int).last() == list@[i as int]@);
                assert(out@ =~= before + more_strings(rest.take(i as int)));
            }
            i += 1;
        }
        assert(rest.take(i - 1) =~= rest);
    }
    push_char(out, ']');
    assert(out@ =~= old(out)@ + array(ts));
}

/// Appends the name of a field as a string, and the colon behind it.
pub fn push_key(out: &mut String, key: &str)
    ensures
        final(out)@ == old(out)@ + quoted(key@) + seq![':'],
{
    push_quoted(out, key);
    push_char(out, ':');
}

/// The five field names differ from each other.
pub proof fn lemma_keys_differ()
    ensures
        NAME@ != UNDERGRADUATE_ENROLLMENT@,
        NAME@ != GRADUATE_ENROLLMENT@,
        NAME@ != SCHOOLS@,
        NAME@ != ACCEPTANCE_RATE@,
        UNDERGRADUATE_ENROLLMENT@ != GRADUATE_ENROLLMENT@,
        UNDERGRADUATE_ENROLLMENT@ != SCHOOLS@,
        UNDERGRADUATE_ENROLLMENT@ != ACCEPTANCE_RATE@,
        GRADUATE_ENROLLMENT@ != SCHOOLS@,
        GRADUATE_ENROLLMENT@ != ACCEPTANCE_RATE@,
        SCHOOLS@ != ACCEPTANCE_RATE@,
{
    reveal_strlit("name");
    reveal_strlit("undergraduate_enrollment");
    reveal_strlit("graduate_enrollment");
    reveal_strlit("schools");
    reveal_strlit("acceptance_rate");
    assert(NAME@.len() == 4);
    assert(UNDERGRADUATE_ENROLLMENT@.len() == 24);
    assert(GRADUATE_ENROLLMENT@.len() == 19);
    assert(SCHOOLS@.len() == 7);
    assert(ACCEPTANCE_RATE@.len() == 15);
}

/// A run of strings behind commas starts with the first of them.
pub proof fn lemma_more_strings_front(ts: Seq<Seq<char>>)
    requires
        ts.len() > 0,
    ensures
        more_strings(ts) == seq![','] + quoted(ts[0]) + more_strings(ts.drop_first()),
    decreases ts.len(),
{
    let comma = seq![','];
    if ts.len() == 1 {
        assert(ts.drop_last() =~= Seq::<Seq<char>>::empty());
        assert(ts.drop_first() =~= Seq::<Seq<char>>::empty());
        assert(more_strings(ts) =~= comma + quoted(ts[0]) + more_strings(ts.drop_first()));
    } else {
        lemma_more_strings_front(ts.drop_last());
        let rest = ts.drop_first();
        assert(rest.drop_last() =~= ts.drop_last().drop_first());
        assert(rest.last() == ts.last());
        assert(ts.drop_last()[0] == ts[0]);
        assert(more_strings(ts) =~= comma + quoted(ts[0]) + more_strings(rest));
    }
}

/// A string and the strings behind it, written up to the closing bracket,
/// are read back behind the texts read before them.
pub proof fn lemma_strings_from_written(
    pre: Seq<char>,
    t: Seq<char>,
    rest: Seq<Seq<char>>,
    post: Seq<char>,
    acc: Seq<Seq<char>>,
)
    ensures
        strings_from(
            pre + quoted(t) + more_strings(rest) + seq![']'] + post,
            pre.len() as int,
            acc,
        ) == Some(
            (
                acc.push(t) + rest,
                (pre.len() + quoted(t).len() + more_strings(rest).len() + 1) as int,
            ),
        ),
    decreases rest.len(),
{
    let close = seq![']'];
    let comma = seq![','];
    let s = pre + quoted(t) + more_strings(rest) + close + post;
    let end = (pre.len() + quoted(t).len()) as int;
    assert(s =~= pre + quoted(t) + (more_strings(rest) + close + post));
    lemma_quoted_read(pre, t, more_strings(rest) + close + post);
    assert(string_at(s, pre.len() as int) == Some((t, end)));
    if rest.len() == 0 {
        assert(s[end] == ']');
        assert(acc.push(t) + rest =~= acc.push(t));
    } else {
        let u = rest[0];
        let rest2 = rest.drop_first();
        lemma_more_strings_front(rest);
        assert(s[end] == ',');
        assert(quoted(u)[0] == '"');
        assert(s[end + 1] == '"');
        let pre2 = pre + quoted(t) + comma;
        assert(s =~= pre2 + quoted(u) + more_strings(rest2) + close + post);
        lemma_strings_from_written(pre2, u, rest2, post, acc.push(t));
        assert(acc.push(t).push(u) + rest2 =~= acc.push(t) + rest);
        assert(ws_end(s, end) == end);
        assert(ws_end(s, end + 1) == end + 1);
    }
}

/// An array of strings is read back as the texts that it was written for.
pub proof fn lemma_array_written(pre: Seq<char>, ts: Seq<Seq<char>>, post: Seq<char>)
    ensures
        strings_at(pre + array(ts) + post, pre.len() as int) == Some(
            (ts, (pre.len() + array(ts).len()) as int),
        ),
{
    let s = pre + array(ts) + post;
    let i = pre.len() as int;
    assert(s[i] == '[');
    if ts.len() == 0 {
        assert(s[i + 1] == ']');
    } else {
        let open = seq!['['];
        assert(quoted(ts[0])[0] == '"');
        assert(s[i + 1] == '"');
        assert(s =~= (pre + open) + quoted(ts[0]) + more_strings(ts.drop_first()) + seq![']']
            + post);
        lemma_strings_from_written(pre + open, ts[0], ts.drop_first(), post, Seq::empty());
        assert(Seq::<Seq<char>>::empty().push(ts[0]) + ts.drop_first() =~= ts);
    }
}

/// Behind the name of a member and its colon, the member is its value.
pub proof fn lemma_member_written(
    pre: Seq<char>,
    key: Seq<char>,
    value: Seq<char>,
    post: Seq<char>,
    f: Fields,
)
    requires
        value.len() > 0,
        !is_ws(value[0]),
    ensures
        member_at(pre + member(key, value) + post, pre.len() as int, f) == value_at(
            pre + member(key, value) + post,
            (pre.len() + quoted(key).len() + 1) as int,
            key,
            f,
        ),
        pre + member(key, value) + post == (pre + quoted(key) + seq![':']) + value + post,
        (pre + quoted(key) + seq![':']).len() == pre.len() + quoted(key).len() + 1,
        member(key, value).len() == quoted(key).len() + 1 + value.len(),
{
    let colon = seq![':'];
    let s = pre + member(key, value) + post;
    let end = (pre.len() + quoted(key).len()) as int;
    assert(s =~= pre + quoted(key) + (colon + value + post));
    lemma_quoted_read(pre, key, colon + value + post);
    assert(s[end] == ':');
    assert(s[end + 1] == value[0]);
    assert(ws_end(s, end) == end);
    assert(ws_end(s, end + 1) == end + 1);
    assert(s =~= (pre + quoted(key) + colon) + value + post);
}

/// A number starts with a digit or a minus sign, so with no white space.
pub proof fn lemma_number_start(t: Seq<char>)
    requires
        is_number(t),
    ensures
        t.len() > 0,
        !is_ws(t[0]),
{
    reveal(number_end);
    let a = if 0 < t.len() && t[0] == '-' {
        1int
    } else {
        0int
    };
    assert(whole_end(t, a) is Some);
}

/// The member of the name is read back.
pub proof fn lemma_name_written(pre: Seq<char>, t: Seq<char>, post: Seq<char>, f: Fields)
    requires
        f.name is None,
    ensures
        member_at(pre + member(NAME@, quoted(t)) + post, pre.len() as int, f) == Some(
            (Fields { name: Some(t), ..f }, (pre.len() + member(NAME@, quoted(t)).len()) as int),
        ),
{
    assert(quoted(t)[0] == '"');
    lemma_member_written(pre, NAME@, quoted(t), post, f);
    lemma_quoted_read(pre + quoted(NAME@) + seq![':'], t, post);
}

/// The member of a count is read back.
pub proof fn lemma_count_member_written(
    pre: Seq<char>,
    key: Seq<char>,
    n: u16,
    post: Seq<char>,
    f: Fields,
)
    requires
        post.len() > 0,
        ends_number(post[0]),
    ensures
        count_at(
            pre + member(key, decimal_digits(n as nat)) + post,
            (pre.len() + quoted(key).len() + 1) as int,
        ) == Some((n, (pre.len() + member(key, decimal_digits(n as nat)).len()) as int)),
        member_at(pre + member(key, decimal_digits(n as nat)) + post, pre.len() as int, f)
            == value_at(
            pre + member(key, decimal_digits(n as nat)) + post,
            (pre.len() + quoted(key).len() + 1) as int,
            key,
            f,
        ),
{
    let digits = decimal_digits(n as nat);
    lemma_decimal_round_trip(n as nat);
    assert(is_digit(digits[0]));
    lemma_member_written(pre, key, digits, post, f);
    lemma_count_written(pre + quoted(key) + seq![':'], n, post);
}

/// The member of the schools is read back.
pub proof fn lemma_schools_written(
    pre: Seq<char>,
    ts: Seq<Seq<char>>,
    post: Seq<char>,
    f: Fields,
)
    requires
        f.schools is None,
    ensures
        member_at(pre + member(SCHOOLS@, array(ts)) + post, pre.len() as int, f) == Some(
            (
                Fields { schools: Some(ts), ..f },
                (pre.len() + member(SCHOOLS@, array(ts)).len()) as int,
            ),
        ),
{
    lemma_keys_differ();
    assert(array(ts)[0] == '[');
    lemma_member_written(pre, SCHOOLS@, array(ts), post, f);
    lemma_array_written(pre + quoted(SCHOOLS@) + seq![':'], ts, post);
}

/// The member of the rate is read back.
pub proof fn lemma_rate_written(pre: Seq<char>, t: Seq<char>, post: Seq<char>, f: Fields)
    requires
        f.rate is None,
        is_number(t),
        post.len() > 0,
        ends_number(post[0]),
    ensures
        member_at(pre + member(ACCEPTANCE_RATE@, t) + post, pre.len() as int, f) == Some(
            (
                Fields { rate: Some(t), ..f },
                (pre.len() + member(ACCEPTANCE_RATE@, t).len()) as int,
            ),
        ),
{
    lemma_keys_differ();
    lemma_number_start(t);
    lemma_member_written(pre, ACCEPTANCE_RATE@, t, post, f);
    let pre2 = pre + quoted(ACCEPTANCE_RATE@) + seq![':'];
    lemma_number_written(pre2, t, post);
    let s = pre2 + t + post;
    assert(s.subrange(pre2.len() as int, (pre2.len() + t.len()) as int) =~= t);
}

/// A member that a comma and the next member follow is one of the
/// members.
pub proof fn lemma_members_step(s: Seq<char>, i: int, f: Fields, g: Fields, end: int)
    requires
        0 <= i < end,
        end + 1 < s.len(),
        member_at(s, i, f) == Some((g, end)),
        s[end] == ',',
        !is_ws(s[end + 1]),
    ensures
        members_from(s, i, f) == members_from(s, end + 1, g),
{
    assert(ws_end(s, end) == end);
    assert(ws_end(s, end + 1) == end + 1);
}

/// A member that the closing brace follows is the last of the members.
pub proof fn lemma_members_last(s: Seq<char>, i: int, f: Fields, g: Fields, end: int)
    requires
        0 <= i < end < s.len(),
        member_at(s, i, f) == Some((g, end)),
        s[end] == '}',
    ensures
        members_from(s, i, f) == Some((g, end + 1)),
{
    assert(ws_end(s, end) == end);
}

/// The member of the number of undergraduates is read back.
pub proof fn lemma_undergraduates_written(pre: Seq<char>, n: u16, post: Seq<char>, f: Fields)
    requires
        f.undergraduates is None,
        post.len() > 0,
        ends_number(post[0]),
    ensures
        member_at(
            pre + member(UNDERGRADUATE_ENROLLMENT@, decimal_digits(n as nat)) + post,
            pre.len() as int,
            f,
        ) == Some(
            (
                Fields { undergraduates: Some(n), ..f },
                (pre.len() + member(UNDERGRADUATE_ENROLLMENT@, decimal_digits(n as nat)).len()) as int,
            ),
        ),
{
    lemma_keys_differ();
    lemma_count_member_written(pre, UNDERGRADUATE_ENROLLMENT@, n, post, f);
}

/// The member of the number of graduates is read back.
pub proof fn lemma_graduates_written(pre: Seq<char>, n: u16, post: Seq<char>, f: Fields)
    requires
        f.graduates is None,
        post.len() > 0,
        ends_number(post[0]),
    ensures
        member_at(
            pre + member(GRADUATE_ENROLLMENT@, decimal_digits(n as nat)) + post,
            pre.len() as int,
            f,
        ) == Some(
            (
                Fields { graduates: Some(n), ..f },
                (pre.len() + member(GRADUATE_ENROLLMENT@, decimal_digits(n as nat)).len()) as int,
            ),
        ),
{
    lemma_keys_differ();
    lemma_count_member_written(pre, GRADUATE_ENROLLMENT@, n, post, f);
}

/// Every record comes back from its JSON form, field by field.
pub proof fn lemma_json_round_trip(v: UniversityView)
    requires
        is_number(v.acceptance_rate),
    ensures
        parse_record(render_record(v)) == Some(v),
{
    let s = render_record(v);
    let open = seq!['{'];
    let close = seq!['}'];
    let c = seq![','];
    let m1 = member(NAME@, quoted(v.name));
    let m2 = member(UNDERGRADUATE_ENROLLMENT@, decimal_digits(v.undergraduate_enrollment as nat));
    let m3 = member(GRADUATE_ENROLLMENT@, decimal_digits(v.graduate_enrollment as nat));
    let m4 = member(SCHOOLS@, array(v.schools));
    let m5 = member(ACCEPTANCE_RATE@, v.acceptance_rate);
    let pre1 = open;
    let pre2 = pre1 + m1 + c;
    let pre3 = pre2 + m2 + c;
    let pre4 = pre3 + m3 + c;
    let pre5 = pre4 + m4 + c;
    let r5 = close;
    let r4 = c + m5 + r5;
    let r3 = c + m4 + r4;
    let r2 = c + m3 + r3;
    let r1 = c + m2 + r2;
    assert(s == pre5 + m5 + r5);
    assert(s == pre4 + m4 + r4) by {
        assert(pre4 + m4 + r4 =~= pre5 + m5 + r5);
    }
    assert(s == pre3 + m3 + r3) by {
        assert(pre3 + m3 + r3 =~= pre4 + m4 + r4);
    }
    assert(s == pre2 + m2 + r2) by {
        assert(pre2 + m2 + r2 =~= pre3 + m3 + r3);
    }
    assert(s == pre1 + m1 + r1) by {
        assert(pre1 + m1 + r1 =~= pre2 + m2 + r2);
    }
    let f0 = no_fields();
    let f1 = Fields { name: Some(v.name), ..f0 };
    let f2 = Fields { undergraduates: Some(v.undergraduate_enrollment), ..f1 };
    let f3 = Fields { graduates: Some(v.graduate_enrollment), ..f2 };
    let f4 = Fields { schools: Some(v.schools), ..f3 };
    let f5 = Fields { rate: Some(v.acceptance_rate), ..f4 };
    let i1 = pre1.len() as int;
    let e1 = i1 + m1.len();
    let i2 = pre2.len() as int;
    let e2 = i2 + m2.len();
    let i3 = pre3.len() as int;
    let e3 = i3 + m3.len();
    let i4 = pre4.len() as int;
    let e4 = i4 + m4.len();
    let i5 = pre5.len() as int;
    let e5 = i5 + m5.len();
    assert(quoted(NAME@)[0] == '"' && quoted(UNDERGRADUATE_ENROLLMENT@)[0] == '"' && quoted(
        GRADUATE_ENROLLMENT@,
    )[0] == '"' && quoted(SCHOOLS@)[0] == '"' && quoted(ACCEPTANCE_RATE@)[0] == '"');
    assert(m1[0] == '"' && m2[0] == '"' && m3[0] == '"' && m4[0] == '"' && m5[0] == '"');
    assert(r1[0] == ',' && r2[0] == ',' && r3[0] == ',' && r4[0] == ',' && r5[0] == '}');
    assert(member_at(s, i1, f0) == Some((f1, e1))) by {
        lemma_name_written(pre1, v.name, r1, f0);
    }
    assert(member_at(s, i2, f1) == Some((f2, e2))) by {
        lemma_undergraduates_written(pre2, v.undergraduate_enrollment, r2, f1);
    }
    assert(member_at(s, i3, f2) == Some((f3, e3))) by {
        lemma_graduates_written(pre3, v.graduate_enrollment, r3, f2);
    }
    assert(member_at(s, i4, f3) == Some((f4, e4))) by {
        lemma_schools_written(pre4, v.schools, r4, f3);
    }
    assert(member_at(s, i5, f4) == Some((f5, e5))) by {
        lemma_rate_written(pre5, v.acceptance_rate, r5, f4);
    }
    assert(s[e1] == ',' && s[e1 + 1] == '"' && i2 == e1 + 1) by {
        assert(s[e1] == r1[0]);
        assert(s[e1 + 1] == m2[0]);
    }
    assert(s[e2] == ',' && s[e2 + 1] == '"' && i3 == e2 + 1) by {
        assert(s[e2] == r2[0]);
        assert(s[e2 + 1] == m3[0]);
    }
    assert(s[e3] == ',' && s[e3 + 1] == '"' && i4 == e3 + 1) by {
        assert(s[e3] == r3[0]);
        assert(s[e3 + 1] == m4[0]);
    }
    assert(s[e4] == ',' && s[e4 + 1] == '"' && i5 == e4 + 1) by {
        assert(s[e4] == r4[0]);
        assert(s[e4 + 1] == m5[0]);
    }
    assert(s[e5] == '}' && e5 + 1 == s.len()) by {
        assert(s[e5] == r5[0]);
    }
    lemma_members_last(s, i5, f4, f5, e5);
    lemma_members_step(s, i4, f3, f4, e4);
    lemma_members_step(s, i3, f2, f3, e3);
    lemma_members_step(s, i2, f1, f2, e2);
    lemma_members_step(s, i1, f0, f1, e1);
    assert(members_from(s, 1, f0) == Some((f5, s.len() as int)));
    assert(s[0] == '{' && s[1] == '"') by {
        assert(s[0] == pre1[0]);
        assert(s[1] == m1[0]);
    }
    assert(ws_end(s, 0) == 0);
    assert(ws_end(s, 1) == 1);
    assert(ws_end(s, s.len() as int) == s.len());
    assert(object_at(s, 0) == Some((f5, s.len() as int)));
    assert(complete(f5) == Some(v));
}

} // verus!
