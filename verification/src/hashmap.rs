//! A keyed mapping from text to signed 32-bit integers, and its binary
//! blob.
//!
//! The blob is the number of entries as eight big-endian bytes, followed by
//! each entry: the length of its key in bytes as eight big-endian bytes,
//! the key in UTF-8, and the value as four big-endian bytes in two's
//! complement.

use crate::basic::be_bytes;
use crate::error::DecodeError;
use crate::text::{str_eq, string_from_utf8};
use crate::wire::{
    be_bytes_u64, i32_bits, i32_of_bits, lemma_i32_bits_round_trip, lemma_u32_at_written,
    lemma_u64_at_written, push_bytes, push_i32, push_u64, read_i32, read_u64, u32_at, u64_at,
};
use vstd::prelude::*;
use vstd::slice::{slice_subrange, slice_to_vec};
use vstd::utf8::{
    decode_utf8, encode_utf8, encode_utf8_decode_utf8, encode_utf8_valid_utf8, valid_utf8,
};

verus! {

/// One key with its value.
#[derive(Debug)]
pub struct Entry {
    pub key: String,
    pub value: i32,
}

impl View for Entry {
    type V = (Seq<char>, i32);

    open spec fn view(&self) -> (Seq<char>, i32) {
        (self.key@, self.value)
    }
}

/// No key of `es` occurs at two places.
pub open spec fn keys_distinct(es: Seq<(Seq<char>, i32)>) -> bool {
    forall|i: int, j: int| 0 <= i < j < es.len() ==> es[i].0 != es[j].0
}

/// Some entry of `es` has the key `k`.
pub open spec fn has_key(es: Seq<(Seq<char>, i32)>, k: Seq<char>) -> bool {
    exists|i: int| 0 <= i < es.len() && es[i].0 == k
}

/// A place in `es` where the key `k` stands, if it stands anywhere.
pub open spec fn place_of_key(es: Seq<(Seq<char>, i32)>, k: Seq<char>) -> int {
    choose|i: int| 0 <= i < es.len() && es[i].0 == k
}

/// The mapping that the entries `es` make up, whatever their order.
pub open spec fn entries_map(es: Seq<(Seq<char>, i32)>) -> Map<Seq<char>, i32> {
    Map::new(|k: Seq<char>| has_key(es, k), |k: Seq<char>| es[place_of_key(es, k)].1)
}

/// With distinct keys, each entry's key maps to that entry's value.
pub proof fn lemma_entries_map_at(es: Seq<(Seq<char>, i32)>, i: int)
    requires
        keys_distinct(es),
        0 <= i < es.len(),
    ensures
        entries_map(es).contains_key(es[i].0),
        entries_map(es)[es[i].0] == es[i].1,
{
    let j = place_of_key(es, es[i].0);
    assert(0 <= j < es.len() && es[j].0 == es[i].0);
}

/// With one more entry behind them, the entries have the keys that they
/// had, and the key of that entry.
proof fn lemma_has_key_push(acc: Seq<(Seq<char>, i32)>, e: (Seq<char>, i32), k: Seq<char>)
    ensures
        has_key(acc.push(e), k) == (has_key(acc, k) || k == e.0),
{
    let acc2 = acc.push(e);
    if has_key(acc2, k) {
        let i = place_of_key(acc2, k);
        if i < acc.len() {
            assert(acc[i].0 == k);
        }
    }
    if has_key(acc, k) {
        let i = place_of_key(acc, k);
        assert(acc2[i].0 == k);
    }
    if k == e.0 {
        assert(acc2[acc.len() as int].0 == k);
    }
}

/// Adding an entry under a key that is not there yet inserts it into the
/// mapping.
pub proof fn lemma_push_inserts(es: Seq<(Seq<char>, i32)>, k: Seq<char>, v: i32)
    requires
        keys_distinct(es),
        !has_key(es, k),
    ensures
        keys_distinct(es.push((k, v))),
        entries_map(es.push((k, v))) == entries_map(es).insert(k, v),
{
    let es2 = es.push((k, v));
    assert forall|i: int, j: int| 0 <= i < j < es2.len() implies es2[i].0 != es2[j].0 by {
        if j == es.len() {
            assert(es[i].0 != k);
        }
    }
    assert forall|q: Seq<char>| has_key(es2, q) <==> (has_key(es, q) || q == k) by {
        lemma_has_key_push(es, (k, v), q);
    }
    assert forall|q: Seq<char>| has_key(es2, q) implies #[trigger] entries_map(es2)[q]
        == entries_map(es).insert(k, v)[q] by {
        let i = place_of_key(es2, q);
        if q == k {
            if i < es.len() {
                assert(es[i].0 == k);
            }
        } else {
            let j = place_of_key(es, q);
            assert(es2[j].0 == q);
        }
    }
    assert(entries_map(es2) =~= entries_map(es).insert(k, v));
}

/// Giving an entry a new value inserts that value under its key.
pub proof fn lemma_update_inserts(es: Seq<(Seq<char>, i32)>, i: int, v: i32)
    requires
        keys_distinct(es),
        0 <= i < es.len(),
    ensures
        keys_distinct(es.update(i, (es[i].0, v))),
        entries_map(es.update(i, (es[i].0, v))) == entries_map(es).insert(es[i].0, v),
{
    let k = es[i].0;
    let es2 = es.update(i, (k, v));
    assert forall|a: int, b: int| 0 <= a < b < es2.len() implies es2[a].0 != es2[b].0 by {
        assert(es2[a].0 == es[a].0 && es2[b].0 == es[b].0);
    }
    assert forall|q: Seq<char>| has_key(es2, q) <==> has_key(es, q) by {
        if has_key(es2, q) {
            let j = place_of_key(es2, q);
            assert(es[j].0 == q);
        }
        if has_key(es, q) {
            let j = place_of_key(es, q);
            assert(es2[j].0 == q);
        }
    }
    assert(has_key(es, k));
    assert forall|q: Seq<char>| has_key(es2, q) implies #[trigger] entries_map(es2)[q]
        == entries_map(es).insert(k, v)[q] by {
        let j2 = place_of_key(es2, q);
        let j = place_of_key(es, q);
        assert(es2[j].0 == q);
        assert(j == j2);
    }
    assert(entries_map(es2) =~= entries_map(es).insert(k, v));
}

/// The plain values of a run of entries.
pub open spec fn entries_view(items: Seq<Entry>) -> Seq<(Seq<char>, i32)> {
    Seq::new(items.len(), |i: int| items[i]@)
}

/// A mapping from text keys to `i32` values. Keys are unique; the entries
/// are kept in the order in which their keys first came.
#[derive(Debug)]
pub struct Mapping {
    items: Vec<Entry>,
}

impl View for Mapping {
    type V = Map<Seq<char>, i32>;

    open spec fn view(&self) -> Map<Seq<char>, i32> {
        entries_map(self.entries())
    }
}

impl Mapping {
    #[verifier::type_invariant]
    spec fn unique_keys(&self) -> bool {
        keys_distinct(self.entries())
    }

    /// The entries in the order in which they are kept.
    pub closed spec fn entries(&self) -> Seq<(Seq<char>, i32)> {
        entries_view(self.items@)
    }

    /// A mapping without entries.
    pub fn new() -> (m: Mapping)
        ensures
            m.entries() == Seq::<(Seq<char>, i32)>::empty(),
            m@ == Map::<Seq<char>, i32>::empty(),
    {
        let m = Mapping { items: Vec::new() };
        assert(m.entries() =~= Seq::<(Seq<char>, i32)>::empty());
        assert(m@ =~= Map::<Seq<char>, i32>::empty());
        m
    }

    /// The number of entries.
    pub fn len(&self) -> (n: usize)
        ensures
            n == self.entries().len(),
    {
        self.items.len()
    }

    /// The place at which `key` stands among the entries, if it does.
    fn find(&self, key: &str) -> (r: Option<usize>)
        ensures
            match r {
                Some(i) => i < self.entries().len() && self.entries()[i as int].0 == key@,
                None => !has_key(self.entries(), key@),
            },
    {
        let mut i: usize = 0;
        while i < self.items.len()
            invariant
                i <= self.items.len(),
                forall|j: int| 0 <= j < i ==> self.entries()[j].0 != key@,
            decreases self.items.len() - i,
        {
            if str_eq(self.items[i].key.as_str(), key) {
                return Some(i);
            }
            i += 1;
        }
        None
    }

    /// The value that `key` maps to, if it maps to one.
    pub fn get(&self, key: &str) -> (r: Option<i32>)
        ensures
            r == if self@.contains_key(key@) {
                Some(self@[key@])
            } else {
                None
            },
    {
        proof {
            use_type_invariant(self);
        }
        match self.find(key) {
            Some(i) => {
                proof {
                    lemma_entries_map_at(self.entries(), i as int);
                }
                Some(self.items[i].value)
            },
            None => None,
        }
    }

    /// Whether `key` maps to a value.
    pub fn contains_key(&self, key: &str) -> (r: bool)
        ensures
            r == self@.contains_key(key@),
    {
        self.find(key).is_some()
    }

    /// The keys that map to a value are the keys of the entries.
    pub proof fn lemma_keys(&self, k: Seq<char>)
        ensures
            self@.contains_key(k) == has_key(self.entries(), k),
    {
    }

    /// Maps `key` to `value` and returns the value that it mapped to
    /// before. A new key goes behind the others; a known key keeps its place.
    pub fn insert(&mut self, key: String, value: i32) -> (before: Option<i32>)
        ensures
            final(self)@ == old(self)@.insert(key@, value),
            before == if old(self)@.contains_key(key@) {
                Some(old(self)@[key@])
            } else {
                None
            },
            final(self).entries() == if has_key(old(self).entries(), key@) {
                old(self).entries().update(
                    place_of_key(old(self).entries(), key@),
                    (key@, value),
                )
            } else {
                old(self).entries().push((key@, value))
            },
    {
        proof {
            use_type_invariant(&*self);
        }
        let ghost es = self.entries();
        match self.find(key.as_str()) {
            Some(i) => {
                let before = self.items[i].value;
                proof {
                    lemma_entries_map_at(es, i as int);
                    lemma_update_inserts(es, i as int, value);
                    assert(place_of_key(es, key@) == i);
                }
                let mut items: Vec<Entry> = Vec::new();
                std::mem::swap(&mut items, &mut self.items);
                items.set(i, Entry { key, value });
                assert(entries_view(items@) =~= es.update(i as int, (key@, value)));
                self.items = items;
                Some(before)
            },
            None => {
                proof {
                    lemma_push_inserts(es, key@, value);
                }
                let mut items: Vec<Entry> = Vec::new();
                std::mem::swap(&mut items, &mut self.items);
                items.push(Entry { key, value });
                assert(entries_view(items@) =~= es.push((key@, value)));
                self.items = items;
                None
            },
        }
    }

    /// The entries, in the order in which they are kept.
    pub fn as_slice(&self) -> (items: &[Entry])
        ensures
            entries_view(items@) == self.entries(),
            keys_distinct(entries_view(items@)),
    {
        proof {
            use_type_invariant(self);
        }
        self.items.as_slice()
    }

    /// Whether every key of `self` maps to the same value in `other`.
    fn within(&self, other: &Mapping) -> (r: bool)
        ensures
            r == forall|k: Seq<char>| #[trigger]
                self@.contains_key(k) ==> other@.contains_key(k) && other@[k] == self@[k],
    {
        proof {
            use_type_invariant(self);
        }
        let mut i: usize = 0;
        while i < self.items.len()
            invariant
                i <= self.items.len(),
                keys_distinct(self.entries()),
                forall|j: int|
                    0 <= j < i ==> other@.contains_key(#[trigger] self.entries()[j].0)
                        && other@[self.entries()[j].0] == self.entries()[j].1,
            decreases self.items.len() - i,
        {
            let ghost k = self.entries()[i as int].0;
            proof {
                lemma_entries_map_at(self.entries(), i as int);
                assert(k == self.items[i as int].key@);
                assert(self@.contains_key(k) && self@[k] == self.items[i as int].value);
            }
            match other.get(self.items[i].key.as_str()) {
                Some(v) => {
                    if v != self.items[i].value {
                        return false;
                    }
                },
                None => {
                    return false;
                },
            }
            i += 1;
        }
        assert forall|k: Seq<char>| #[trigger] self@.contains_key(k) implies other@.contains_key(k)
            && other@[k] == self@[k] by {
            let j = place_of_key(self.entries(), k);
            lemma_entries_map_at(self.entries(), j);
        }
        true
    }

    /// Whether the two mappings hold the same keys with the same values,
    /// in whatever order.
    pub fn same_as(&self, other: &Mapping) -> (r: bool)
        ensures
            r == (self@ == other@),
    {
        let r = self.within(other) && other.within(self);
        proof {
            if r {
                assert(self@ =~= other@);
            }
        }
        r
    }
}

impl PartialEq for Mapping {
    /// Two mappings are equal when they hold the same keys with the same
    /// values, in whatever order.
    fn eq(&self, other: &Mapping) -> (r: bool) {
        self.same_as(other)
    }
}

impl vstd::std_specs::cmp::PartialEqSpecImpl for Mapping {
    open spec fn obeys_eq_spec() -> bool {
        true
    }

    open spec fn eq_spec(&self, other: &Mapping) -> bool {
        self@ == other@
    }
}

/// The bytes of one entry: length of the key, key, value.
#[verifier::opaque]
pub open spec fn encode_entry(e: (Seq<char>, i32)) -> Seq<u8>
    recommends
        encode_utf8(e.0).len() <= u64::MAX,
{
    be_bytes_u64(encode_utf8(e.0).len() as u64) + encode_utf8(e.0) + be_bytes(i32_bits(e.1))
}

/// The bytes of the entries `es`, one entry after the other.
pub open spec fn encode_entries(es: Seq<(Seq<char>, i32)>) -> Seq<u8>
    decreases es.len(),
{
    if es.len() == 0 {
        Seq::empty()
    } else {
        encode_entries(es.drop_last()) + encode_entry(es.last())
    }
}

/// The blob that holds the entries `es`.
pub open spec fn encode_mapping(es: Seq<(Seq<char>, i32)>) -> Seq<u8>
    recommends
        es.len() <= u64::MAX,
{
    be_bytes_u64(es.len() as u64) + encode_entries(es)
}

/// Whether the keys of `es` are short enough for their length prefix.
pub open spec fn keys_fit(es: Seq<(Seq<char>, i32)>) -> bool {
    forall|i: int| 0 <= i < es.len() ==> encode_utf8(#[trigger] es[i].0).len() <= u64::MAX
}

/// What `n` entries written at `b[at..]` hold when they follow the entries
/// `acc`, or why they are refused.
pub open spec fn decode_entries(b: Seq<u8>, at: int, n: nat, acc: Seq<(Seq<char>, i32)>) -> Result<
    Seq<(Seq<char>, i32)>,
    DecodeError,
>
    decreases n,
{
    if n == 0 {
        if at == b.len() {
            Ok(acc)
        } else {
            Err(DecodeError::TrailingBytes)
        }
    } else if b.len() - at < 12 {
        Err(DecodeError::Truncated)
    } else if b.len() - at - 12 < u64_at(b, at) {
        Err(DecodeError::Truncated)
    } else {
        let key_end = at + 8 + u64_at(b, at);
        let key_bytes = b.subrange(at + 8, key_end);
        if !valid_utf8(key_bytes) {
            Err(DecodeError::InvalidText)
        } else if has_key(acc, decode_utf8(key_bytes)) {
            Err(DecodeError::DuplicateKey)
        } else {
            decode_entries(
                b,
                key_end + 4,
                (n - 1) as nat,
                acc.push((decode_utf8(key_bytes), i32_of_bits(u32_at(b, key_end)))),
            )
        }
    }
}

/// The entries that the blob `b` holds, or why it holds no mapping.
pub open spec fn decode_mapping(b: Seq<u8>) -> Result<Seq<(Seq<char>, i32)>, DecodeError> {
    if b.len() < 8 {
        Err(DecodeError::Truncated)
    } else {
        decode_entries(b, 8, u64_at(b, 0) as nat, Seq::empty())
    }
}

/// The bytes of a run of entries start with the bytes of its first entry.
pub proof fn lemma_encode_entries_front(es: Seq<(Seq<char>, i32)>)
    requires
        es.len() > 0,
    ensures
        encode_entries(es) == encode_entry(es[0]) + encode_entries(es.drop_first()),
    decreases es.len(),
{
    if es.len() == 1 {
        assert(es.drop_last() =~= Seq::<(Seq<char>, i32)>::empty());
        assert(es.drop_first() =~= Seq::<(Seq<char>, i32)>::empty());
        assert(encode_entries(es) =~= encode_entry(es[0]) + encode_entries(es.drop_first()));
    } else {
        lemma_encode_entries_front(es.drop_last());
        let rest = es.drop_first();
        assert(rest.drop_last() =~= es.drop_last().drop_first());
        assert(rest.last() == es.last());
        assert(es.drop_last()[0] == es[0]);
        assert(encode_entries(es) =~= encode_entry(es[0]) + encode_entries(rest));
    }
}

/// An entry written behind `head` is found there: the length of its key,
/// the key and the value, each at its place.
pub proof fn lemma_entry_written(head: Seq<u8>, e: (Seq<char>, i32), tail: Seq<u8>)
    requires
        encode_utf8(e.0).len() <= u64::MAX,
    ensures
        encode_entry(e).len() == 12 + encode_utf8(e.0).len(),
        u64_at(head + encode_entry(e) + tail, head.len() as int) == encode_utf8(e.0).len(),
        (head + encode_entry(e) + tail).subrange(
            head.len() as int + 8,
            head.len() as int + 8 + encode_utf8(e.0).len(),
        ) == encode_utf8(e.0),
        u32_at(
            head + encode_entry(e) + tail,
            head.len() as int + 8 + encode_utf8(e.0).len(),
        ) == i32_bits(e.1),
{
    reveal(encode_entry);
    let key = encode_utf8(e.0);
    let klen = key.len() as u64;
    let bits = i32_bits(e.1);
    let b = head + encode_entry(e) + tail;
    lemma_u64_at_written(head, klen, key + be_bytes(bits) + tail);
    assert(b =~= head + be_bytes_u64(klen) + (key + be_bytes(bits) + tail));
    lemma_u32_at_written(head + be_bytes_u64(klen) + key, bits, tail);
    assert(b =~= (head + be_bytes_u64(klen) + key) + be_bytes(bits) + tail);
    assert(b.subrange(head.len() as int + 8, head.len() as int + 8 + key.len()) =~= key);
}

/// Where an entry with a new key stands at `b[at..]`, decoding reads it
/// and goes on behind it.
proof fn lemma_decode_step(
    b: Seq<u8>,
    at: int,
    n: nat,
    acc: Seq<(Seq<char>, i32)>,
    e: (Seq<char>, i32),
)
    requires
        n > 0,
        0 <= at,
        at + 12 + encode_utf8(e.0).len() <= b.len(),
        u64_at(b, at) == encode_utf8(e.0).len(),
        b.subrange(at + 8, at + 8 + encode_utf8(e.0).len()) == encode_utf8(e.0),
        u32_at(b, at + 8 + encode_utf8(e.0).len()) == i32_bits(e.1),
        !has_key(acc, e.0),
    ensures
        decode_entries(b, at, n, acc) == decode_entries(
            b,
            at + 12 + encode_utf8(e.0).len(),
            (n - 1) as nat,
            acc.push(e),
        ),
{
    encode_utf8_valid_utf8(e.0);
    encode_utf8_decode_utf8(e.0);
    lemma_i32_bits_round_trip(e.1);
}

/// Entries written behind `head` are read back, in order, behind the
/// entries read before them.
pub proof fn lemma_decode_entries_written(
    head: Seq<u8>,
    es: Seq<(Seq<char>, i32)>,
    acc: Seq<(Seq<char>, i32)>,
)
    requires
        keys_distinct(es),
        forall|i: int| 0 <= i < es.len() ==> !has_key(acc, #[trigger] es[i].0),
        keys_fit(es),
    ensures
        decode_entries(head + encode_entries(es), head.len() as int, es.len(), acc) == Ok::<
            Seq<(Seq<char>, i32)>,
            DecodeError,
        >(acc + es),
    decreases es.len(),
{
    let b = head + encode_entries(es);
    let at = head.len() as int;
    if es.len() == 0 {
        assert(acc + es =~= acc);
        assert(b =~= head);
    } else {
        let e = es[0];
        let rest = es.drop_first();
        let tail = encode_entries(rest);
        let klen = encode_utf8(e.0).len() as int;
        let acc2 = acc.push(e);
        let head2 = head + encode_entry(e);
        assert(b == head2 + tail && b == head + encode_entry(e) + tail) by {
            lemma_encode_entries_front(es);
            assert(head + (encode_entry(e) + tail) =~= head + encode_entry(e) + tail);
        }
        assert(decode_entries(b, at, es.len(), acc) == decode_entries(
            b,
            at + 12 + klen,
            rest.len(),
            acc2,
        )) by {
            lemma_entry_written(head, e, tail);
            assert(!has_key(acc, es[0].0));
            lemma_decode_step(b, at, es.len(), acc, e);
        }
        assert(head2.len() == at + 12 + klen) by {
            lemma_entry_written(head, e, tail);
        }
        assert(keys_distinct(rest)) by {
            assert forall|i: int, j: int| 0 <= i < j < rest.len() implies rest[i].0
                != rest[j].0 by {
                assert(rest[i] == es[i + 1] && rest[j] == es[j + 1]);
            }
        }
        assert forall|i: int| 0 <= i < rest.len() implies !has_key(acc2, #[trigger] rest[i].0) by {
            assert(rest[i] == es[i + 1]);
            lemma_has_key_push(acc, e, rest[i].0);
        }
        assert(keys_fit(rest)) by {
            assert forall|i: int| 0 <= i < rest.len() implies encode_utf8(
                #[trigger] rest[i].0,
            ).len() <= u64::MAX by {
                assert(rest[i] == es[i + 1]);
            }
        }
        lemma_decode_entries_written(head2, rest, acc2);
        assert(acc2 + rest =~= acc + es);
    }
}

/// Every mapping comes back from its blob: the same keys with the same
/// values, so the same mapping.
pub proof fn lemma_mapping_round_trip(es: Seq<(Seq<char>, i32)>)
    requires
        keys_distinct(es),
        keys_fit(es),
        es.len() <= u64::MAX,
    ensures
        decode_mapping(encode_mapping(es)) == Ok::<Seq<(Seq<char>, i32)>, DecodeError>(es),
        entries_map(decode_mapping(encode_mapping(es))->Ok_0) == entries_map(es),
{
    let n = es.len() as u64;
    let b = encode_mapping(es);
    let empty = Seq::<(Seq<char>, i32)>::empty();
    lemma_u64_at_written(Seq::empty(), n, encode_entries(es));
    assert(b =~= Seq::<u8>::empty() + be_bytes_u64(n) + encode_entries(es));
    assert(empty + es =~= es);
    assert(be_bytes_u64(n).len() == 8);
    lemma_decode_entries_written(be_bytes_u64(n), es, empty);
}

/// Encodes a mapping as a blob, entry by entry in the order in which the
/// mapping keeps them. The same entries, and so the same mapping, can be
/// decoded from the blob again.
pub fn serialize_data(data: &Mapping) -> (bytes: Vec<u8>)
    ensures
        bytes@ == encode_mapping(data.entries()),
        decode_mapping(bytes@) == Ok::<Seq<(Seq<char>, i32)>, DecodeError>(data.entries()),
{
    let items = data.as_slice();
    let ghost es = data.entries();
    let mut bytes: Vec<u8> = Vec::new();
    push_u64(&mut bytes, items.len() as u64);
    let ghost head = bytes@;
    let mut i: usize = 0;
    while i < items.len()
        invariant
            i <= items.len(),
            es == entries_view(items@),
            head == be_bytes_u64(es.len() as u64),
            bytes@ == head + encode_entries(es.take(i as int)),
            forall|j: int| 0 <= j < i ==> encode_utf8(#[trigger] es[j].0).len() <= u64::MAX,
        decreases items.len() - i,
    {
        let key = items[i].key.as_str().as_bytes();
        let ghost before = bytes@;
        push_u64(&mut bytes, key.len() as u64);
        push_bytes(&mut bytes, key);
        push_i32(&mut bytes, items[i].value);
        proof {
            reveal(encode_entry);
            let e = es[i as int];
            assert(e == (items@[i as int].key@, items@[i as int].value));
            assert(es.take(i + 1).drop_last() =~= es.take(i as int));
            assert(es.take(i + 1).last() == e);
            assert(bytes@ =~= before + encode_entry(e));
            assert(bytes@ =~= head + encode_entries(es.take(i + 1)));
        }
        i += 1;
    }
    assert(es.take(i as int) =~= es);
    proof {
        lemma_mapping_round_trip(es);
    }
    bytes
}

/// Decodes a blob, or says why it holds no mapping.
pub fn deserialize_data(bytes: &[u8]) -> (r: Result<Mapping, DecodeError>)
    ensures
        match r {
            Ok(m) => decode_mapping(bytes@) == Ok::<Seq<(Seq<char>, i32)>, DecodeError>(
                m.entries(),
            ),
            Err(e) => decode_mapping(bytes@) == Err::<Seq<(Seq<char>, i32)>, DecodeError>(e),
        },
{
    if bytes.len() < 8 {
        return Err(DecodeError::Truncated);
    }
    let mut left: u64 = read_u64(bytes, 0);
    let mut at: usize = 8;
    let mut data = Mapping::new();
    while left > 0
        invariant
            8 <= at <= bytes.len(),
            decode_mapping(bytes@) == decode_entries(
                bytes@,
                at as int,
                left as nat,
                data.entries(),
            ),
        decreases left,
    {
        if bytes.len() - at < 12 {
            return Err(DecodeError::Truncated);
        }
        let key_len: u64 = read_u64(bytes, at);
        if ((bytes.len() - at - 12) as u64) < key_len {
            return Err(DecodeError::Truncated);
        }
        let key_end: usize = at + 8 + key_len as usize;
        let key_bytes = slice_to_vec(slice_subrange(bytes, at + 8, key_end));
        let key = match string_from_utf8(key_bytes) {
            Some(key) => key,
            None => {
                return Err(DecodeError::InvalidText);
            },
        };
        if data.contains_key(key.as_str()) {
            proof {
                data.lemma_keys(key@);
            }
            return Err(DecodeError::DuplicateKey);
        }
        proof {
            data.lemma_keys(key@);
        }
        let value = read_i32(bytes, key_end);
        data.insert(key, value);
        at = key_end + 4;
        left -= 1;
    }
    if at != bytes.len() {
        return Err(DecodeError::TrailingBytes);
    }
    Ok(data)
}

/// Four planets, each with a number.
pub open spec fn planet_entries() -> Seq<(Seq<char>, i32)> {
    seq![("Mercury"@, 4i32), ("Venus"@, 7i32), ("Earth"@, 0i32), ("Mars"@, 5i32)]
}

/// A small mapping to try the codec on: four planets, each with a number.
pub fn planets() -> (data: Mapping)
    ensures
        data.entries() == planet_entries(),
{
    proof {
        reveal_strlit("Mercury");
        reveal_strlit("Venus");
        reveal_strlit("Earth");
        reveal_strlit("Mars");
    }
    let mut data = Mapping::new();
    data.insert("Mercury".to_owned(), 4);
    assert(!has_key(data.entries(), "Venus"@)) by {
        assert("Mercury"@.len() != "Venus"@.len());
    }
    data.insert("Venus".to_owned(), 7);
    assert(!has_key(data.entries(), "Earth"@)) by {
        assert("Mercury"@.len() != "Earth"@.len());
        assert("Venus"@[0] != "Earth"@[0]);
    }
    data.insert("Earth".to_owned(), 0);
    assert(!has_key(data.entries(), "Mars"@)) by {
        assert("Mercury"@.len() != "Mars"@.len());
        assert("Venus"@.len() != "Mars"@.len());
        assert("Earth"@.len() != "Mars"@.len());
    }
    data.insert("Mars".to_owned(), 5);
    assert(data.entries() =~= planet_entries());
    data
}

} // verus!
