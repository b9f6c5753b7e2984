//! Deterministic CBOR under the canonical profile.
//!
//! The profile is narrower than RFC 8949 canonical encoding: floating point
//! is excluded, map keys must be text in ascending UTF-8 byte order, and
//! text must be in Unicode Normalization Form C. Non-canonical bytes are
//! rejected rather than repaired, because an object's identity is the hash
//! of its bytes.
//!
//! The canonical encoding of a value is the spec function [`enc`] over the
//! value's [`Model`]. [`encode`] computes it; [`decode`] accepts exactly
//! the canonical encodings of canonical values, and reads back the value
//! that was encoded.

mod decode;
mod dict;
pub use dict::{lemma_entry_index, lemma_lookup_model, mkey_index, mlookup, model_of, dict_from_spec, dict_insert, key_bytes, keys_sorted, lemma_lex_irrefl, lemma_lex_total, lemma_lex_trans, lemma_lookup_sorted};
pub(crate) mod encode;
mod laws;
pub mod scan;
mod sort;
pub use laws::{law_reading_unique, law_bytes_round_trip, law_decoded_reencodes, law_encoding_injective, law_value_round_trip};
pub use sort::lemma_normal_canonical;
pub(crate) mod lemmas;
pub(crate) use lemmas::lemma_entry_models_push;
pub(crate) use decode::read_be;
pub(crate) use decode::lex_less as lex_less_bytes;
pub(crate) use encode::push_be;
pub(crate) use lemmas::{lemma_be_of_from_be as lemma_be_of_from_be_pub, lemma_from_be_bound, pow256};

pub use decode::{decode, decode_with_limit, DEFAULT_MAX_DEPTH, MAX_OBJECT_BYTES};
pub use encode::encode;


use crate::text::is_nfc_text;
use vstd::prelude::*;
use vstd::utf8::*;

verus! {

/// A value in the deterministic CBOR profile.
///
/// There is deliberately no float variant and no tag variant. A map is a
/// list of entries; a canonical map lists its keys in strictly ascending
/// UTF-8 byte order (see [`canonical`]), and [`Value::dict_from`] builds one
/// in that order from entries given in any order.
#[derive(Debug, PartialEq, Eq)]
#[non_exhaustive]
pub enum Value {
    /// A non-negative integer (CBOR major type 0).
    Uint(u64),
    /// A negative integer, stored as `-1 - n` (CBOR major type 1).
    Nint(u64),
    /// A byte string (CBOR major type 2).
    Bytes(Vec<u8>),
    /// A text string (CBOR major type 3).
    Text(String),
    /// An array (CBOR major type 4).
    Array(Vec<Value>),
    /// A map with text keys (CBOR major type 5).
    Dict(Vec<(String, Value)>),
    /// `false` or `true` (CBOR simple values 20 and 21).
    Bool(bool),
    /// The null simple value.
    Null,
}

/// The mathematical content of a [`Value`].
pub enum Model {
    Uint(u64),
    Nint(u64),
    Bytes(Seq<u8>),
    Text(Seq<char>),
    Array(Seq<Model>),
    Dict(Seq<(Seq<char>, Model)>),
    Bool(bool),
    Null,
}

/// The model of a value.
pub open spec fn model(v: Value) -> Model
    decreases v,
{
    match v {
        Value::Uint(n) => Model::Uint(n),
        Value::Nint(n) => Model::Nint(n),
        Value::Bytes(b) => Model::Bytes(b@),
        Value::Text(s) => Model::Text(s@),
        Value::Array(items) => Model::Array(models(items@)),
        Value::Dict(entries) => Model::Dict(entry_models(entries@)),
        Value::Bool(b) => Model::Bool(b),
        Value::Null => Model::Null,
    }
}

/// The models of a sequence of values.
pub open spec fn models(s: Seq<Value>) -> Seq<Model>
    decreases s,
{
    if s.len() == 0 {
        Seq::empty()
    } else {
        models(s.drop_last()).push(model(s.last()))
    }
}

/// The models of a sequence of map entries.
pub open spec fn entry_models(s: Seq<(String, Value)>) -> Seq<(Seq<char>, Model)>
    decreases s,
{
    if s.len() == 0 {
        Seq::empty()
    } else {
        entry_models(s.drop_last()).push((s.last().0@, model(s.last().1)))
    }
}

/// `x` in `n` big-endian bytes (the low `8n` bits).
pub open spec fn be(x: nat, n: nat) -> Seq<u8>
    decreases n,
{
    if n == 0 {
        Seq::empty()
    } else {
        be(x / 256, (n - 1) as nat).push((x % 256) as u8)
    }
}

/// The big-endian number held in a byte sequence.
pub open spec fn from_be(s: Seq<u8>) -> nat
    decreases s.len(),
{
    if s.len() == 0 {
        0
    } else {
        (from_be(s.drop_last()) * 256 + s.last()) as nat
    }
}

/// How many bytes follow the initial byte in the shortest head for `arg`.
pub open spec fn arg_width(arg: nat) -> nat {
    if arg <= 23 {
        0
    } else if arg <= 0xff {
        1
    } else if arg <= 0xffff {
        2
    } else if arg <= 0xffff_ffff {
        4
    } else {
        8
    }
}

/// The additional-information field of the shortest head for `arg`.
pub open spec fn info_for(arg: nat) -> nat {
    if arg <= 23 {
        arg
    } else if arg <= 0xff {
        24
    } else if arg <= 0xffff {
        25
    } else if arg <= 0xffff_ffff {
        26
    } else {
        27
    }
}

/// The shortest-form head of an item of major type `major` and argument `arg`.
pub open spec fn head(major: nat, arg: nat) -> Seq<u8> {
    seq![(major * 32 + info_for(arg)) as u8] + be(arg, arg_width(arg))
}

/// The encoding of a text string: its head and its UTF-8 bytes.
pub open spec fn enc_text(t: Seq<char>) -> Seq<u8> {
    head(3, encode_utf8(t).len()) + encode_utf8(t)
}

/// The canonical encoding of a model.
pub open spec fn enc(m: Model) -> Seq<u8>
    decreases m,
{
    match m {
        Model::Uint(n) => head(0, n as nat),
        Model::Nint(n) => head(1, n as nat),
        Model::Bytes(b) => head(2, b.len()) + b,
        Model::Text(t) => enc_text(t),
        Model::Array(items) => head(4, items.len()) + enc_seq(items),
        Model::Dict(es) => head(5, es.len()) + enc_entries(es),
        Model::Bool(b) => seq![if b { 0xf5u8 } else { 0xf4u8 }],
        Model::Null => seq![0xf6u8],
    }
}

/// The concatenated encodings of a sequence of models.
pub open spec fn enc_seq(s: Seq<Model>) -> Seq<u8>
    decreases s,
{
    if s.len() == 0 {
        Seq::empty()
    } else {
        enc_seq(s.drop_last()) + enc(s.last())
    }
}

/// The concatenated encodings of a sequence of map entries, each a text key
/// followed by its value.
pub open spec fn enc_entries(s: Seq<(Seq<char>, Model)>) -> Seq<u8>
    decreases s,
{
    if s.len() == 0 {
        Seq::empty()
    } else {
        enc_entries(s.drop_last()) + enc_text(s.last().0) + enc(s.last().1)
    }
}

/// `e` placed among entries whose keys ascend: before the first key it
/// precedes, or in place of an entry with its key.
pub open spec fn place(s: Seq<(Seq<char>, Model)>, e: (Seq<char>, Model)) -> Seq<(Seq<char>, Model)>
    decreases s.len(),
{
    if s.len() == 0 {
        seq![e]
    } else if lex_lt(encode_utf8(e.0), encode_utf8(s[0].0)) {
        seq![e] + s
    } else if e.0 == s[0].0 {
        seq![e] + s.drop_first()
    } else {
        seq![s[0]] + place(s.drop_first(), e)
    }
}

/// Map entries in ascending key order, each key once, the last entry of a
/// key kept.
pub open spec fn sorted_entries(es: Seq<(Seq<char>, Model)>) -> Seq<(Seq<char>, Model)>
    decreases es.len(),
{
    if es.len() == 0 {
        Seq::empty()
    } else {
        place(sorted_entries(es.drop_last()), es.last())
    }
}

/// The model a value stands for as a map: every map's entries in
/// ascending key order, the last of each key kept.
pub open spec fn normal(m: Model) -> Model
    decreases m,
{
    match m {
        Model::Array(items) => Model::Array(normal_seq(items)),
        Model::Dict(es) => Model::Dict(sorted_entries(normal_entries(es))),
        _ => m,
    }
}

/// [`normal`] of each model of a sequence.
pub open spec fn normal_seq(s: Seq<Model>) -> Seq<Model>
    decreases s,
{
    if s.len() == 0 {
        Seq::empty()
    } else {
        normal_seq(s.drop_last()).push(normal(s.last()))
    }
}

/// [`normal`] of each value of a sequence of map entries.
pub open spec fn normal_entries(s: Seq<(Seq<char>, Model)>) -> Seq<(Seq<char>, Model)>
    decreases s,
{
    if s.len() == 0 {
        Seq::empty()
    } else {
        normal_entries(s.drop_last()).push((s.last().0, normal(s.last().1)))
    }
}

/// Strict lexicographic order on byte strings.
pub open spec fn lex_lt(a: Seq<u8>, b: Seq<u8>) -> bool
    decreases a.len(),
{
    if a.len() == 0 {
        b.len() > 0
    } else if b.len() == 0 {
        false
    } else if a[0] < b[0] {
        true
    } else if a[0] > b[0] {
        false
    } else {
        lex_lt(a.drop_first(), b.drop_first())
    }
}

/// Whether the keys of a map are in strictly ascending UTF-8 byte order.
pub open spec fn keys_ascending(es: Seq<(Seq<char>, Model)>) -> bool {
    forall|i: int|
        0 < i < es.len() ==> lex_lt(encode_utf8(#[trigger] es[i - 1].0), encode_utf8(es[i].0))
}

/// Whether a model lies in the canonical profile: every text, key included,
/// is in NFC, and every map's keys ascend strictly.
pub open spec fn canonical(m: Model) -> bool
    decreases m,
{
    match m {
        Model::Text(t) => is_nfc_text(t),
        Model::Array(items) => canonical_seq(items),
        Model::Dict(es) => keys_ascending(es) && canonical_entries(es),
        _ => true,
    }
}

/// Whether every model in a sequence is canonical.
pub open spec fn canonical_seq(s: Seq<Model>) -> bool
    decreases s,
{
    s.len() > 0 ==> canonical_seq(s.drop_last()) && canonical(s.last())
}

/// Whether every entry of a map has an NFC key and a canonical value.
pub open spec fn canonical_entries(s: Seq<(Seq<char>, Model)>) -> bool
    decreases s,
{
    s.len() > 0 ==> canonical_entries(s.drop_last()) && is_nfc_text(s.last().0) && canonical(
        s.last().1,
    )
}

/// Whether a model nests no deeper than `budget` levels below the top.
pub open spec fn within(m: Model, budget: int) -> bool
    decreases m,
{
    budget >= 0 && match m {
        Model::Array(items) => within_seq(items, budget - 1),
        Model::Dict(es) => within_entries(es, budget - 1),
        _ => true,
    }
}

/// Whether every model in a sequence nests within `budget`.
pub open spec fn within_seq(s: Seq<Model>, budget: int) -> bool
    decreases s,
{
    s.len() > 0 ==> within_seq(s.drop_last(), budget) && within(s.last(), budget)
}

/// Whether every value of a map nests within `budget`.
pub open spec fn within_entries(s: Seq<(Seq<char>, Model)>, budget: int) -> bool
    decreases s,
{
    s.len() > 0 ==> within_entries(s.drop_last(), budget) && within(s.last().1, budget)
}

/// Whether `b` begins with `p`.
pub open spec fn starts_with(b: Seq<u8>, p: Seq<u8>) -> bool {
    p.len() <= b.len() && b.take(p.len() as int) == p
}

/// The length of `p` if `b` begins with it.
pub open spec fn prefix_len(b: Seq<u8>, p: Seq<u8>) -> Option<nat> {
    if starts_with(b, p) {
        Some(p.len())
    } else {
        None
    }
}

/// The simple-value argument of `false`, `true` and `null`.
pub open spec fn simple_code(m: Model) -> u8 {
    match m {
        Model::Bool(false) => 20,
        Model::Bool(true) => 21,
        _ => 22,
    }
}

/// The length of the encoding of `m` that `b` begins with, under the rules
/// the decoder applies: the shortest-form head, then the contents.
pub open spec fn dec_len(m: Model, b: Seq<u8>) -> Option<nat>
    decreases m,
{
    match m {
        Model::Array(items) => {
            let h = head(4, items.len());
            if starts_with(b, h) {
                match dec_len_seq(items, b.skip(h.len() as int)) {
                    Some(k) => Some(h.len() + k),
                    None => None,
                }
            } else {
                None
            }
        },
        Model::Dict(es) => {
            let h = head(5, es.len());
            if starts_with(b, h) {
                match dec_len_entries(es, b.skip(h.len() as int)) {
                    Some(k) => Some(h.len() + k),
                    None => None,
                }
            } else {
                None
            }
        },
        _ => prefix_len(b, enc(m)),
    }
}

/// The length of the encodings of a sequence of models that `b` begins with.
pub open spec fn dec_len_seq(s: Seq<Model>, b: Seq<u8>) -> Option<nat>
    decreases s,
{
    if s.len() == 0 {
        Some(0)
    } else {
        match dec_len_seq(s.drop_last(), b) {
            Some(k) => match dec_len(s.last(), b.skip(k as int)) {
                Some(j) => Some(k + j),
                None => None,
            },
            None => None,
        }
    }
}

/// The length of the encodings of a sequence of map entries that `b`
/// begins with.
pub open spec fn dec_len_entries(s: Seq<(Seq<char>, Model)>, b: Seq<u8>) -> Option<nat>
    decreases s,
{
    if s.len() == 0 {
        Some(0)
    } else {
        match dec_len_entries(s.drop_last(), b) {
            Some(k) => {
                let key = enc_text(s.last().0);
                if starts_with(b.skip(k as int), key) {
                    match dec_len(s.last().1, b.skip((k + key.len()) as int)) {
                        Some(j) => Some(k + key.len() + j),
                        None => None,
                    }
                } else {
                    None
                }
            },
            None => None,
        }
    }
}

/// Whether the decoder, with these limits, reads `b` as exactly `m`.
pub open spec fn accepts(b: Seq<u8>, m: Model, max_bytes: int, max_depth: int) -> bool {
    &&& b.len() <= max_bytes
    &&& canonical(m)
    &&& within(m, max_depth)
    &&& dec_len(m, b) == Some(b.len())
}

/// Whether `b` is the canonical encoding of a canonical `m` within limits.
pub open spec fn encodes(b: Seq<u8>, m: Model, max_bytes: int, max_depth: int) -> bool {
    &&& b.len() <= max_bytes
    &&& canonical(m)
    &&& within(m, max_depth)
    &&& enc(m) == b
}

/// Index of the first entry whose key is `key`, or -1.
pub open spec fn key_index(es: Seq<(String, Value)>, key: Seq<char>) -> int
    decreases es.len(),
{
    if es.len() == 0 {
        -1
    } else if key_index(es.drop_last(), key) >= 0 {
        key_index(es.drop_last(), key)
    } else if es.last().0@ == key {
        es.len() - 1
    } else {
        -1
    }
}

/// The value stored under `key` in a list of entries, if any.
pub open spec fn lookup(es: Seq<(String, Value)>, key: Seq<char>) -> Option<Value> {
    let i = key_index(es, key);
    if i >= 0 {
        Some(es[i].1)
    } else {
        None
    }
}

/// The map entries of a value, or nothing for any other kind.
pub open spec fn entries_of(v: Value) -> Seq<(String, Value)> {
    match v {
        Value::Dict(es) => es@,
        _ => Seq::empty(),
    }
}

/// What [`Value::get`] returns for `v` and `key`.
pub open spec fn get_spec(v: Value, key: Seq<char>) -> Option<Value> {
    lookup(entries_of(v), key)
}

/// What [`Value::as_text`] sees in a value.
pub open spec fn text_of(v: Option<Value>) -> Option<Seq<char>> {
    match v {
        Some(Value::Text(s)) => Some(s@),
        _ => None,
    }
}

/// What [`Value::as_uint`] sees in a value.
pub open spec fn uint_of(v: Option<Value>) -> Option<u64> {
    match v {
        Some(Value::Uint(n)) => Some(n),
        _ => None,
    }
}

/// What [`Value::as_bytes`] sees in a value.
pub open spec fn bytes_of(v: Option<Value>) -> Option<Seq<u8>> {
    match v {
        Some(Value::Bytes(b)) => Some(b@),
        _ => None,
    }
}

pub(crate) proof fn lemma_key_index_bounds(es: Seq<(String, Value)>, key: Seq<char>)
    ensures
        -1 <= key_index(es, key) < es.len(),
        key_index(es, key) >= 0 ==> es[key_index(es, key)].0@ == key,
        forall|j: int| 0 <= j < es.len() && es[j].0@ == key ==> key_index(es, key) >= 0,
        forall|j: int| 0 <= j < key_index(es, key) ==> es[j].0@ != key,
    decreases es.len(),
{
    if es.len() > 0 {
        lemma_key_index_bounds(es.drop_last(), key);
        assert forall|j: int| 0 <= j < es.len() - 1 implies es.drop_last()[j] == es[j] by {}
    }
}

/// Find the first entry whose key is `key`.
pub fn find_key(entries: &Vec<(String, Value)>, key: &str) -> (r: Option<usize>)
    ensures
        match r {
            Some(i) => i == key_index(entries@, key@) && i < entries.len(),
            None => key_index(entries@, key@) == -1,
        },
{
    proof {
        lemma_key_index_bounds(entries@, key@);
    }
    let mut i: usize = 0;
    while i < entries.len()
        invariant
            i <= entries.len(),
            -1 <= key_index(entries@, key@) < entries@.len(),
            key_index(entries@, key@) >= 0 ==> entries@[key_index(entries@, key@)].0@ == key@,
            forall|j: int| 0 <= j < entries@.len() && entries@[j].0@ == key@ ==> key_index(entries@, key@) >= 0,
            forall|j: int| 0 <= j < key_index(entries@, key@) ==> entries@[j].0@ != key@,
            forall|j: int| 0 <= j < i ==> entries@[j].0@ != key@,
        decreases entries.len() - i,
    {
        if crate::text::text_eq(entries[i].0.as_str(), key) {
            return Some(i);
        }
        i = i + 1;
    }
    None
}

/// Borrow the value stored under `key` in a list of entries.
pub fn dict_get<'a>(entries: &'a Vec<(String, Value)>, key: &str) -> (r: Option<&'a Value>)
    ensures
        match r {
            Some(x) => lookup(entries@, key@) == Some(*x),
            None => lookup(entries@, key@) is None,
        },
{
    match find_key(entries, key) {
        Some(i) => Some(&entries[i].1),
        None => None,
    }
}

/// Copy a value, entries and all.
pub fn clone_value(v: &Value) -> (r: Value)
    ensures
        model(r) == model(*v),
    decreases v,
{
    match v {
        Value::Uint(n) => Value::Uint(*n),
        Value::Nint(n) => Value::Nint(*n),
        Value::Bytes(b) => Value::Bytes(crate::text::copy_bytes(b.as_slice())),
        Value::Text(s) => Value::Text(crate::text::copy_text(s.as_str())),
        Value::Array(items) => {
            let mut out: Vec<Value> = Vec::new();
            let mut i: usize = 0;
            while i < items.len()
                invariant
                    i <= items.len(),
                    models(out@) == models(items@.take(i as int)),
                    *v == Value::Array(*items),
                decreases items.len() - i,
            {
                proof {
                    assert(decreases_to!(*v => v->Array_0));
                    assert(decreases_to!(v->Array_0 => v->Array_0@));
                    assert(decreases_to!(items@ => items@[i as int]));
                    assert(decreases_to!(*v => items@[i as int]));
                }
                let c = clone_value(&items[i]);
                proof {
                    assert(items@.take(i + 1).drop_last() =~= items@.take(i as int));
                    assert(out@.push(c).drop_last() =~= out@);
                }
                out.push(c);
                i = i + 1;
            }
            assert(items@.take(items.len() as int) =~= items@);
            Value::Array(out)
        },
        Value::Dict(entries) => {
            let mut out: Vec<(String, Value)> = Vec::new();
            let mut i: usize = 0;
            while i < entries.len()
                invariant
                    i <= entries.len(),
                    entry_models(out@) == entry_models(entries@.take(i as int)),
                    *v == Value::Dict(*entries),
                decreases entries.len() - i,
            {
                proof {
                    assert(decreases_to!(*v => v->Dict_0));
                    assert(decreases_to!(v->Dict_0 => v->Dict_0@));
                    assert(decreases_to!(entries@ => entries@[i as int]));
                    assert(decreases_to!(entries@[i as int] => entries@[i as int].1));
                    assert(decreases_to!(*v => entries@[i as int].1));
                }
                let k = crate::text::copy_text(entries[i].0.as_str());
                let c = clone_value(&entries[i].1);
                proof {
                    assert(entries@.take(i + 1).drop_last() =~= entries@.take(i as int));
                    assert(out@.push((k, c)).drop_last() =~= out@);
                }
                out.push((k, c));
                i = i + 1;
            }
            assert(entries@.take(entries.len() as int) =~= entries@);
            Value::Dict(out)
        },
        Value::Bool(b) => Value::Bool(*b),
        Value::Null => Value::Null,
    }
}

impl Clone for Value {
    fn clone(&self) -> (r: Self)
        ensures
            model(r) == model(*self),
    {
        clone_value(self)
    }
}

impl Value {
    /// Borrow a map entry, if this is a map containing `key`.
    pub fn get(&self, key: &str) -> (r: Option<&Value>)
        ensures
            match r {
                Some(x) => get_spec(*self, key@) == Some(*x),
                None => get_spec(*self, key@) is None,
            },
    {
        match self {
            Value::Dict(m) => dict_get(m, key),
            _ => None,
        }
    }

    /// Borrow the text, if this is a text string.
    pub fn as_text(&self) -> (r: Option<&str>)
        ensures
            match r {
                Some(s) => text_of(Some(*self)) == Some(s@),
                None => text_of(Some(*self)) is None,
            },
    {
        match self {
            Value::Text(s) => Some(s.as_str()),
            _ => None,
        }
    }

    /// Borrow the bytes, if this is a byte string.
    pub fn as_bytes(&self) -> (r: Option<&[u8]>)
        ensures
            match r {
                Some(b) => bytes_of(Some(*self)) == Some(b@),
                None => bytes_of(Some(*self)) is None,
            },
    {
        match self {
            Value::Bytes(b) => Some(b.as_slice()),
            _ => None,
        }
    }

    /// The value, if this is a non-negative integer.
    pub fn as_uint(&self) -> (r: Option<u64>)
        ensures
            r == uint_of(Some(*self)),
    {
        match self {
            Value::Uint(n) => Some(*n),
            _ => None,
        }
    }
}

} // verus!
