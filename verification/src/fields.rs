//! Reading typed fields out of object bodies.
//!
//! Every object kind keeps its payload in the body map. These helpers read
//! one field at a time and state what they find over the body's [`Model`],
//! so the readers of each kind can say exactly which bodies they accept.

use crate::cbor::{
    dict_get, entry_models, lemma_lookup_model, mlookup, model, models, Model, Value,
};
use crate::cid::{read_cid, CidReading};
use crate::text::text_eq;
use crate::{Cid, HashAlg};
use vstd::prelude::*;
use vstd::utf8::*;

verus! {

broadcast use vstd::utf8::group_utf8_lib;

/// The model of an optional borrowed value.
pub open spec fn mref(v: Option<&Value>) -> Option<Model> {
    match v {
        Some(x) => Some(model(*x)),
        None => None,
    }
}

/// The text a model holds, if it is text.
pub open spec fn mtext(m: Option<Model>) -> Option<Seq<char>> {
    match m {
        Some(Model::Text(t)) => Some(t),
        _ => None,
    }
}

/// The number a model holds, if it is a non-negative integer.
pub open spec fn muint(m: Option<Model>) -> Option<u64> {
    match m {
        Some(Model::Uint(n)) => Some(n),
        _ => None,
    }
}

/// The bytes a model holds, if it is a byte string.
pub open spec fn mbytes(m: Option<Model>) -> Option<Seq<u8>> {
    match m {
        Some(Model::Bytes(b)) => Some(b),
        _ => None,
    }
}

/// The items a model holds, if it is an array.
pub open spec fn mitems(m: Option<Model>) -> Option<Seq<Model>> {
    match m {
        Some(Model::Array(items)) => Some(items),
        _ => None,
    }
}

/// The entry under `k` of a model that is a map.
pub open spec fn mget(m: Model, k: Seq<char>) -> Option<Model> {
    match m {
        Model::Dict(es) => mlookup(es, k),
        _ => None,
    }
}

/// The identifier a text parses to, if it parses.
pub open spec fn cid_from_text(t: Seq<char>) -> Option<(HashAlg, Seq<u8>)> {
    match read_cid(encode_utf8(t)) {
        CidReading::Parsed(d) => Some((HashAlg::Sha2_256, d)),
        _ => None,
    }
}

/// The identifier an optional text parses to.
pub open spec fn opt_cid(t: Option<Seq<char>>) -> Option<(HashAlg, Seq<u8>)> {
    match t {
        Some(x) => cid_from_text(x),
        None => None,
    }
}

/// The view of an optional text.
pub open spec fn sview(s: Option<&str>) -> Option<Seq<char>> {
    match s {
        Some(x) => Some(x@),
        None => None,
    }
}

/// The view of an optional identifier.
pub open spec fn cview(c: Option<Cid>) -> Option<(HashAlg, Seq<u8>)> {
    match c {
        Some(x) => Some(x@),
        None => None,
    }
}

/// The views of a list of identifiers.
pub open spec fn cids_view(s: Seq<Cid>) -> Seq<(HashAlg, Seq<u8>)> {
    s.map_values(|c: Cid| c@)
}

/// The text form an identifier is written in.
pub open spec fn cid_string(c: (HashAlg, Seq<u8>)) -> Seq<char> {
    decode_utf8(crate::cid::cid_text(c))
}

/// An item of an array is the model of the value there.
pub proof fn lemma_models_index(s: Seq<Value>, i: int)
    requires
        0 <= i < s.len(),
    ensures
        models(s).len() == s.len(),
        models(s)[i] == model(s[i]),
    decreases s.len(),
{
    crate::cbor::encode::lemma_models_len(s);
    if i < s.len() - 1 {
        lemma_models_index(s.drop_last(), i);
    }
}

/// The entry under `k` in a body.
pub fn entry<'a>(es: &'a Vec<(String, Value)>, k: &str) -> (r: Option<&'a Value>)
    ensures
        mref(r) == mlookup(entry_models(es@), k@),
{
    proof {
        lemma_lookup_model(es@, k@);
    }
    dict_get(es, k)
}

/// The entry under `k` in a value that is a map.
pub fn member<'a>(v: &'a Value, k: &str) -> (r: Option<&'a Value>)
    ensures
        mref(r) == mget(model(*v), k@),
{
    match v {
        Value::Dict(es) => entry(es, k),
        _ => None,
    }
}

/// The entry under `k` in an optional value.
pub fn member_of<'a>(v: Option<&'a Value>, k: &str) -> (r: Option<&'a Value>)
    ensures
        mref(r) == match mref(v) {
            Some(m) => mget(m, k@),
            None => None,
        },
{
    match v {
        Some(x) => member(x, k),
        None => None,
    }
}

/// The text of an optional value, if it is text.
pub fn text_in<'a>(v: Option<&'a Value>) -> (r: Option<&'a str>)
    ensures
        sview(r) == mtext(mref(v)),
{
    match v {
        Some(Value::Text(s)) => Some(s.as_str()),
        _ => None,
    }
}

/// The number in an optional value, if it is a non-negative integer.
pub fn uint_in(v: Option<&Value>) -> (r: Option<u64>)
    ensures
        r == muint(mref(v)),
{
    match v {
        Some(Value::Uint(n)) => Some(*n),
        _ => None,
    }
}

/// The bytes of an optional value, if it is a byte string.
pub fn bytes_in<'a>(v: Option<&'a Value>) -> (r: Option<&'a [u8]>)
    ensures
        match r {
            Some(b) => mbytes(mref(v)) == Some(b@),
            None => mbytes(mref(v)) is None,
        },
{
    match v {
        Some(Value::Bytes(b)) => Some(b.as_slice()),
        _ => None,
    }
}

/// The items of an optional value, if it is an array.
pub fn items_in<'a>(v: Option<&'a Value>) -> (r: Option<&'a Vec<Value>>)
    ensures
        match r {
            Some(items) => mitems(mref(v)) == Some(models(items@)),
            None => mitems(mref(v)) is None,
        },
{
    match v {
        Some(Value::Array(items)) => Some(items),
        _ => None,
    }
}

/// The identifier an optional text parses to, if it parses.
pub fn cid_in(t: Option<&str>) -> (r: Option<Cid>)
    ensures
        cview(r) == opt_cid(sview(t)),
{
    match t {
        Some(s) => match Cid::parse(s) {
            Ok(c) => Some(c),
            Err(_) => None,
        },
        None => None,
    }
}

/// The identifier under `k` in a body, if it is text that parses.
pub fn cid_entry(es: &Vec<(String, Value)>, k: &str) -> (r: Option<Cid>)
    ensures
        cview(r) == opt_cid(mtext(mlookup(entry_models(es@), k@))),
{
    cid_in(text_in(entry(es, k)))
}

/// The text form of an identifier.
pub fn cid_to_string(c: &Cid) -> (r: String)
    ensures
        r@ == cid_string(c@),
{
    let s = c.to_string();
    proof {
        assert(decode_utf8(encode_utf8(s@)) == s@);
    }
    s
}

/// The identifiers a list of items names, if every item is the text of
/// one.
pub open spec fn cid_list(items: Seq<Model>) -> Option<Seq<(HashAlg, Seq<u8>)>>
    decreases items.len(),
{
    if items.len() == 0 {
        Some(Seq::empty())
    } else {
        match cid_list(items.drop_last()) {
            None => None,
            Some(prev) => match opt_cid(mtext(Some(items.last()))) {
                None => None,
                Some(c) => Some(prev.push(c)),
            },
        }
    }
}

/// Once a prefix fails to read as identifiers, the whole list fails.
proof fn lemma_cid_list_prefix(s: Seq<Model>, i: int)
    requires
        0 <= i <= s.len(),
        cid_list(s.take(i)) is None,
    ensures
        cid_list(s) is None,
    decreases s.len() - i,
{
    if i == s.len() {
        assert(s.take(i) =~= s);
    } else {
        assert(s.take(i + 1).drop_last() =~= s.take(i));
        lemma_cid_list_prefix(s, i + 1);
    }
}

/// Read a list of items as identifiers.
pub fn read_cid_list(items: &Vec<Value>) -> (r: Option<Vec<Cid>>)
    ensures
        match cid_list(models(items@)) {
            Some(x) => r matches Some(v) && cids_view(v@) == x,
            None => r is None,
        },
{
    let mut out: Vec<Cid> = Vec::new();
    let mut i: usize = 0;
    proof {
        crate::cbor::encode::lemma_models_len(items@);
        assert(models(items@).take(0) =~= Seq::<Model>::empty());
        assert(cids_view(out@) =~= Seq::empty());
    }
    while i < items.len()
        invariant
            i <= items.len(),
            models(items@).len() == items.len(),
            cid_list(models(items@).take(i as int)) == Some(cids_view(out@)),
        decreases items.len() - i,
    {
        proof {
            lemma_models_index(items@, i as int);
            assert(models(items@).take(i + 1).drop_last() =~= models(items@).take(i as int));
            assert(models(items@).take(i + 1).last() == model(items@[i as int]));
        }
        match cid_in(text_in(Some(&items[i]))) {
            Some(c) => {
                let ghost before = out@;
                out.push(c);
                proof {
                    assert(cids_view(out@) =~= cids_view(before).push(c@));
                }
            },
            None => {
                proof {
                    lemma_cid_list_prefix(models(items@), i + 1);
                }
                return None;
            },
        }
        i = i + 1;
    }
    assert(models(items@).take(items.len() as int) =~= models(items@));
    Some(out)
}

/// The text of a body field.
pub open spec fn body_text(o: crate::object::ObjectView, f: Seq<char>) -> Option<Seq<char>> {
    mtext(mlookup(o.body, f))
}

/// The text of a field of a body's `value` map.
pub open spec fn value_text(o: crate::object::ObjectView, f: Seq<char>) -> Option<Seq<char>> {
    match mlookup(o.body, "value"@) {
        Some(v) => mtext(mget(v, f)),
        None => None,
    }
}

/// Whether an object is an annotation of kind `kind` about the object
/// whose identifier text is `target`.
pub open spec fn annotates(o: crate::object::ObjectView, kind: Seq<char>, target: Seq<char>) -> bool {
    &&& o.kind == "ann"@
    &&& body_text(o, "kind"@) == Some(kind)
    &&& body_text(o, "target"@) == Some(target)
}

/// Whether an object annotates `target` with kind `kind`.
pub fn is_annotation(o: &crate::Object, kind: &str, target: &str) -> (r: bool)
    ensures
        r == annotates(o@, kind@, target@),
{
    let body = o.body();
    text_eq(o.kind(), "ann") && match text_in(entry(body, "kind")) {
        Some(k) => text_eq(k, kind),
        None => false,
    } && match text_in(entry(body, "target")) {
        Some(x) => text_eq(x, target),
        None => false,
    }
}

/// The text of a field of an object's `value` map.
pub fn value_field<'a>(o: &'a crate::Object, f: &str) -> (r: Option<&'a str>)
    ensures
        sview(r) == value_text(o@, f@),
{
    text_in(member_of(entry(o.body(), "value"), f))
}

} // verus!
