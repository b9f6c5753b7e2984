//! Maps kept in canonical key order.
//!
//! A map is held as a list of entries. [`dict_insert`] keeps the keys in
//! strictly ascending UTF-8 byte order, so a map built by insertion encodes
//! canonically without a later sort, and a key present twice is replaced.

use super::{entry_models, key_index, lex_lt, lookup, model, Model, Value};
use crate::text::text_eq;
use vstd::prelude::*;
use vstd::utf8::*;

verus! {

broadcast use vstd::utf8::group_utf8_lib;

/// The UTF-8 bytes of an entry's key.
pub open spec fn key_bytes(e: (String, Value)) -> Seq<u8> {
    encode_utf8(e.0@)
}

/// Whether the keys of a list of entries ascend strictly, pairwise.
pub open spec fn keys_sorted(es: Seq<(String, Value)>) -> bool {
    forall|i: int, j: int|
        0 <= i < j < es.len() ==> lex_lt(key_bytes(#[trigger] es[i]), key_bytes(#[trigger] es[j]))
}

/// Strict lexicographic order is transitive.
pub proof fn lemma_lex_trans(a: Seq<u8>, b: Seq<u8>, c: Seq<u8>)
    requires
        lex_lt(a, b),
        lex_lt(b, c),
    ensures
        lex_lt(a, c),
    decreases a.len(),
{
    if a.len() > 0 && b.len() > 0 && c.len() > 0 && a[0] == b[0] && b[0] == c[0] {
        lemma_lex_trans(a.drop_first(), b.drop_first(), c.drop_first());
    }
}

/// Strict lexicographic order is irreflexive.
pub proof fn lemma_lex_irrefl(a: Seq<u8>)
    ensures
        !lex_lt(a, a),
    decreases a.len(),
{
    if a.len() > 0 {
        lemma_lex_irrefl(a.drop_first());
    }
}

/// Of two distinct byte strings, one precedes the other.
pub proof fn lemma_lex_total(a: Seq<u8>, b: Seq<u8>)
    requires
        a != b,
    ensures
        lex_lt(a, b) || lex_lt(b, a),
    decreases a.len(),
{
    if a.len() > 0 && b.len() > 0 && a[0] == b[0] {
        if a.drop_first() == b.drop_first() {
            assert(a =~= seq![a[0]] + a.drop_first());
            assert(b =~= seq![b[0]] + b.drop_first());
        }
        lemma_lex_total(a.drop_first(), b.drop_first());
    } else if a.len() == 0 && b.len() == 0 {
        assert(a =~= b);
    }
}

/// In a list whose keys ascend, an entry is what a lookup of its key finds.
pub proof fn lemma_lookup_sorted(es: Seq<(String, Value)>, k: Seq<char>)
    requires
        keys_sorted(es),
    ensures
        forall|j: int| 0 <= j < es.len() && es[j].0@ == k ==> lookup(es, k) == Some(es[j].1),
        (forall|j: int| 0 <= j < es.len() ==> es[j].0@ != k) ==> lookup(es, k) is None,
{
    super::lemma_key_index_bounds(es, k);
    assert forall|j: int| 0 <= j < es.len() && es[j].0@ == k implies lookup(es, k) == Some(es[j].1) by {
        let i = key_index(es, k);
        if i != j {
            if i < j {
                assert(lex_lt(key_bytes(es[i]), key_bytes(es[j])));
            } else {
                assert(lex_lt(key_bytes(es[j]), key_bytes(es[i])));
            }
            lemma_lex_irrefl(encode_utf8(k));
        }
    }
}

/// Byte-wise comparison of two keys.
pub(crate) fn key_less(a: &str, b: &str) -> (r: bool)
    ensures
        r == lex_lt(encode_utf8(a@), encode_utf8(b@)),
{
    crate::cbor::decode::lex_less(a.as_bytes(), b.as_bytes())
}

/// Insert `value` under `key`, replacing an entry with the same key and
/// keeping the keys in ascending order.
pub fn dict_insert(entries: &mut Vec<(String, Value)>, key: String, value: Value)
    requires
        keys_sorted(old(entries)@),
    ensures
        keys_sorted(final(entries)@),
        lookup(final(entries)@, key@) == Some(value),
        forall|k: Seq<char>| k != key@ ==> #[trigger] lookup(final(entries)@, k) == lookup(old(entries)@, k),
        final(entries)@.len() == old(entries)@.len() + (if lookup(old(entries)@, key@) is Some { 0int } else { 1int }),
{
    let ghost old_es = entries@;
    let ghost new_entry = (key, value);
    let mut i: usize = 0;
    while i < entries.len() && key_less(entries[i].0.as_str(), key.as_str())
        invariant
            i <= entries.len(),
            entries@ == old_es,
            keys_sorted(old_es),
            forall|j: int| 0 <= j < i ==> lex_lt(key_bytes(old_es[j]), encode_utf8(key@)),
        decreases entries.len() - i,
    {
        i = i + 1;
    }
    proof {
        lemma_lookup_sorted(old_es, key@);
    }
    if i < entries.len() && text_eq(entries[i].0.as_str(), key.as_str()) {
        entries.set(i, (key, value));
        proof {
            let es = entries@;
            assert(es[i as int] == new_entry);
            assert forall|a: int, b: int| 0 <= a < b < es.len() implies lex_lt(key_bytes(#[trigger] es[a]), key_bytes(#[trigger] es[b])) by {
                assert(key_bytes(es[a]) == key_bytes(old_es[a]));
                assert(key_bytes(es[b]) == key_bytes(old_es[b]));
            }
            lemma_lookup_sorted(es, key@);
            assert forall|k: Seq<char>| k != key@ implies lookup(es, k) == lookup(old_es, k) by {
                lemma_lookup_sorted(es, k);
                lemma_lookup_sorted(old_es, k);
                if exists|j: int| 0 <= j < es.len() && es[j].0@ == k {
                    let j = choose|j: int| 0 <= j < es.len() && es[j].0@ == k;
                    assert(old_es[j] == es[j]);
                } else {
                    assert forall|j: int| 0 <= j < old_es.len() implies old_es[j].0@ != k by {
                        if j != i {
                            assert(old_es[j] == es[j]);
                        }
                    }
                }
            }
        }
    } else {
        proof {
            if i < entries.len() {
                let kb = key_bytes(old_es[i as int]);
                assert(kb != encode_utf8(key@)) by {
                    if kb == encode_utf8(key@) {
                        assert(decode_utf8(kb) == old_es[i as int].0@);
                    }
                }
                lemma_lex_total(kb, encode_utf8(key@));
            }
        }
        entries.insert(i, (key, value));
        proof {
            let es = entries@;
            assert(es == old_es.insert(i as int, (key, value)));
            let kb = encode_utf8(key@);
            assert forall|a: int, b: int| 0 <= a < b < es.len() implies lex_lt(key_bytes(#[trigger] es[a]), key_bytes(#[trigger] es[b])) by {
                if b < i {
                } else if b == i {
                } else if a < i {
                    lemma_lex_trans(key_bytes(es[a]), kb, key_bytes(old_es[i as int]));
                    if b - 1 > i {
                        lemma_lex_trans(key_bytes(es[a]), key_bytes(old_es[i as int]), key_bytes(es[b]));
                    }
                } else if a == i {
                    if b - 1 > i {
                        lemma_lex_trans(kb, key_bytes(old_es[i as int]), key_bytes(es[b]));
                    }
                } else {
                    assert(es[a] == old_es[a - 1]);
                    assert(es[b] == old_es[b - 1]);
                }
            }
            assert forall|j: int| 0 <= j < old_es.len() implies old_es[j].0@ != key@ by {
                if j < i {
                    lemma_lex_irrefl(kb);
                } else {
                    lemma_lex_irrefl(kb);
                    if j > i {
                        lemma_lex_trans(kb, key_bytes(old_es[i as int]), key_bytes(old_es[j]));
                    }
                }
            }
            lemma_lookup_sorted(es, key@);
            assert(es[i as int].0@ == key@);
            assert forall|k: Seq<char>| k != key@ implies lookup(es, k) == lookup(old_es, k) by {
                lemma_lookup_sorted(es, k);
                lemma_lookup_sorted(old_es, k);
                if exists|j: int| 0 <= j < old_es.len() && old_es[j].0@ == k {
                    let j = choose|j: int| 0 <= j < old_es.len() && old_es[j].0@ == k;
                    if j < i {
                        assert(es[j] == old_es[j]);
                    } else {
                        assert(es[j + 1] == old_es[j]);
                    }
                } else {
                    assert forall|j: int| 0 <= j < es.len() implies es[j].0@ != k by {
                        if j < i {
                            assert(es[j] == old_es[j]);
                        } else if j > i {
                            assert(es[j] == old_es[j - 1]);
                        }
                    }
                }
            }
        }
    }
}

impl Value {
    /// A map holding `entries`, put in canonical key order; of two entries
    /// with the same key, the later one stays.
    pub fn dict_from(entries: Vec<(String, Value)>) -> (r: Value)
        ensures
            r matches Value::Dict(es) && keys_sorted(es@) && (forall|k: Seq<char>|
                #[trigger] lookup(es@, k) == dict_from_spec(entries@, k)),
    {
        let mut out: Vec<(String, Value)> = Vec::new();
        let mut rest = entries;
        let ghost all = rest@;
        let mut taken: usize = 0;
        assert(all.skip(0) =~= all);
        assert(all.len() == rest.len());
        while rest.len() > 0
            invariant
                keys_sorted(out@),
                taken + rest.len() == all.len(),
                all.len() <= usize::MAX,
                rest@ == all.skip(taken as int),
                forall|k: Seq<char>| #[trigger] lookup(out@, k) == dict_from_spec(all.take(taken as int), k),
            decreases rest.len(),
        {
            let (k, v) = rest.remove(0);
            proof {
                assert(all[taken as int] == (k, v));
            }
            dict_insert(&mut out, k, v);
            taken = taken + 1;
            proof {
                assert(all.take(taken as int).drop_last() =~= all.take(taken - 1));
                assert(all.take(taken as int).last() == all[taken - 1]);
                assert forall|k2: Seq<char>| #[trigger] lookup(out@, k2) == dict_from_spec(all.take(taken as int), k2) by {
                    if k2 != all[taken - 1].0@ {
                        assert(lookup(out@, k2) == dict_from_spec(all.take(taken - 1), k2));
                    }
                }
                assert(rest@ =~= all.skip(taken as int));
            }
        }
        assert(all.take(all.len() as int) =~= all);
        Value::Dict(out)
    }
}

/// Index of the first model entry whose key is `key`, or -1.
pub open spec fn mkey_index(es: Seq<(Seq<char>, Model)>, key: Seq<char>) -> int
    decreases es.len(),
{
    if es.len() == 0 {
        -1
    } else if mkey_index(es.drop_last(), key) >= 0 {
        mkey_index(es.drop_last(), key)
    } else if es.last().0 == key {
        es.len() - 1
    } else {
        -1
    }
}

/// The model stored under `key` in a map's model entries, if any.
pub open spec fn mlookup(es: Seq<(Seq<char>, Model)>, key: Seq<char>) -> Option<Model> {
    let i = mkey_index(es, key);
    if i >= 0 {
        Some(es[i].1)
    } else {
        None
    }
}

/// The model of an optional value.
pub open spec fn model_of(v: Option<Value>) -> Option<Model> {
    match v {
        Some(x) => Some(model(x)),
        None => None,
    }
}

/// Looking a key up in a map and taking the model of what is found is the
/// same as looking it up in the map's model.
pub proof fn lemma_lookup_model(es: Seq<(String, Value)>, key: Seq<char>)
    ensures
        mkey_index(entry_models(es), key) == key_index(es, key),
        mlookup(entry_models(es), key) == model_of(lookup(es, key)),
    decreases es.len(),
{
    super::encode::lemma_entry_models_len(es);
    if es.len() > 0 {
        lemma_lookup_model(es.drop_last(), key);
        let ms = entry_models(es);
        assert(ms.drop_last() =~= entry_models(es.drop_last()));
        assert(ms.last() == (es.last().0@, model(es.last().1)));
        super::lemma_key_index_bounds(es, key);
        let ki = key_index(es, key);
        if ki >= 0 {
            lemma_entry_index(es, ki);
        }
    }
}

/// An entry's model is the model of the entry.
pub proof fn lemma_entry_index(es: Seq<(String, Value)>, i: int)
    requires
        0 <= i < es.len(),
    ensures
        entry_models(es).len() == es.len(),
        entry_models(es)[i] == (es[i].0@, model(es[i].1)),
    decreases es.len(),
{
    super::encode::lemma_entry_models_len(es);
    if i < es.len() - 1 {
        lemma_entry_index(es.drop_last(), i);
    }
}

/// The value a list of entries gives `k` when later entries win.
pub open spec fn dict_from_spec(es: Seq<(String, Value)>, k: Seq<char>) -> Option<Value>
    decreases es.len(),
{
    if es.len() == 0 {
        None
    } else if es.last().0@ == k {
        Some(es.last().1)
    } else {
        dict_from_spec(es.drop_last(), k)
    }
}

} // verus!
