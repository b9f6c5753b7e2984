//! Putting a map's entries in canonical order, as [`sorted_entries`]
//! states it, before they are written.

use super::dict::{key_less, lemma_entry_index, lemma_lex_irrefl, lemma_lex_total, lemma_lex_trans};
use super::{canonical, canonical_entries, canonical_seq, entry_models, keys_ascending, lex_lt, normal, normal_entries, normal_seq, place, sorted_entries, Model, Value};
use crate::text::text_eq;
use vstd::prelude::*;
use vstd::utf8::*;

verus! {

broadcast use vstd::utf8::group_utf8_lib;

/// The entries of `em` that `order` picks, in that order.
pub open spec fn picked(em: Seq<(Seq<char>, Model)>, order: Seq<usize>) -> Seq<(Seq<char>, Model)> {
    order.map_values(|i: usize| em[i as int])
}

/// Placing an entry passes over every entry whose key precedes its own.
proof fn lemma_place_skip(s: Seq<(Seq<char>, Model)>, e: (Seq<char>, Model), p: int)
    requires
        0 <= p <= s.len(),
        forall|j: int| 0 <= j < p ==> lex_lt(encode_utf8(#[trigger] s[j].0), encode_utf8(e.0)),
    ensures
        place(s, e) == s.take(p) + place(s.skip(p), e),
    decreases p,
{
    if p == 0 {
        assert(s.take(0) + s.skip(0) =~= s);
        assert(s.skip(0) =~= s);
        assert(s.take(0) + place(s, e) =~= place(s, e));
    } else {
        let a = encode_utf8(s[0].0);
        let b = encode_utf8(e.0);
        assert(lex_lt(a, b));
        if lex_lt(b, a) {
            lemma_lex_trans(a, b, a);
            lemma_lex_irrefl(a);
        }
        if e.0 == s[0].0 {
            lemma_lex_irrefl(a);
        }
        let t = s.drop_first();
        assert forall|j: int| 0 <= j < p - 1 implies lex_lt(encode_utf8(#[trigger] t[j].0), encode_utf8(e.0)) by {
            assert(t[j] == s[j + 1]);
        }
        lemma_place_skip(t, e, p - 1);
        assert(seq![s[0]] + (t.take(p - 1) + place(t.skip(p - 1), e)) =~= s.take(p) + place(s.skip(p), e)) by {
            assert(t.skip(p - 1) =~= s.skip(p));
            assert(seq![s[0]] + t.take(p - 1) =~= s.take(p));
        }
    }
}

/// The order in which a map's entries are written: each key once, the
/// last entry of a key kept, keys ascending.
pub(crate) fn key_order(entries: &Vec<(String, Value)>) -> (r: Vec<usize>)
    ensures
        forall|j: int| 0 <= j < r.len() ==> r@[j] < entries.len(),
        picked(entry_models(entries@), r@) == sorted_entries(entry_models(entries@)),
{
    let ghost em = entry_models(entries@);
    proof {
        super::encode::lemma_entry_models_len(entries@);
    }
    let mut order: Vec<usize> = Vec::new();
    let mut i: usize = 0;
    assert(em.take(0) =~= Seq::<(Seq<char>, Model)>::empty());
    assert(picked(em, order@) =~= Seq::<(Seq<char>, Model)>::empty());
    while i < entries.len()
        invariant
            i <= entries.len(),
            em == entry_models(entries@),
            em.len() == entries.len(),
            forall|j: int| 0 <= j < order.len() ==> order@[j] < i,
            picked(em, order@) == sorted_entries(em.take(i as int)),
        decreases entries.len() - i,
    {
        let ghost s = picked(em, order@);
        proof {
            lemma_entry_index(entries@, i as int);
        }
        let ghost e = em[i as int];
        let key = entries[i].0.as_str();
        let mut p: usize = 0;
        while p < order.len() && key_less(entries[order[p]].0.as_str(), key)
            invariant
                p <= order.len(),
                s == picked(em, order@),
                em == entry_models(entries@),
                em.len() == entries.len(),
                i < entries.len(),
                e == em[i as int],
                key@ == e.0,
                forall|j: int| 0 <= j < order.len() ==> order@[j] < i,
                forall|j: int| 0 <= j < p ==> lex_lt(encode_utf8(#[trigger] s[j].0), encode_utf8(e.0)),
            decreases order.len() - p,
        {
            proof {
                lemma_entry_index(entries@, order@[p as int] as int);
            }
            p = p + 1;
        }
        proof {
            lemma_place_skip(s, e, p as int);
            assert(em.take(i + 1).drop_last() =~= em.take(i as int));
            assert(em.take(i + 1).last() == e);
            assert(sorted_entries(em.take(i + 1)) == place(s, e));
        }
        let ghost before = order@;
        if p < order.len() && text_eq(entries[order[p]].0.as_str(), key) {
            proof {
                lemma_entry_index(entries@, order@[p as int] as int);
                assert(s[p as int].0 == e.0);
                assert(s.skip(p as int)[0] == s[p as int]);
                assert(s.skip(p as int).drop_first() =~= s.skip(p + 1));
            }
            order.set(p, i);
            proof {
                assert(picked(em, order@) =~= s.take(p as int) + (seq![e] + s.skip(p + 1)));
            }
        } else {
            proof {
                if p < order.len() {
                    lemma_entry_index(entries@, order@[p as int] as int);
                    let a = encode_utf8(s[p as int].0);
                    let b = encode_utf8(e.0);
                    if a == b {
                        assert(s[p as int].0 == e.0) by {
                            assert(decode_utf8(a) == s[p as int].0);
                            assert(decode_utf8(b) == e.0);
                        }
                    }
                    lemma_lex_total(a, b);
                    assert(s.skip(p as int)[0] == s[p as int]);
                }
                assert(s.skip(p as int).len() == 0 ==> place(s.skip(p as int), e) == seq![e]);
            }
            order.insert(p, i);
            proof {
                assert(picked(em, order@) =~= s.take(p as int) + (seq![e] + s.skip(p as int)));
            }
        }
        i = i + 1;
    }
    assert(em.take(entries.len() as int) =~= em);
    order
}

proof fn lemma_normal_entries_index(s: Seq<(Seq<char>, Model)>)
    ensures
        normal_entries(s).len() == s.len(),
        forall|i: int| 0 <= i < s.len() ==> #[trigger] normal_entries(s)[i] == (s[i].0, normal(s[i].1)),
    decreases s.len(),
{
    if s.len() > 0 {
        lemma_normal_entries_index(s.drop_last());
        assert forall|i: int| 0 <= i < s.len() implies #[trigger] normal_entries(s)[i] == (s[i].0, normal(s[i].1)) by {
            if i < s.len() - 1 {
                assert(s.drop_last()[i] == s[i]);
            }
        }
    }
}

/// Normalizing the values first or placing the entry first comes to the
/// same: placing reads keys alone.
proof fn lemma_place_normal(t: Seq<(Seq<char>, Model)>, e: (Seq<char>, Model))
    ensures
        place(normal_entries(t), (e.0, normal(e.1))) == normal_entries(place(t, e)),
    decreases t.len(),
{
    let ne = (e.0, normal(e.1));
    let nt = normal_entries(t);
    lemma_normal_entries_index(t);
    let r = place(t, e);
    lemma_normal_entries_index(r);
    if t.len() == 0 {
        assert(normal_entries(r) =~= seq![ne]);
    } else {
        assert(nt[0] == (t[0].0, normal(t[0].1)));
        lemma_normal_entries_index(t.drop_first());
        assert(nt.drop_first() =~= normal_entries(t.drop_first()));
        if lex_lt(encode_utf8(e.0), encode_utf8(t[0].0)) {
            assert(normal_entries(r) =~= seq![ne] + nt);
        } else if e.0 == t[0].0 {
            assert(normal_entries(r) =~= seq![ne] + nt.drop_first());
        } else {
            lemma_place_normal(t.drop_first(), e);
            let q = place(t.drop_first(), e);
            lemma_normal_entries_index(q);
            assert(normal_entries(r) =~= seq![nt[0]] + normal_entries(q));
        }
    }
}

/// Sorting a map's entries and normalizing their values commute.
pub(crate) proof fn lemma_sorted_normal(s: Seq<(Seq<char>, Model)>)
    ensures
        sorted_entries(normal_entries(s)) == normal_entries(sorted_entries(s)),
    decreases s.len(),
{
    if s.len() > 0 {
        lemma_sorted_normal(s.drop_last());
        let n = normal_entries(s);
        assert(n.drop_last() == normal_entries(s.drop_last()));
        assert(n.last() == (s.last().0, normal(s.last().1)));
        lemma_place_normal(sorted_entries(s.drop_last()), s.last());
    }
}

/// Keys that ascend pair by pair ascend throughout.
proof fn lemma_ascending_all(es: Seq<(Seq<char>, Model)>, i: int, j: int)
    requires
        keys_ascending(es),
        0 <= i < j < es.len(),
    ensures
        lex_lt(encode_utf8(es[i].0), encode_utf8(es[j].0)),
    decreases j - i,
{
    assert(lex_lt(encode_utf8(es[j - 1].0), encode_utf8(es[j].0)));
    if i + 1 < j {
        lemma_ascending_all(es, i, j - 1);
        lemma_lex_trans(encode_utf8(es[i].0), encode_utf8(es[j - 1].0), encode_utf8(es[j].0));
    }
}

/// Entries already in ascending key order are left as they are.
proof fn lemma_sorted_ascending(es: Seq<(Seq<char>, Model)>)
    requires
        keys_ascending(es),
    ensures
        sorted_entries(es) == es,
    decreases es.len(),
{
    if es.len() > 0 {
        let s = es.drop_last();
        assert(keys_ascending(s)) by {
            assert forall|i: int| 0 < i < s.len() implies lex_lt(encode_utf8(#[trigger] s[i - 1].0), encode_utf8(s[i].0)) by {
                assert(s[i - 1] == es[i - 1] && s[i] == es[i]);
            }
        }
        lemma_sorted_ascending(s);
        assert forall|j: int| 0 <= j < s.len() implies lex_lt(encode_utf8(#[trigger] s[j].0), encode_utf8(es.last().0)) by {
            lemma_ascending_all(es, j, es.len() - 1);
        }
        lemma_place_skip(s, es.last(), s.len() as int);
        assert(s.skip(s.len() as int) =~= Seq::<(Seq<char>, Model)>::empty());
        assert(s.take(s.len() as int) + seq![es.last()] =~= es);
    }
}

/// A canonical model is its own normal form: its maps are already in
/// ascending key order, each key once.
pub proof fn lemma_normal_canonical(m: Model)
    requires
        canonical(m),
    ensures
        normal(m) == m,
    decreases m,
{
    match m {
        Model::Array(items) => lemma_normal_seq_canonical(items),
        Model::Dict(es) => {
            lemma_normal_entries_canonical(es);
            lemma_sorted_ascending(es);
        },
        _ => {},
    }
}

proof fn lemma_normal_seq_canonical(s: Seq<Model>)
    requires
        canonical_seq(s),
    ensures
        normal_seq(s) == s,
    decreases s,
{
    if s.len() > 0 {
        lemma_normal_seq_canonical(s.drop_last());
        lemma_normal_canonical(s.last());
        assert(s.drop_last().push(s.last()) =~= s);
    }
}

proof fn lemma_normal_entries_canonical(s: Seq<(Seq<char>, Model)>)
    requires
        canonical_entries(s),
    ensures
        normal_entries(s) == s,
    decreases s,
{
    if s.len() > 0 {
        lemma_normal_entries_canonical(s.drop_last());
        lemma_normal_canonical(s.last().1);
        assert(s.drop_last().push((s.last().0, s.last().1)) =~= s);
    }
}

} // verus!
