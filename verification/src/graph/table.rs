//! Tables keyed by text, kept in ascending key order.
//!
//! The graph holds its objects and typed views in these, so that every walk
//! over them visits keys in the same order on every run.

use crate::cbor::{lemma_lex_irrefl, lemma_lex_total, lemma_lex_trans, lex_lt};
use crate::text::text_eq;
use vstd::prelude::*;
use vstd::utf8::*;

verus! {

broadcast use vstd::utf8::group_utf8_lib;

/// Whether the keys of a list of entries ascend strictly.
pub open spec fn ascending<V>(es: Seq<(String, V)>) -> bool {
    forall|i: int, j: int|
        0 <= i < j < es.len() ==> lex_lt(encode_utf8((#[trigger] es[i]).0@), encode_utf8((#[trigger] es[j]).0@))
}

/// The map a list of entries describes; a later entry wins.
pub open spec fn to_map<V>(es: Seq<(String, V)>) -> Map<Seq<char>, V>
    decreases es.len(),
{
    if es.len() == 0 {
        Map::empty()
    } else {
        to_map(es.drop_last()).insert(es.last().0@, es.last().1)
    }
}

/// The keys of a list of entries, in order.
pub open spec fn keys_of<V>(es: Seq<(String, V)>) -> Seq<Seq<char>> {
    es.map_values(|e: (String, V)| e.0@)
}

/// A table of values keyed by text.
#[derive(Debug)]
pub struct Table<V> {
    entries: Vec<(String, V)>,
}

impl<V> Table<V> {
    /// Keys ascend.
    #[verifier::type_invariant]
    spec fn sorted(self) -> bool {
        ascending(self.entries@)
    }

    /// What the table maps each key to.
    pub closed spec fn map(self) -> Map<Seq<char>, V> {
        to_map(self.entries@)
    }

    /// The entries, in ascending key order.
    pub closed spec fn items(self) -> Seq<(String, V)> {
        self.entries@
    }

    /// An empty table.
    pub fn new() -> (r: Self)
        ensures
            r.map() == Map::<Seq<char>, V>::empty(),
            r.items().len() == 0,
    {
        Table { entries: Vec::new() }
    }

    /// The entries, in ascending key order.
    pub fn entries(&self) -> (r: &Vec<(String, V)>)
        ensures
            r@ == self.items(),
            ascending(r@),
            to_map(r@) == self.map(),
    {
        proof {
            use_type_invariant(self);
        }
        &self.entries
    }

    /// The value under `key`.
    pub fn get(&self, key: &str) -> (r: Option<&V>)
        ensures
            match r {
                Some(v) => self.map().dom().contains(key@) && self.map()[key@] == *v,
                None => !self.map().dom().contains(key@),
            },
    {
        proof {
            use_type_invariant(self);
            lemma_to_map(self.entries@);
        }
        let mut i: usize = 0;
        while i < self.entries.len()
            invariant
                i <= self.entries.len(),
                forall|j: int| 0 <= j < i ==> (#[trigger] self.entries@[j]).0@ != key@,
            decreases self.entries.len() - i,
        {
            if text_eq(self.entries[i].0.as_str(), key) {
                proof {
                    use_type_invariant(self);
                    lemma_to_map(self.entries@);
                }
                return Some(&self.entries[i].1);
            }
            i = i + 1;
        }
        proof {
            use_type_invariant(self);
            lemma_to_map(self.entries@);
        }
        None
    }

    /// The entry under `key`.
    pub fn find(&self, key: &str) -> (r: Option<&(String, V)>)
        ensures
            match r {
                Some(e) => e.0@ == key@ && self.map().dom().contains(key@) && self.map()[key@] == e.1,
                None => !self.map().dom().contains(key@),
            },
    {
        proof {
            use_type_invariant(self);
            lemma_to_map(self.entries@);
        }
        let mut i: usize = 0;
        while i < self.entries.len()
            invariant
                i <= self.entries.len(),
                forall|j: int| 0 <= j < i ==> (#[trigger] self.entries@[j]).0@ != key@,
            decreases self.entries.len() - i,
        {
            if text_eq(self.entries[i].0.as_str(), key) {
                proof {
                    use_type_invariant(self);
                    lemma_to_map(self.entries@);
                }
                return Some(&self.entries[i]);
            }
            i = i + 1;
        }
        proof {
            use_type_invariant(self);
            lemma_to_map(self.entries@);
        }
        None
    }

    /// How many keys the table holds.
    pub fn len(&self) -> (r: usize)
        ensures
            self.map().dom().finite(),
            r == self.map().dom().len(),
    {
        proof {
            use_type_invariant(self);
            lemma_to_map_len(self.entries@);
        }
        self.entries.len()
    }

    /// The keys, in ascending order.
    pub fn keys(&self) -> (r: Vec<String>)
        ensures
            forall|i: int, j: int|
                0 <= i < j < r.len() ==> lex_lt(encode_utf8((#[trigger] r@[i])@), encode_utf8((#[trigger] r@[j])@)),
            forall|x: Seq<char>|
                #![trigger self.map().dom().contains(x)]
                (exists|i: int| 0 <= i < r.len() && (#[trigger] r@[i])@ == x) <==> self.map().dom().contains(x),
    {
        proof {
            use_type_invariant(self);
            lemma_to_map(self.entries@);
        }
        let mut out: Vec<String> = Vec::new();
        let mut j: usize = 0;
        while j < self.entries.len()
            invariant
                j <= self.entries.len(),
                out.len() == j,
                forall|s: int| 0 <= s < j ==> (#[trigger] out@[s])@ == self.entries@[s].0@,
            decreases self.entries.len() - j,
        {
            out.push(crate::text::copy_text(self.entries[j].0.as_str()));
            j = j + 1;
        }
        proof {
            use_type_invariant(self);
            assert forall|a: int, b: int| 0 <= a < b < out.len() implies lex_lt(
                encode_utf8((#[trigger] out@[a])@),
                encode_utf8((#[trigger] out@[b])@),
            ) by {
                assert(out@[a]@ == self.entries@[a].0@);
                assert(out@[b]@ == self.entries@[b].0@);
            }
            assert forall|x: Seq<char>|
                (exists|i: int| 0 <= i < out.len() && (#[trigger] out@[i])@ == x) <==> self.map().dom().contains(x) by {
                if exists|i: int| 0 <= i < out.len() && (#[trigger] out@[i])@ == x {
                    let i = choose|i: int| 0 <= i < out.len() && (#[trigger] out@[i])@ == x;
                    assert(self.entries@[i].0@ == x);
                }
                if self.map().dom().contains(x) {
                    let i = choose|i: int| 0 <= i < self.entries@.len() && self.entries@[i].0@ == x;
                    assert(out@[i]@ == x);
                }
            }
        }
        out
    }

    /// Put `value` under `key`, replacing what was there.
    pub fn put(&mut self, key: String, value: V)
        ensures
            final(self).map() == old(self).map().insert(key@, value),
    {
        proof {
            use_type_invariant(&*self);
        }
        let ghost old_es = self.entries@;
        let ghost new_entry = (key, value);
        let mut i: usize = 0;
        while i < self.entries.len() && crate::cbor::lex_less_bytes(
            self.entries[i].0.as_str().as_bytes(),
            key.as_str().as_bytes(),
        )
            invariant
                i <= self.entries.len(),
                self.entries@ == old_es,
                ascending(old_es),
                forall|j: int| 0 <= j < i ==> lex_lt(encode_utf8((#[trigger] old_es[j]).0@), encode_utf8(key@)),
            decreases self.entries.len() - i,
        {
            i = i + 1;
        }
        let mut es = Vec::new();
        std::mem::swap(&mut es, &mut self.entries);
        proof {
            lemma_to_map(old_es);
        }
        if i < es.len() && text_eq(es[i].0.as_str(), key.as_str()) {
            es.set(i, (key, value));
            proof {
                let n = es@;
                assert(n[i as int] == new_entry);
                assert forall|a: int, b: int| 0 <= a < b < n.len() implies lex_lt(
                    encode_utf8((#[trigger] n[a]).0@),
                    encode_utf8((#[trigger] n[b]).0@),
                ) by {
                    assert(n[a].0@ == old_es[a].0@);
                    assert(n[b].0@ == old_es[b].0@);
                }
                lemma_to_map(n);
                assert(to_map(n) =~= to_map(old_es).insert(key@, value)) by {
                    assert forall|k: Seq<char>| #[trigger] to_map(n).dom().contains(k) <==> to_map(
                        old_es,
                    ).insert(key@, value).dom().contains(k) by {
                        if to_map(old_es).dom().contains(k) {
                            let t = choose|t: int| 0 <= t < old_es.len() && old_es[t].0@ == k;
                            assert(n[t].0@ == k);
                        }
                        if to_map(n).dom().contains(k) {
                            let t = choose|t: int| 0 <= t < n.len() && n[t].0@ == k;
                            assert(old_es[t].0@ == k);
                        }
                    }
                    assert forall|k: Seq<char>| #[trigger] to_map(n).dom().contains(k) implies to_map(n)[k]
                        == to_map(old_es).insert(key@, value)[k] by {
                        let t = choose|t: int| 0 <= t < n.len() && n[t].0@ == k;
                        if k != key@ {
                            assert(old_es[t] == n[t]);
                        }
                    }
                }
            }
        } else {
            proof {
                if i < es.len() {
                    let a = encode_utf8(old_es[i as int].0@);
                    let b = encode_utf8(key@);
                    if a == b {
                        assert(decode_utf8(a) == old_es[i as int].0@);
                    }
                    lemma_lex_total(a, b);
                }
            }
            es.insert(i, (key, value));
            proof {
                let n = es@;
                let kb = encode_utf8(key@);
                assert(n == old_es.insert(i as int, new_entry));
                assert forall|a: int, b: int| 0 <= a < b < n.len() implies lex_lt(
                    encode_utf8((#[trigger] n[a]).0@),
                    encode_utf8((#[trigger] n[b]).0@),
                ) by {
                    if b < i {
                    } else if b == i {
                    } else if a < i {
                        lemma_lex_trans(encode_utf8(n[a].0@), kb, encode_utf8(old_es[i as int].0@));
                        if b - 1 > i {
                            lemma_lex_trans(
                                encode_utf8(n[a].0@),
                                encode_utf8(old_es[i as int].0@),
                                encode_utf8(n[b].0@),
                            );
                        }
                    } else if a == i {
                        if b - 1 > i {
                            lemma_lex_trans(kb, encode_utf8(old_es[i as int].0@), encode_utf8(n[b].0@));
                        }
                    } else {
                        assert(n[a] == old_es[a - 1]);
                        assert(n[b] == old_es[b - 1]);
                    }
                }
                assert forall|j: int| 0 <= j < old_es.len() implies old_es[j].0@ != key@ by {
                    lemma_lex_irrefl(kb);
                    if j > i {
                        lemma_lex_trans(kb, encode_utf8(old_es[i as int].0@), encode_utf8(old_es[j].0@));
                    }
                }
                lemma_to_map(n);
                assert(to_map(n) =~= to_map(old_es).insert(key@, value)) by {
                    assert forall|k: Seq<char>| #[trigger] to_map(n).dom().contains(k) <==> to_map(
                        old_es,
                    ).insert(key@, value).dom().contains(k) by {
                        if to_map(old_es).dom().contains(k) {
                            let t = choose|t: int| 0 <= t < old_es.len() && old_es[t].0@ == k;
                            if t < i {
                                assert(n[t] == old_es[t]);
                            } else {
                                assert(n[t + 1] == old_es[t]);
                            }
                        }
                        if k == key@ {
                            assert(n[i as int].0@ == k);
                        }
                        if to_map(n).dom().contains(k) {
                            let t = choose|t: int| 0 <= t < n.len() && n[t].0@ == k;
                            if t < i {
                                assert(old_es[t] == n[t]);
                            } else if t > i {
                                assert(old_es[t - 1] == n[t]);
                            }
                        }
                    }
                    assert forall|k: Seq<char>| #[trigger] to_map(n).dom().contains(k) implies to_map(n)[k]
                        == to_map(old_es).insert(key@, value)[k] by {
                        let t = choose|t: int| 0 <= t < n.len() && n[t].0@ == k;
                        if t < i {
                            assert(old_es[t] == n[t]);
                        } else if t > i {
                            assert(old_es[t - 1] == n[t]);
                        }
                    }
                }
            }
        }
        self.entries = es;
    }
}

/// A list whose keys ascend describes a map with one key per entry.
pub proof fn lemma_to_map_len<V>(es: Seq<(String, V)>)
    requires
        ascending(es),
    ensures
        to_map(es).dom().finite(),
        to_map(es).dom().len() == es.len(),
    decreases es.len(),
{
    if es.len() > 0 {
        let p = es.drop_last();
        assert forall|a: int, b: int| 0 <= a < b < p.len() implies lex_lt(
            encode_utf8((#[trigger] p[a]).0@),
            encode_utf8((#[trigger] p[b]).0@),
        ) by {
            assert(p[a] == es[a]);
            assert(p[b] == es[b]);
        }
        lemma_to_map_len(p);
        lemma_to_map(p);
        if to_map(p).dom().contains(es.last().0@) {
            let t = choose|t: int| 0 <= t < p.len() && p[t].0@ == es.last().0@;
            assert(lex_lt(encode_utf8(es[t].0@), encode_utf8(es[es.len() - 1].0@)));
            assert(es[t] == p[t]);
            lemma_lex_irrefl(encode_utf8(es[t].0@));
        }
    }
}

/// In a list whose keys ascend, each entry is what the map holds for its
/// key, and the map holds nothing else.
pub proof fn lemma_to_map<V>(es: Seq<(String, V)>)
    requires
        ascending(es),
    ensures
        forall|i: int| #![auto] 0 <= i < es.len() ==> to_map(es).dom().contains(es[i].0@)
            && to_map(es)[es[i].0@] == es[i].1,
        forall|k: Seq<char>| #[trigger] to_map(es).dom().contains(k) ==> exists|i: int|
            0 <= i < es.len() && es[i].0@ == k,
    decreases es.len(),
{
    if es.len() > 0 {
        let p = es.drop_last();
        assert forall|a: int, b: int| 0 <= a < b < p.len() implies lex_lt(
            encode_utf8((#[trigger] p[a]).0@),
            encode_utf8((#[trigger] p[b]).0@),
        ) by {
            assert(p[a] == es[a]);
            assert(p[b] == es[b]);
        }
        lemma_to_map(p);
        assert forall|i: int| #![auto] 0 <= i < es.len() implies to_map(es).dom().contains(es[i].0@)
            && to_map(es)[es[i].0@] == es[i].1 by {
            if i < es.len() - 1 {
                assert(p[i] == es[i]);
                if es[i].0@ == es.last().0@ {
                    assert(lex_lt(encode_utf8(es[i].0@), encode_utf8(es[es.len() - 1].0@)));
                    lemma_lex_irrefl(encode_utf8(es[i].0@));
                }
            }
        }
        assert forall|k: Seq<char>| #[trigger] to_map(es).dom().contains(k) implies exists|i: int|
            0 <= i < es.len() && es[i].0@ == k by {
            if k != es.last().0@ {
                assert(to_map(p).dom().contains(k));
                let t = choose|t: int| 0 <= t < p.len() && p[t].0@ == k;
                assert(es[t] == p[t]);
            } else {
                assert(es[es.len() - 1].0@ == k);
            }
        }
    }
}

} // verus!
