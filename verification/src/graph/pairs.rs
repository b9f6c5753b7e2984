//! Sets of text pairs, kept in ascending order of the first text, then
//! the second.

use crate::cbor::{lemma_lex_total, lemma_lex_trans, lex_lt};
use crate::text::text_eq;
use vstd::prelude::*;
use vstd::utf8::*;

verus! {

broadcast use vstd::utf8::group_utf8_lib;

/// Text order: `a` sorts before `b` by its UTF-8 bytes.
pub open spec fn text_lt(a: Seq<char>, b: Seq<char>) -> bool {
    lex_lt(encode_utf8(a), encode_utf8(b))
}

/// Pair order: by the first text, then by the second.
pub open spec fn pair_lt(p: (Seq<char>, Seq<char>), q: (Seq<char>, Seq<char>)) -> bool {
    text_lt(p.0, q.0) || (p.0 == q.0 && text_lt(p.1, q.1))
}

/// The views of a list of pairs.
pub open spec fn pair_views(s: Seq<(String, String)>) -> Seq<(Seq<char>, Seq<char>)> {
    s.map_values(|p: (String, String)| (p.0@, p.1@))
}

/// Whether a list of pairs ascends strictly.
pub open spec fn ascending_pairs(s: Seq<(Seq<char>, Seq<char>)>) -> bool {
    forall|i: int, j: int| 0 <= i < j < s.len() ==> pair_lt(#[trigger] s[i], #[trigger] s[j])
}

proof fn lemma_text_total(a: Seq<char>, b: Seq<char>)
    requires
        a != b,
    ensures
        text_lt(a, b) || text_lt(b, a),
{
    if encode_utf8(a) == encode_utf8(b) {
        assert(decode_utf8(encode_utf8(a)) == a);
        assert(decode_utf8(encode_utf8(b)) == b);
    }
    lemma_lex_total(encode_utf8(a), encode_utf8(b));
}

proof fn lemma_pair_trans(p: (Seq<char>, Seq<char>), q: (Seq<char>, Seq<char>), r: (Seq<char>, Seq<char>))
    requires
        pair_lt(p, q),
        pair_lt(q, r),
    ensures
        pair_lt(p, r),
{
    if text_lt(p.0, q.0) && text_lt(q.0, r.0) {
        lemma_lex_trans(encode_utf8(p.0), encode_utf8(q.0), encode_utf8(r.0));
    } else if p.0 == q.0 && q.0 == r.0 {
        lemma_lex_trans(encode_utf8(p.1), encode_utf8(q.1), encode_utf8(r.1));
    }
}

proof fn lemma_pair_total(p: (Seq<char>, Seq<char>), q: (Seq<char>, Seq<char>))
    requires
        p != q,
    ensures
        pair_lt(p, q) || pair_lt(q, p),
{
    if p.0 != q.0 {
        lemma_text_total(p.0, q.0);
    } else {
        lemma_text_total(p.1, q.1);
    }
}

fn pair_less(p: &(String, String), q: &(String, String)) -> (r: bool)
    ensures
        r == pair_lt((p.0@, p.1@), (q.0@, q.1@)),
{
    crate::cbor::lex_less_bytes(p.0.as_str().as_bytes(), q.0.as_str().as_bytes()) || (text_eq(
        p.0.as_str(),
        q.0.as_str(),
    ) && crate::cbor::lex_less_bytes(p.1.as_str().as_bytes(), q.1.as_str().as_bytes()))
}

/// A set of text pairs, listed in ascending pair order.
pub struct PairSet {
    items: Vec<(String, String)>,
}

impl PairSet {
    #[verifier::type_invariant]
    spec fn sorted(self) -> bool {
        ascending_pairs(pair_views(self.items@))
    }

    /// The pairs held.
    pub closed spec fn set(self) -> Set<(Seq<char>, Seq<char>)> {
        pair_views(self.items@).to_set()
    }

    /// An empty set.
    pub fn new() -> (r: Self)
        ensures
            r.set() == Set::<(Seq<char>, Seq<char>)>::empty(),
    {
        let r = PairSet { items: Vec::new() };
        assert(pair_views(r.items@).to_set() =~= Set::<(Seq<char>, Seq<char>)>::empty());
        r
    }

    /// Add a pair.
    pub fn put(&mut self, a: String, b: String)
        ensures
            final(self).set() == old(self).set().insert((a@, b@)),
    {
        proof {
            use_type_invariant(&*self);
        }
        let p = (a, b);
        let ghost pv = (p.0@, p.1@);
        let ghost old_v = pair_views(self.items@);
        let mut i: usize = 0;
        while i < self.items.len() && pair_less(&self.items[i], &p)
            invariant
                i <= self.items.len(),
                old_v == pair_views(self.items@),
                ascending_pairs(old_v),
                pv == (p.0@, p.1@),
                forall|j: int| 0 <= j < i ==> pair_lt(#[trigger] old_v[j], pv),
            decreases self.items.len() - i,
        {
            assert(old_v[i as int] == (self.items@[i as int].0@, self.items@[i as int].1@));
            i = i + 1;
        }
        if i < self.items.len() && text_eq(self.items[i].0.as_str(), p.0.as_str()) && text_eq(
            self.items[i].1.as_str(),
            p.1.as_str(),
        ) {
            proof {
                assert(old_v[i as int] == pv);
                assert(old_v.to_set().insert(pv) =~= old_v.to_set());
            }
            return ;
        }
        proof {
            if i < self.items.len() {
                assert(old_v[i as int] == (self.items@[i as int].0@, self.items@[i as int].1@));
                assert(!pair_lt(old_v[i as int], pv));
                assert(old_v[i as int] != pv);
                lemma_pair_total(old_v[i as int], pv);
            }
        }
        let mut items = Vec::new();
        std::mem::swap(&mut items, &mut self.items);
        items.insert(i, p);
        proof {
            let n = pair_views(items@);
            assert(n =~= old_v.insert(i as int, pv));
            assert forall|x: int, y: int| 0 <= x < y < n.len() implies pair_lt(#[trigger] n[x], #[trigger] n[y]) by {
                if y < i {
                    assert(n[x] == old_v[x] && n[y] == old_v[y]);
                } else if y == i {
                    assert(n[x] == old_v[x]);
                } else if x == i {
                    assert(n[y] == old_v[y - 1]);
                    if y - 1 > i {
                        assert(pair_lt(old_v[i as int], old_v[y - 1]));
                        lemma_pair_trans(pv, old_v[i as int], old_v[y - 1]);
                    }
                } else if x < i {
                    assert(n[x] == old_v[x] && n[y] == old_v[y - 1]);
                } else {
                    assert(n[x] == old_v[x - 1] && n[y] == old_v[y - 1]);
                }
            }
            assert forall|q: (Seq<char>, Seq<char>)| #[trigger] n.to_set().contains(q) <==> old_v.to_set().insert(
                pv,
            ).contains(q) by {
                if n.contains(q) {
                    let k = choose|k: int| 0 <= k < n.len() && n[k] == q;
                    if k < i {
                        assert(old_v[k] == q);
                    } else if k > i {
                        assert(old_v[k - 1] == q);
                    }
                }
                if old_v.contains(q) {
                    let k = choose|k: int| 0 <= k < old_v.len() && old_v[k] == q;
                    if k < i {
                        assert(n[k] == q);
                    } else {
                        assert(n[k + 1] == q);
                    }
                }
                if q == pv {
                    assert(n[i as int] == pv);
                }
            }
            assert(n.to_set() =~= old_v.to_set().insert(pv));
        }
        self.items = items;
    }

    /// The pairs, in ascending order.
    pub fn pairs(&self) -> (r: &Vec<(String, String)>)
        ensures
            ascending_pairs(pair_views(r@)),
            pair_views(r@).to_set() == self.set(),
    {
        proof {
            use_type_invariant(self);
        }
        &self.items
    }
}

} // verus!
