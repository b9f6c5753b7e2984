//! Definitional divergence and staleness.
//!
//! A large share of apparent factual disagreement is definitional
//! disagreement conducted in the vocabulary of fact. Because `depends` is
//! explicit, it is computable rather than a matter of noticing. The two
//! outcomes have different remedies, so they are reported separately:
//!
//! - divergence: the definitions have no common genesis; the parties mean
//!   different things;
//! - staleness: the definitions are generations of one lineage; the
//!   parties mean the same thing, one of them as it was understood earlier.

use crate::fields::{cid_from_text, cid_in, cid_string, cid_to_string, cids_view};
use crate::graph::closure::{closure, keys_view, reach};
use crate::graph::error::{GraphError, GraphFault};
use crate::graph::graph::{answered, ascending_keys, authoritative, depends_cycle, depends_links, equivalence_links, lineage_links, Graph, Lineage};
use crate::graph::lineage::{genesis_spec, least_up, up, walk, lineage_genesis};
use crate::graph::closure::Link;
use crate::graph::pairs::text_lt;
use crate::graph::table::{ascending, lemma_to_map, to_map, Table};
use crate::graph::view::{term_of, Class, RelationKind};
use crate::text::copy_text;
use crate::{Cid, HashAlg};
use vstd::prelude::*;

verus! {

/// One term two publets presuppose differently.
#[derive(Debug, Clone, PartialEq, Eq)]
pub struct TermConflict {
    /// The term both definitions define.
    pub term: String,
    /// The definitional publet the first party depends on.
    pub left: Cid,
    /// The definitional publet the second party depends on.
    pub right: Cid,
}

/// The result of comparing two publets' definitional premises.
#[derive(Debug, Clone, Default, PartialEq, Eq)]
pub struct Divergence {
    /// Terms whose definitions have no common genesis.
    pub divergent: Vec<TermConflict>,
    /// Terms whose definitions are generations of one lineage.
    pub stale: Vec<TermConflict>,
}

impl Divergence {
    /// Whether anything was found.
    pub fn is_empty(&self) -> (r: bool)
        ensures
            r == (self.divergent@.len() == 0 && self.stale@.len() == 0),
    {
        self.divergent.len() == 0 && self.stale.len() == 0
    }
}

/// The keys a list of identifiers names, parsed, in order; texts that do
/// not parse are left out.
pub open spec fn parse_keys(s: Seq<Seq<char>>) -> Seq<(HashAlg, Seq<u8>)>
    decreases s.len(),
{
    if s.len() == 0 {
        Seq::empty()
    } else {
        match cid_from_text(s.last()) {
            Some(c) => parse_keys(s.drop_last()).push(c),
            None => parse_keys(s.drop_last()),
        }
    }
}

/// Whether a list of texts ascends strictly.
pub open spec fn ascending_texts(s: Seq<Seq<char>>) -> bool {
    forall|i: int, j: int| 0 <= i < j < s.len() ==> text_lt(#[trigger] s[i], #[trigger] s[j])
}

/// The keys equivalent to `start` through the `equivalent` relations
/// whose flag is set.
pub open spec fn equivalents(g: Graph, start: Seq<char>, flags: Seq<bool>) -> Set<Seq<char>> {
    Set::new(|x: Seq<char>| reach(equivalence_links(g.relation_entries(), flags), start, x))
}

/// The identifiers equivalent to `cid` under `flags`, in ascending order of
/// their texts.
fn equivalent_under(graph: &Graph, cid: &Cid, flags: &Vec<bool>) -> (r: Vec<Cid>)
    requires
        flags.len() == graph.relation_entries().len(),
    ensures
        exists|s: Seq<Seq<char>>|
            ascending_texts(s) && s.to_set() == equivalents(*graph, cid_string(cid@), flags@) && cids_view(r@)
                == parse_keys(s),
{
    let links = graph.equivalence_pairs(flags);
    let start = cid_to_string(cid);
    let reached = closure(&links, start.as_str());
    let mut set: Table<bool> = Table::new();
    let mut i: usize = 0;
    while i < reached.len()
        invariant
            i <= reached.len(),
            forall|x: Seq<char>| set.map().dom().contains(x) <==> exists|j: int| 0 <= j < i && (#[trigger] reached@[j])@ == x,
        decreases reached.len() - i,
    {
        set.put(copy_text(reached[i].as_str()), true);
        proof {
            assert forall|x: Seq<char>| set.map().dom().contains(x) <==> exists|j: int| 0 <= j < i + 1 && (#[trigger] reached@[j])@ == x by {
                if x == reached@[i as int]@ {
                }
            }
        }
        i = i + 1;
    }
    let es = set.entries();
    let ghost s = crate::graph::table::keys_of(es@);
    proof {
        lemma_to_map(es@);
        assert forall|x: Seq<char>| #[trigger] s.to_set().contains(x) <==> equivalents(*graph, start@, flags@).contains(x) by {
            if s.contains(x) {
                let k = choose|k: int| 0 <= k < s.len() && s[k] == x;
                assert(es@[k].0@ == x);
                assert(set.map().dom().contains(x));
                let j = choose|j: int| 0 <= j < reached.len() && (#[trigger] reached@[j])@ == x;
                assert(keys_view(reached@)[j] == x);
                assert(keys_view(reached@).contains(x));
            }
            if equivalents(*graph, start@, flags@).contains(x) {
                assert(keys_view(reached@).contains(x));
                let j = choose|j: int| 0 <= j < keys_view(reached@).len() && keys_view(reached@)[j] == x;
                assert(reached@[j]@ == x);
                assert(set.map().dom().contains(x));
                let k = choose|k: int| 0 <= k < es@.len() && es@[k].0@ == x;
                assert(s[k] == x);
            }
        }
        assert(s.to_set() =~= equivalents(*graph, start@, flags@));
        assert forall|a: int, b: int| 0 <= a < b < s.len() implies text_lt(#[trigger] s[a], #[trigger] s[b]) by {
            assert(s[a] == es@[a].0@);
            assert(s[b] == es@[b].0@);
        }
    }
    let mut out: Vec<Cid> = Vec::new();
    let mut k: usize = 0;
    assert(s.take(0) =~= Seq::<Seq<char>>::empty());
    assert(cids_view(out@) =~= Seq::<(HashAlg, Seq<u8>)>::empty());
    while k < es.len()
        invariant
            k <= es.len(),
            s == crate::graph::table::keys_of(es@),
            cids_view(out@) == parse_keys(s.take(k as int)),
        decreases es.len() - k,
    {
        assert(s.take(k + 1).drop_last() =~= s.take(k as int));
        assert(s.take(k + 1).last() == es@[k as int].0@);
        match cid_in(Some(es[k].0.as_str())) {
            Some(c) => {
                let ghost before = cids_view(out@);
                out.push(c);
                assert(cids_view(out@) =~= before.push(c@));
            },
            None => {},
        }
        k = k + 1;
    }
    assert(s.take(es.len() as int) =~= s);
    out
}

impl Graph {
    /// Connected components over `equivalent` edges whose signer passes
    /// `trusted`, in ascending order of identifier text.
    /// The predicate is supplied rather than assumed, because whose
    /// equivalence assertions count is a viewpoint question this layer
    /// does not answer.
    pub fn equivalence_class<F: Fn(&Cid) -> bool>(&self, cid: &Cid, trusted: &F) -> (r: Vec<Cid>)
        requires
            forall|c: &Cid| trusted.requires((c,)),
        ensures
            exists|flags: Seq<bool>, s: Seq<Seq<char>>|
                answered(self.relation_entries(), *trusted, flags) && ascending_texts(s) && s.to_set()
                    == equivalents(*self, cid_string(cid@), flags) && cids_view(r@) == parse_keys(s),
    {
        let flags = self.trusted_flags(trusted);
        equivalent_under(self, cid, &flags)
    }
}

/// The identifiers in the `depends` closure of `start`, parsed.
pub open spec fn closure_cids(g: Graph, start: Seq<char>) -> Set<(HashAlg, Seq<u8>)> {
    Set::new(
        |c: (HashAlg, Seq<u8>)|
            exists|x: Seq<char>|
                #![trigger cid_from_text(x)]
                reach(depends_links(g), start, x) && x != start && cid_from_text(x) == Some(c),
    )
}

/// Whether the publet `c` is definitional and defines `term`.
pub open spec fn defines(g: Graph, c: (HashAlg, Seq<u8>), term: Seq<char>) -> bool {
    let k = cid_string(c);
    &&& g.publet_map().dom().contains(k)
    &&& g.publet_map()[k]@.class == Class::Definitional
    &&& g.object_map().dom().contains(k)
    &&& term_of(g.publet_map()[k]@.class, g.publet_map()[k]@.content, g.object_map()[k]@.ext) == Some(term)
}

/// Whether `c` is the definition of `term` among the premises of `start`:
/// one in its closure defining the term, and where several do, the one
/// with the greatest identifier text, so the choice does not depend on
/// the order the closure was walked.
pub open spec fn premise(g: Graph, start: Seq<char>, term: Seq<char>, c: (HashAlg, Seq<u8>)) -> bool {
    &&& closure_cids(g, start).contains(c)
    &&& defines(g, c, term)
    &&& forall|d: (HashAlg, Seq<u8>)|
        #![trigger defines(g, d, term)]
        closure_cids(g, start).contains(d) && defines(g, d, term) ==> cid_string(d) == cid_string(c) || text_lt(
            cid_string(d),
            cid_string(c),
        )
}

/// Terms defined by the definitional publets in a publet's closure, each
/// with its definition (see [`premise`]), in ascending order of term.
fn definitional_terms(graph: &Graph, cid: &Cid) -> (r: Result<Vec<(String, Cid)>, GraphError>)
    ensures
        match r {
            Err(e) => depends_cycle(*graph, cid_string(cid@)) && e@ == GraphFault::CycleClosing(
                "depends"@,
                cid_string(cid@),
                cid_string(cid@),
            ),
            Ok(ts) => !depends_cycle(*graph, cid_string(cid@)) && ascending(ts@) && (forall|i: int|
                0 <= i < ts.len() ==> premise(*graph, cid_string(cid@), (#[trigger] ts@[i]).0@, ts@[i].1@)) && (
            forall|t: Seq<char>, c: (HashAlg, Seq<u8>)|
                #![trigger premise(*graph, cid_string(cid@), t, c)]
                premise(*graph, cid_string(cid@), t, c) ==> exists|i: int| 0 <= i < ts.len() && (#[trigger] ts@[i]).0@ == t),
        },
{
    let deps = match graph.depends_closure(cid) {
        Ok(d) => d,
        Err(e) => return Err(e),
    };
    let ghost start = cid_string(cid@);
    let mut by_key: Table<Cid> = Table::new();
    let mut i: usize = 0;
    while i < deps.len()
        invariant
            i <= deps.len(),
            forall|c: (HashAlg, Seq<u8>)| cids_view(deps@).contains(c) <==> closure_cids(*graph, start).contains(c),
            forall|k: Seq<char>|
                #[trigger] by_key.map().dom().contains(k) ==> closure_cids(*graph, start).contains(by_key.map()[k]@)
                    && cid_string(by_key.map()[k]@) == k,
            forall|j: int| 0 <= j < i ==> by_key.map().dom().contains(cid_string(#[trigger] deps@[j]@)),
        decreases deps.len() - i,
    {
        let key = cid_to_string(&deps[i]);
        let ghost dv = deps@[i as int]@;
        assert(cids_view(deps@)[i as int] == dv);
        assert(cids_view(deps@).contains(dv));
        by_key.put(key, deps[i].clone());
        i = i + 1;
    }
    let es = by_key.entries();
    proof {
        lemma_to_map(es@);
    }
    let mut terms: Table<Cid> = Table::new();
    let mut k: usize = 0;
    while k < es.len()
        invariant
            k <= es.len(),
            ascending(es@),
            to_map(es@) == by_key.map(),
            forall|x: Seq<char>|
                #[trigger] by_key.map().dom().contains(x) ==> closure_cids(*graph, start).contains(by_key.map()[x]@)
                    && cid_string(by_key.map()[x]@) == x,
            forall|t: Seq<char>|
                #[trigger] terms.map().dom().contains(t) ==> exists|j: int|
                    0 <= j < k && defines(*graph, es@[j].1@, t) && terms.map()[t]@ == es@[j].1@ && forall|j2: int|
                        j < j2 < k ==> !defines(*graph, #[trigger] es@[j2].1@, t),
            forall|j: int, t: Seq<char>| 0 <= j < k && #[trigger] defines(*graph, es@[j].1@, t) ==> terms.map().dom().contains(t),
        decreases es.len() - k,
    {
        proof {
            lemma_to_map(es@);
        }
        assert(by_key.map().dom().contains(es@[k as int].0@));
        let ghost c = es@[k as int].1@;
        let found: Option<String> = match graph.publet(&es[k].1) {
            Some(p) => {
                if p.class() == Class::Definitional {
                    match graph.object(&es[k].1) {
                        Some(o) => p.term(o),
                        None => None,
                    }
                } else {
                    None
                }
            },
            None => None,
        };
        let ghost fv = found;
        proof {
            match fv {
                Some(t) => {
                    assert(defines(*graph, c, t@));
                },
                None => {
                    assert forall|t: Seq<char>| !defines(*graph, c, t) by {}
                },
            }
        }
        let ghost before = terms.map();
        match found {
            Some(t) => {
                terms.put(t, es[k].1.clone());
            },
            None => {},
        }
        proof {
            assert forall|t: Seq<char>|
                #[trigger] terms.map().dom().contains(t) implies exists|j: int|
                    0 <= j < k + 1 && defines(*graph, es@[j].1@, t) && terms.map()[t]@ == es@[j].1@ && forall|j2: int|
                        j < j2 < k + 1 ==> !defines(*graph, #[trigger] es@[j2].1@, t) by {
                if fv is Some && t == fv->0@ {
                    assert(defines(*graph, es@[k as int].1@, t));
                    assert(terms.map()[t]@ == es@[k as int].1@);
                    assert(forall|j2: int| k < j2 < k + 1 ==> !defines(*graph, #[trigger] es@[j2].1@, t));
                } else {
                    assert(before.dom().contains(t));
                    let j = choose|j: int|
                        0 <= j < k && defines(*graph, es@[j].1@, t) && before[t]@ == es@[j].1@ && forall|j2: int|
                            j < j2 < k ==> !defines(*graph, #[trigger] es@[j2].1@, t);
                    assert(!defines(*graph, es@[k as int].1@, t));
                    assert(terms.map()[t] == before[t]);
                    assert(forall|j2: int| j < j2 < k + 1 ==> !defines(*graph, #[trigger] es@[j2].1@, t));
                }
            }
            assert forall|j: int, t: Seq<char>| 0 <= j < k + 1 && #[trigger] defines(*graph, es@[j].1@, t) implies terms.map().dom().contains(t) by {
                if j < k {
                    assert(before.dom().contains(t));
                }
            }
        }
        k = k + 1;
    }
    let ts = terms.entries();
    let mut out: Vec<(String, Cid)> = Vec::new();
    let mut m: usize = 0;
    proof {
        lemma_to_map(ts@);
    }
    while m < ts.len()
        invariant
            m <= ts.len(),
            out.len() == m,
            forall|q: int| 0 <= q < m ==> (#[trigger] out@[q]).0@ == ts@[q].0@ && out@[q].1@ == ts@[q].1@,
        decreases ts.len() - m,
    {
        out.push((copy_text(ts[m].0.as_str()), ts[m].1.clone()));
        m = m + 1;
    }
    proof {
        let ghost g = *graph;
        assert forall|i: int| 0 <= i < out.len() implies premise(g, start, (#[trigger] out@[i]).0@, out@[i].1@) by {
            let t = ts@[i].0@;
            assert(to_map(ts@).dom().contains(t));
            assert(terms.map().dom().contains(t));
            let j = choose|j: int|
                0 <= j < es.len() && defines(g, es@[j].1@, t) && terms.map()[t]@ == es@[j].1@ && forall|j2: int|
                    j < j2 < es.len() ==> !defines(g, #[trigger] es@[j2].1@, t);
            let c = es@[j].1@;
            assert(to_map(es@).dom().contains(es@[j].0@));
            assert(by_key.map()[es@[j].0@] == es@[j].1);
            assert(by_key.map().dom().contains(es@[j].0@));
            assert(out@[i].1@ == c);
            assert forall|d: (HashAlg, Seq<u8>)|
                #![trigger defines(g, d, t)]
                closure_cids(g, start).contains(d) && defines(g, d, t) implies cid_string(d) == cid_string(c) || text_lt(
                    cid_string(d),
                    cid_string(c),
                ) by {
                assert(cids_view(deps@).contains(d));
                let q = choose|q: int| 0 <= q < cids_view(deps@).len() && cids_view(deps@)[q] == d;
                assert(deps@[q]@ == d);
                assert(by_key.map().dom().contains(cid_string(deps@[q]@)));
                let x = cid_string(d);
                let j2 = choose|j2: int| 0 <= j2 < es@.len() && es@[j2].0@ == x;
                assert(by_key.map()[x] == es@[j2].1);
                assert(cid_string(es@[j2].1@) == x);
                assert(defines(g, es@[j2].1@, t));
                if j2 > j {
                    assert(!defines(g, es@[j2].1@, t));
                } else if j2 < j {
                    assert(crate::cbor::lex_lt(
                        vstd::utf8::encode_utf8(es@[j2].0@),
                        vstd::utf8::encode_utf8(es@[j].0@),
                    ));
                }
            }
        }
        assert forall|t: Seq<char>, c: (HashAlg, Seq<u8>)|
            #![trigger premise(g, start, t, c)]
            premise(g, start, t, c) implies exists|i: int| 0 <= i < out.len() && (#[trigger] out@[i]).0@ == t by {
            assert(cids_view(deps@).contains(c));
            let q = choose|q: int| 0 <= q < cids_view(deps@).len() && cids_view(deps@)[q] == c;
            assert(deps@[q]@ == c);
            assert(by_key.map().dom().contains(cid_string(deps@[q]@)));
            let x = cid_string(c);
            let j = choose|j: int| 0 <= j < es@.len() && es@[j].0@ == x;
            assert(by_key.map()[x] == es@[j].1);
            assert(cid_string(es@[j].1@) == x);
            assert(defines(g, es@[j].1@, t));
            assert(terms.map().dom().contains(t));
            let m2 = choose|m2: int| 0 <= m2 < ts@.len() && ts@[m2].0@ == t;
            assert(out@[m2].0@ == t);
        }
    }
    Ok(out)
}

/// Whether `b` is among the identifiers equivalent to the key `a` under
/// `flags`.
pub open spec fn equivalent_keys(g: Graph, flags: Seq<bool>, a: Seq<char>, b: (HashAlg, Seq<u8>)) -> bool {
    exists|x: Seq<char>|
        #![trigger cid_from_text(x)]
        reach(equivalence_links(g.relation_entries(), flags), a, x) && cid_from_text(x) == Some(b)
}

/// The genesis of the authoritative lineage of `c`, as an identifier.
pub open spec fn genesis_of(g: Graph, c: (HashAlg, Seq<u8>)) -> (HashAlg, Seq<u8>) {
    match cid_from_text(lineage_genesis(g, cid_string(c), Lineage::Authoritative)) {
        Some(x) => x,
        None => c,
    }
}

/// Whether each step of `p` is a `supersedes` edge signed by a key that
/// also signed the superseded object.
pub open spec fn signed_path(g: Graph, p: Seq<Seq<char>>) -> bool {
    &&& p.len() >= 1
    &&& forall|i: int| 0 <= i < p.len() - 1 ==> #[trigger] authoritative(g, RelationKind::Supersedes, p[i], p[i + 1])
}

proof fn lemma_signed_links(g: Graph, es: Seq<crate::graph::graph::EdgeView>, a: Seq<char>, b: Seq<char>)
    requires
        lineage_links(g, es, Lineage::Authoritative).contains((a, b)),
    ensures
        authoritative(g, RelationKind::Supersedes, a, b),
    decreases es.len(),
{
    if es.len() > 0 {
        let prev = lineage_links(g, es.drop_last(), Lineage::Authoritative);
        let e = es.last();
        if e.0 == RelationKind::Supersedes && authoritative(g, RelationKind::Supersedes, e.1, e.2) {
            let l = prev.push((e.1, e.2));
            let j = choose|j: int| 0 <= j < l.len() && l[j] == (a, b);
            if j < prev.len() {
                assert(prev[j] == (a, b));
                lemma_signed_links(g, es.drop_last(), a, b);
            }
        } else {
            lemma_signed_links(g, es.drop_last(), a, b);
        }
    }
}

proof fn lemma_walk_path(ls: Seq<Link>, x: Seq<char>, k: nat) -> (p: Seq<Seq<char>>)
    ensures
        p.len() >= 1,
        p[0] == x,
        p.last() == walk(ls, x, k),
        forall|i: int| 0 <= i < p.len() - 1 ==> #[trigger] ls.contains((p[i], p[i + 1])),
    decreases k,
{
    if k == 0 {
        seq![x]
    } else {
        let q = lemma_walk_path(ls, x, (k - 1) as nat);
        let w = walk(ls, x, (k - 1) as nat);
        match up(ls, w) {
            Some(y) => {
                assert(least_up(ls, w, y));
                let p = q.push(y);
                assert forall|i: int| 0 <= i < p.len() - 1 implies #[trigger] ls.contains((p[i], p[i + 1])) by {
                    if i < q.len() - 1 {
                        assert(p[i] == q[i] && p[i + 1] == q[i + 1]);
                    } else {
                        assert(p[i] == w && p[i + 1] == y);
                    }
                }
                p
            },
            None => q,
        }
    }
}

/// The genesis a conflict's side is traced back to, which decides whether
/// it is stale or divergent, is reached from that side along `supersedes`
/// edges each signed by a key that also signed the object it supersedes: a
/// third party's proposal to replace an object is never followed.
pub proof fn law_genesis_follows_signed_supersedes(g: Graph, c: (HashAlg, Seq<u8>))
    ensures
        genesis_of(g, c) == c || exists|p: Seq<Seq<char>>|
            #[trigger] signed_path(g, p) && p[0] == cid_string(c) && cid_from_text(p.last()) == Some(genesis_of(g, c)),
{
    let ls = lineage_links(g, g.edge_list(), Lineage::Authoritative);
    let x = cid_string(c);
    let k = choose|k: nat| crate::graph::lineage::first_stop(ls, x, k);
    let p = lemma_walk_path(ls, x, k);
    assert(lineage_genesis(g, x, Lineage::Authoritative) == genesis_spec(ls, x));
    assert(p.last() == lineage_genesis(g, x, Lineage::Authoritative));
    assert forall|i: int| 0 <= i < p.len() - 1 implies #[trigger] authoritative(g, RelationKind::Supersedes, p[i], p[i + 1]) by {
        assert(ls.contains((p[i], p[i + 1])));
        lemma_signed_links(g, g.edge_list(), p[i], p[i + 1]);
    }
    assert(signed_path(g, p));
}

/// What a term conflict says.
pub open spec fn conflict_view(c: TermConflict) -> (Seq<char>, (HashAlg, Seq<u8>), (HashAlg, Seq<u8>)) {
    (c.term@, c.left@, c.right@)
}

/// Whether a conflict is one `compare` reports: each side's premise for
/// the term, different, not equivalent under `flags`, and filed as stale
/// exactly when both have one genesis.
pub open spec fn reported(
    g: Graph,
    l: Seq<char>,
    r: Seq<char>,
    flags: Seq<bool>,
    c: (Seq<char>, (HashAlg, Seq<u8>), (HashAlg, Seq<u8>)),
    stale: bool,
) -> bool {
    &&& premise(g, l, c.0, c.1)
    &&& premise(g, r, c.0, c.2)
    &&& c.1 != c.2
    &&& !equivalent_keys(g, flags, cid_string(c.1), c.2)
    &&& stale == (genesis_of(g, c.1) == genesis_of(g, c.2))
}

/// Whether a list of conflicts ascends strictly by term.
pub open spec fn by_term(s: Seq<TermConflict>) -> bool {
    forall|i: int, j: int| 0 <= i < j < s.len() ==> text_lt((#[trigger] s[i]).term@, (#[trigger] s[j]).term@)
}

/// Whether `t` is the term of some conflict in `s`.
pub open spec fn lists_term(s: Seq<TermConflict>, t: Seq<char>) -> bool {
    exists|i: int| 0 <= i < s.len() && (#[trigger] s[i]).term@ == t
}

proof fn lemma_parse_keys(s: Seq<Seq<char>>, c: (HashAlg, Seq<u8>))
    ensures
        parse_keys(s).contains(c) <==> exists|x: Seq<char>| #![trigger cid_from_text(x)] s.contains(x) && cid_from_text(x) == Some(c),
    decreases s.len(),
{
    if s.len() > 0 {
        lemma_parse_keys(s.drop_last(), c);
        let p = parse_keys(s.drop_last());
        if parse_keys(s).contains(c) {
            let k = choose|k: int| 0 <= k < parse_keys(s).len() && parse_keys(s)[k] == c;
            if cid_from_text(s.last()) is Some && k == p.len() {
                assert(s.contains(s.last()));
            } else {
                assert(p[k] == c);
                let x = choose|x: Seq<char>| #![trigger cid_from_text(x)] s.drop_last().contains(x) && cid_from_text(x) == Some(c);
                let q = choose|q: int| 0 <= q < s.drop_last().len() && s.drop_last()[q] == x;
                assert(s[q] == x);
            }
        }
        if exists|x: Seq<char>| #![trigger cid_from_text(x)] s.contains(x) && cid_from_text(x) == Some(c) {
            let x = choose|x: Seq<char>| #![trigger cid_from_text(x)] s.contains(x) && cid_from_text(x) == Some(c);
            let q = choose|q: int| 0 <= q < s.len() && s[q] == x;
            if q == s.len() - 1 {
                assert(parse_keys(s)[parse_keys(s).len() - 1] == c);
            } else {
                assert(s.drop_last()[q] == x);
                assert(p.contains(c));
                let k = choose|k: int| 0 <= k < p.len() && p[k] == c;
                assert(parse_keys(s)[k] == c);
            }
        }
    }
}

/// Compare the definitional premises of two publets: each
/// term both depend on a definition of, where the definitions differ and
/// no trusted `equivalent` relation joins them, is reported as stale when
/// the two are generations of one lineage and as divergent otherwise.
///
/// `trusted` decides whose `equivalent` relations count; whose assertions
/// count is a viewpoint question, so the predicate is the caller's. Fails
/// when either dependency closure is cyclic, the left one first.
pub fn compare<F: Fn(&Cid) -> bool>(graph: &Graph, left: &Cid, right: &Cid, trusted: &F) -> (r: Result<
    Divergence,
    GraphError,
>)
    requires
        forall|c: &Cid| trusted.requires((c,)),
    ensures
        match r {
            Err(e) => (depends_cycle(*graph, cid_string(left@)) && e@ == GraphFault::CycleClosing(
                "depends"@,
                cid_string(left@),
                cid_string(left@),
            )) || (!depends_cycle(*graph, cid_string(left@)) && depends_cycle(*graph, cid_string(right@)) && e@
                == GraphFault::CycleClosing("depends"@, cid_string(right@), cid_string(right@))),
            Ok(d) => {
                &&& !depends_cycle(*graph, cid_string(left@))
                &&& !depends_cycle(*graph, cid_string(right@))
                &&& by_term(d.divergent@)
                &&& by_term(d.stale@)
                &&& exists|flags: Seq<bool>|
                    #![trigger answered(graph.relation_entries(), *trusted, flags)]
                    {
                        &&& answered(graph.relation_entries(), *trusted, flags)
                        &&& forall|i: int|
                            0 <= i < d.divergent.len() ==> reported(
                                *graph,
                                cid_string(left@),
                                cid_string(right@),
                                flags,
                                conflict_view(#[trigger] d.divergent@[i]),
                                false,
                            )
                        &&& forall|i: int|
                            0 <= i < d.stale.len() ==> reported(
                                *graph,
                                cid_string(left@),
                                cid_string(right@),
                                flags,
                                conflict_view(#[trigger] d.stale@[i]),
                                true,
                            )
                        &&& forall|t: Seq<char>, cl: (HashAlg, Seq<u8>), cr: (HashAlg, Seq<u8>)|
                            #![trigger premise(*graph, cid_string(left@), t, cl), premise(*graph, cid_string(right@), t, cr)]
                            premise(*graph, cid_string(left@), t, cl) && premise(*graph, cid_string(right@), t, cr) ==> (
                            lists_term(d.divergent@, t) || lists_term(d.stale@, t) || exists|a: (HashAlg, Seq<u8>), b: (HashAlg, Seq<u8>)|
                                #![trigger premise(*graph, cid_string(left@), t, a), premise(*graph, cid_string(right@), t, b)]
                                premise(*graph, cid_string(left@), t, a) && premise(*graph, cid_string(right@), t, b) && (a == b
                                    || equivalent_keys(*graph, flags, cid_string(a), b)))
                    }
            },
        },
{
    let left_terms = match definitional_terms(graph, left) {
        Ok(t) => t,
        Err(e) => return Err(e),
    };
    let right_terms = match definitional_terms(graph, right) {
        Ok(t) => t,
        Err(e) => return Err(e),
    };
    let flags = graph.trusted_flags(trusted);
    let ghost l = cid_string(left@);
    let ghost rk = cid_string(right@);
    let mut right_table: Table<Cid> = Table::new();
    let mut q: usize = 0;
    while q < right_terms.len()
        invariant
            q <= right_terms.len(),
            forall|i: int| 0 <= i < right_terms.len() ==> premise(*graph, rk, (#[trigger] right_terms@[i]).0@, right_terms@[i].1@),
            forall|t: Seq<char>| #[trigger] right_table.map().dom().contains(t) ==> premise(*graph, rk, t, right_table.map()[t]@),
            forall|i: int| 0 <= i < q ==> right_table.map().dom().contains((#[trigger] right_terms@[i]).0@),
        decreases right_terms.len() - q,
    {
        right_table.put(copy_text(right_terms[q].0.as_str()), right_terms[q].1.clone());
        q = q + 1;
    }
    let mut out = Divergence { divergent: Vec::new(), stale: Vec::new() };
    let mut i: usize = 0;
    while i < left_terms.len()
        invariant
            i <= left_terms.len(),
            flags.len() == graph.relation_entries().len(),
            ascending(left_terms@),
            forall|k: int| 0 <= k < left_terms.len() ==> premise(*graph, l, (#[trigger] left_terms@[k]).0@, left_terms@[k].1@),
            forall|t: Seq<char>, c: (HashAlg, Seq<u8>)|
                #![trigger premise(*graph, l, t, c)]
                premise(*graph, l, t, c) ==> exists|k: int| 0 <= k < left_terms.len() && (#[trigger] left_terms@[k]).0@ == t,
            forall|t: Seq<char>| #[trigger] right_table.map().dom().contains(t) ==> premise(*graph, rk, t, right_table.map()[t]@),
            forall|k: int| 0 <= k < right_terms.len() ==> right_table.map().dom().contains((#[trigger] right_terms@[k]).0@),
            forall|t: Seq<char>, c: (HashAlg, Seq<u8>)|
                #![trigger premise(*graph, rk, t, c)]
                premise(*graph, rk, t, c) ==> exists|k: int| 0 <= k < right_terms.len() && (#[trigger] right_terms@[k]).0@ == t,
            forall|k: int|
                0 <= k < out.divergent.len() ==> reported(*graph, l, rk, flags@, conflict_view(#[trigger] out.divergent@[k]), false),
            forall|k: int| 0 <= k < out.stale.len() ==> reported(*graph, l, rk, flags@, conflict_view(#[trigger] out.stale@[k]), true),
            forall|k: int| 0 <= k < out.divergent.len() ==> exists|j: int| 0 <= j < i && (#[trigger] out.divergent@[k]).term@ == left_terms@[j].0@,
            forall|k: int| 0 <= k < out.stale.len() ==> exists|j: int| 0 <= j < i && (#[trigger] out.stale@[k]).term@ == left_terms@[j].0@,
            by_term(out.divergent@),
            by_term(out.stale@),
            forall|j: int, cl: (HashAlg, Seq<u8>), cr: (HashAlg, Seq<u8>)|
                #![trigger left_terms@[j], premise(*graph, rk, left_terms@[j].0@, cr), premise(*graph, l, left_terms@[j].0@, cl)]
                0 <= j < i && premise(*graph, l, left_terms@[j].0@, cl) && premise(*graph, rk, left_terms@[j].0@, cr) ==> (
                lists_term(out.divergent@, left_terms@[j].0@) || lists_term(out.stale@, left_terms@[j].0@) || exists|a: (HashAlg, Seq<u8>), b: (HashAlg, Seq<u8>)|
                    #![trigger premise(*graph, l, left_terms@[j].0@, a), premise(*graph, rk, left_terms@[j].0@, b)]
                    premise(*graph, l, left_terms@[j].0@, a) && premise(*graph, rk, left_terms@[j].0@, b) && (a == b
                        || equivalent_keys(*graph, flags@, cid_string(a), b))),
        decreases left_terms.len() - i,
    {
        let ghost t = left_terms@[i as int].0@;
        let ghost before_div = out.divergent@;
        let ghost before_stale = out.stale@;
        let ldef = &left_terms[i].1;
        assert(premise(*graph, l, t, ldef@));
        match right_table.get(left_terms[i].0.as_str()) {
            None => {
                proof {
                    assert forall|cr: (HashAlg, Seq<u8>)| !premise(*graph, rk, t, cr) by {
                        if premise(*graph, rk, t, cr) {
                            let k = choose|k: int| 0 <= k < right_terms.len() && (#[trigger] right_terms@[k]).0@ == t;
                            assert(right_table.map().dom().contains(right_terms@[k].0@));
                        }
                    }
                }
            },
            Some(rdef) => {
                assert(premise(*graph, rk, t, rdef@));
                if ldef.same(rdef) {
                } else {
                    let eq = equivalent_under(graph, ldef, &flags);
                    let joined = holds_cid(&eq, rdef);
                    proof {
                        let s0 = choose|s0: Seq<Seq<char>>|
                            ascending_texts(s0) && s0.to_set() == equivalents(*graph, cid_string(ldef@), flags@) && cids_view(eq@)
                                == parse_keys(s0);
                        lemma_parse_keys(s0, rdef@);
                        if joined {
                            let x = choose|x: Seq<char>| #![trigger cid_from_text(x)] s0.contains(x) && cid_from_text(x) == Some(rdef@);
                            assert(s0.to_set().contains(x));
                            assert(equivalent_keys(*graph, flags@, cid_string(ldef@), rdef@));
                        } else {
                            if equivalent_keys(*graph, flags@, cid_string(ldef@), rdef@) {
                                let x = choose|x: Seq<char>|
                                    #![trigger cid_from_text(x)]
                                    reach(equivalence_links(graph.relation_entries(), flags@), cid_string(ldef@), x) && cid_from_text(x) == Some(rdef@);
                                assert(equivalents(*graph, cid_string(ldef@), flags@).contains(x));
                                assert(s0.to_set().contains(x));
                            }
                        }
                    }
                    if !joined {
                        let conflict = TermConflict {
                            term: copy_text(left_terms[i].0.as_str()),
                            left: ldef.clone(),
                            right: rdef.clone(),
                        };
                        let lg = graph.lineage(ldef, Lineage::Authoritative).genesis;
                        let rg = graph.lineage(rdef, Lineage::Authoritative).genesis;
                        let ghost cv = conflict_view(conflict);
                        proof {
                            assert forall|j: int| 0 <= j < i implies text_lt(left_terms@[j].0@, t) by {
                                assert(crate::cbor::lex_lt(
                                    vstd::utf8::encode_utf8(left_terms@[j].0@),
                                    vstd::utf8::encode_utf8(left_terms@[i as int].0@),
                                ));
                            }
                        }
                        if lg.same(&rg) {
                            out.stale.push(conflict);
                            proof {
                                assert(out.stale@[out.stale@.len() - 1].term@ == t);
                                assert forall|a: int, b: int| 0 <= a < b < out.stale@.len() implies text_lt(
                                    (#[trigger] out.stale@[a]).term@,
                                    (#[trigger] out.stale@[b]).term@,
                                ) by {
                                    if b == out.stale@.len() - 1 {
                                        assert(out.stale@[a] == before_stale[a]);
                                        let j = choose|j: int| 0 <= j < i && (#[trigger] before_stale[a]).term@ == left_terms@[j].0@;
                                    } else {
                                        assert(out.stale@[a] == before_stale[a]);
                                        assert(out.stale@[b] == before_stale[b]);
                                    }
                                }
                                assert(lists_term(out.stale@, t));
                            }
                        } else {
                            out.divergent.push(conflict);
                            proof {
                                assert(out.divergent@[out.divergent@.len() - 1].term@ == t);
                                assert forall|a: int, b: int| 0 <= a < b < out.divergent@.len() implies text_lt(
                                    (#[trigger] out.divergent@[a]).term@,
                                    (#[trigger] out.divergent@[b]).term@,
                                ) by {
                                    if b == out.divergent@.len() - 1 {
                                        assert(out.divergent@[a] == before_div[a]);
                                        let j = choose|j: int| 0 <= j < i && (#[trigger] before_div[a]).term@ == left_terms@[j].0@;
                                    } else {
                                        assert(out.divergent@[a] == before_div[a]);
                                        assert(out.divergent@[b] == before_div[b]);
                                    }
                                }
                                assert(lists_term(out.divergent@, t));
                            }
                        }
                    }
                }
            },
        }
        proof {
            assert forall|k: int|
                0 <= k < out.divergent.len() implies exists|j: int| 0 <= j < i + 1 && (#[trigger] out.divergent@[k]).term@ == left_terms@[j].0@ by {
                if k < before_div.len() {
                    assert(out.divergent@[k] == before_div[k]);
                    let j = choose|j: int| 0 <= j < i && (#[trigger] before_div[k]).term@ == left_terms@[j].0@;
                }
            }
            assert forall|k: int|
                0 <= k < out.stale.len() implies exists|j: int| 0 <= j < i + 1 && (#[trigger] out.stale@[k]).term@ == left_terms@[j].0@ by {
                if k < before_stale.len() {
                    assert(out.stale@[k] == before_stale[k]);
                    let j = choose|j: int| 0 <= j < i && (#[trigger] before_stale[k]).term@ == left_terms@[j].0@;
                }
            }
            assert forall|k: int| 0 <= k < out.divergent.len() implies reported(*graph, l, rk, flags@, conflict_view(#[trigger] out.divergent@[k]), false) by {
                if k < before_div.len() {
                    assert(out.divergent@[k] == before_div[k]);
                }
            }
            assert forall|k: int| 0 <= k < out.stale.len() implies reported(*graph, l, rk, flags@, conflict_view(#[trigger] out.stale@[k]), true) by {
                if k < before_stale.len() {
                    assert(out.stale@[k] == before_stale[k]);
                }
            }
            assert forall|j: int, cl: (HashAlg, Seq<u8>), cr: (HashAlg, Seq<u8>)|
                #![trigger left_terms@[j], premise(*graph, rk, left_terms@[j].0@, cr), premise(*graph, l, left_terms@[j].0@, cl)]
                0 <= j < i + 1 && premise(*graph, l, left_terms@[j].0@, cl) && premise(*graph, rk, left_terms@[j].0@, cr) implies (
                lists_term(out.divergent@, left_terms@[j].0@) || lists_term(out.stale@, left_terms@[j].0@) || exists|a: (HashAlg, Seq<u8>), b: (HashAlg, Seq<u8>)|
                    #![trigger premise(*graph, l, left_terms@[j].0@, a), premise(*graph, rk, left_terms@[j].0@, b)]
                    premise(*graph, l, left_terms@[j].0@, a) && premise(*graph, rk, left_terms@[j].0@, b) && (a == b
                        || equivalent_keys(*graph, flags@, cid_string(a), b))) by {
                if j < i {
                    let tj = left_terms@[j].0@;
                    if lists_term(before_div, tj) {
                        let k = choose|k: int| 0 <= k < before_div.len() && (#[trigger] before_div[k]).term@ == tj;
                        assert(out.divergent@[k] == before_div[k]);
                    } else if lists_term(before_stale, tj) {
                        let k = choose|k: int| 0 <= k < before_stale.len() && (#[trigger] before_stale[k]).term@ == tj;
                        assert(out.stale@[k] == before_stale[k]);
                    }
                }
            }
        }
        i = i + 1;
    }
    proof {
        assert forall|t: Seq<char>, cl: (HashAlg, Seq<u8>), cr: (HashAlg, Seq<u8>)|
            #![trigger premise(*graph, l, t, cl), premise(*graph, rk, t, cr)]
            premise(*graph, l, t, cl) && premise(*graph, rk, t, cr) implies (
            lists_term(out.divergent@, t) || lists_term(out.stale@, t) || exists|a: (HashAlg, Seq<u8>), b: (HashAlg, Seq<u8>)|
                #![trigger premise(*graph, l, t, a), premise(*graph, rk, t, b)]
                premise(*graph, l, t, a) && premise(*graph, rk, t, b) && (a == b || equivalent_keys(*graph, flags@, cid_string(a), b))) by {
            let k = choose|k: int| 0 <= k < left_terms.len() && (#[trigger] left_terms@[k]).0@ == t;
            assert(premise(*graph, l, left_terms@[k].0@, cl));
        }
        assert(answered(graph.relation_entries(), *trusted, flags@));
    }
    Ok(out)
}

/// Whether a list of identifiers holds `c`.
fn holds_cid(s: &Vec<Cid>, c: &Cid) -> (r: bool)
    ensures
        r == cids_view(s@).contains(c@),
{
    let mut i: usize = 0;
    while i < s.len()
        invariant
            i <= s.len(),
            forall|j: int| 0 <= j < i ==> (#[trigger] s@[j])@ != c@,
        decreases s.len() - i,
    {
        if s[i].same(c) {
            assert(cids_view(s@)[i as int] == c@);
            return true;
        }
        i = i + 1;
    }
    proof {
        if cids_view(s@).contains(c@) {
            let j = choose|j: int| 0 <= j < cids_view(s@).len() && cids_view(s@)[j] == c@;
            assert(s@[j]@ == c@);
        }
    }
    false
}

} // verus!
