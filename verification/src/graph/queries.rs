//! Queries over annotations: classification and usage
//! citations.

use crate::cbor::Model;
use crate::fields::{cid_from_text, cid_in, cid_string, cid_to_string, cids_view, annotates, body_text, entry, is_annotation, text_in, value_field, value_text};
use crate::graph::closure::{holds, keys_view};
use crate::graph::document::{Document, DocumentView, ItemView};
use crate::graph::graph::{ascending_keys, kind_links, Graph};
use crate::graph::view::{term_of, RelationKind};
use crate::graph::pairs::{ascending_pairs, pair_views, PairSet};
use crate::graph::table::Table;
use crate::object::ObjectView;
use crate::text::{copy_text, text_eq};
use crate::{Cid, HashAlg, Object};
use vstd::prelude::*;

verus! {

/// What a `classifies` annotation says, if `o` is one: the text of its
/// target and of the subject it names.
pub open spec fn classification_of(o: ObjectView) -> Option<(Seq<char>, Seq<char>)> {
    if o.kind == "ann"@ && body_text(o, "kind"@) == Some("classifies"@) && body_text(o, "target"@) is Some
        && value_text(o, "subject"@) is Some {
        Some((body_text(o, "target"@)->0, value_text(o, "subject"@)->0))
    } else {
        None
    }
}

/// Every (target, subject) pair the `classifies` annotations under `keys`
/// declare.
pub open spec fn classifications_in(keys: Seq<Seq<char>>, objs: Map<Seq<char>, Object>) -> Set<
    (Seq<char>, Seq<char>),
>
    decreases keys.len(),
{
    if keys.len() == 0 {
        Set::empty()
    } else {
        let prev = classifications_in(keys.drop_last(), objs);
        let k = keys.last();
        if objs.dom().contains(k) && classification_of(objs[k]@) is Some {
            prev.insert(classification_of(objs[k]@)->0)
        } else {
            prev
        }
    }
}

/// Every (source, locator) pair the `usage` annotations about `t` under
/// `keys` cite; an absent locator is empty.
pub open spec fn usage_pairs_in(keys: Seq<Seq<char>>, objs: Map<Seq<char>, Object>, t: Seq<char>) -> Set<
    (Seq<char>, Seq<char>),
>
    decreases keys.len(),
{
    if keys.len() == 0 {
        Set::empty()
    } else {
        let prev = usage_pairs_in(keys.drop_last(), objs, t);
        let k = keys.last();
        if objs.dom().contains(k) && annotates(objs[k]@, "usage"@, t) && value_text(objs[k]@, "source"@) is Some {
            prev.insert(
                (
                    value_text(objs[k]@, "source"@)->0,
                    match value_text(objs[k]@, "locator"@) {
                        Some(l) => l,
                        None => Seq::empty(),
                    },
                ),
            )
        } else {
            prev
        }
    }
}

fn read_classification<'a>(o: &'a Object) -> (r: Option<(&'a str, &'a str)>)
    ensures
        match r {
            Some(p) => classification_of(o@) == Some((p.0@, p.1@)),
            None => classification_of(o@) is None,
        },
{
    let body = o.body();
    if !text_eq(o.kind(), "ann") {
        return None;
    }
    match text_in(entry(body, "kind")) {
        Some(k) => {
            if !text_eq(k, "classifies") {
                return None;
            }
        },
        None => return None,
    }
    match (text_in(entry(body, "target")), value_field(o, "subject")) {
        (Some(t), Some(s)) => Some((t, s)),
        _ => None,
    }
}

/// The keys of a set kept as a table, in ascending order.
fn sorted_keys(t: &Table<bool>) -> (r: Vec<String>)
    ensures
        ascending_keys(r@),
        keys_view(r@).to_set() == t.map().dom(),
{
    let r = t.keys();
    proof {
        assert forall|x: Seq<char>| keys_view(r@).to_set().contains(x) <==> t.map().dom().contains(x) by {
            if keys_view(r@).contains(x) {
                let i = choose|i: int| 0 <= i < keys_view(r@).len() && keys_view(r@)[i] == x;
                assert(r@[i]@ == x);
            }
            if t.map().dom().contains(x) {
                let i = choose|i: int| 0 <= i < r.len() && (#[trigger] r@[i])@ == x;
                assert(keys_view(r@)[i] == x);
            }
        }
        assert(keys_view(r@).to_set() =~= t.map().dom());
    }
    r
}

impl Graph {
    /// Every classification in the graph, as (target, subject) pairs.
    fn classification_pairs(&self) -> (r: PairSet)
        ensures
            r.set() == classifications_in(self.object_keys(), self.object_map()),
    {
        let cids = self.cids();
        let ghost ks = self.object_keys();
        let mut out = PairSet::new();
        let mut i: usize = 0;
        assert(ks.take(0) =~= Seq::<Seq<char>>::empty());
        while i < cids.len()
            invariant
                i <= cids.len(),
                keys_view(cids@) == ks,
                ks == self.object_keys(),
                out.set() == classifications_in(ks.take(i as int), self.object_map()),
            decreases cids.len() - i,
        {
            assert(ks.take(i + 1).drop_last() =~= ks.take(i as int));
            assert(ks.take(i + 1).last() == cids@[i as int]@);
            match self.object_at(cids[i].as_str()) {
                Some(o) => match read_classification(o) {
                    Some((t, s)) => out.put(copy_text(t), copy_text(s)),
                    None => {},
                },
                None => {},
            }
            i = i + 1;
        }
        assert(ks.take(cids.len() as int) =~= ks);
        out
    }

    /// Subjects this object is classified under. Membership
    /// is an annotation, never a property of the object, so competing
    /// taxonomies coexist. Sorted and deduplicated: two keys classifying one
    /// object under one subject is agreement, not two memberships.
    pub fn subjects_of(&self, target: &Cid) -> (r: Vec<String>)
        ensures
            ascending_keys(r@),
            forall|s: Seq<char>|
                keys_view(r@).contains(s) <==> classifications_in(self.object_keys(), self.object_map()).contains(
                    (crate::fields::cid_string(target@), s),
                ),
    {
        let t = crate::fields::cid_to_string(target);
        let all = self.classification_pairs();
        let ps = all.pairs();
        let ghost pv = pair_views(ps@);
        let mut set: Table<bool> = Table::new();
        let mut i: usize = 0;
        while i < ps.len()
            invariant
                i <= ps.len(),
                pv == pair_views(ps@),
                forall|s: Seq<char>|
                    set.map().dom().contains(s) <==> exists|j: int| 0 <= j < i && #[trigger] pv[j] == (t@, s),
            decreases ps.len() - i,
        {
            assert(pv[i as int] == (ps@[i as int].0@, ps@[i as int].1@));
            if text_eq(ps[i].0.as_str(), t.as_str()) {
                set.put(copy_text(ps[i].1.as_str()), true);
            }
            proof {
                assert forall|s: Seq<char>|
                    set.map().dom().contains(s) <==> exists|j: int| 0 <= j < i + 1 && #[trigger] pv[j] == (t@, s) by {
                    if pv[i as int] == (t@, s) {
                        assert(set.map().dom().contains(s));
                    }
                }
            }
            i = i + 1;
        }
        let r = sorted_keys(&set);
        proof {
            assert forall|s: Seq<char>|
                keys_view(r@).contains(s) <==> classifications_in(self.object_keys(), self.object_map()).contains(
                    (t@, s),
                ) by {
                assert(keys_view(r@).to_set().contains(s) == keys_view(r@).contains(s));
                if pv.to_set().contains((t@, s)) {
                    let j = choose|j: int| 0 <= j < pv.len() && pv[j] == (t@, s);
                }
            }
        }
        r
    }

    /// Objects classified under a subject, sorted and deduplicated.
    pub fn classified_under(&self, subject: &Cid) -> (r: Vec<String>)
        ensures
            ascending_keys(r@),
            forall|x: Seq<char>|
                keys_view(r@).contains(x) <==> classifications_in(self.object_keys(), self.object_map()).contains(
                    (x, crate::fields::cid_string(subject@)),
                ),
    {
        let s = crate::fields::cid_to_string(subject);
        let all = self.classification_pairs();
        let ps = all.pairs();
        let ghost pv = pair_views(ps@);
        let mut set: Table<bool> = Table::new();
        let mut i: usize = 0;
        while i < ps.len()
            invariant
                i <= ps.len(),
                pv == pair_views(ps@),
                forall|x: Seq<char>|
                    set.map().dom().contains(x) <==> exists|j: int| 0 <= j < i && #[trigger] pv[j] == (x, s@),
            decreases ps.len() - i,
        {
            assert(pv[i as int] == (ps@[i as int].0@, ps@[i as int].1@));
            if text_eq(ps[i].1.as_str(), s.as_str()) {
                set.put(copy_text(ps[i].0.as_str()), true);
            }
            proof {
                assert forall|x: Seq<char>|
                    set.map().dom().contains(x) <==> exists|j: int| 0 <= j < i + 1 && #[trigger] pv[j] == (x, s@) by {
                    if pv[i as int] == (x, s@) {
                        assert(set.map().dom().contains(x));
                    }
                }
            }
            i = i + 1;
        }
        let r = sorted_keys(&set);
        proof {
            assert forall|x: Seq<char>|
                keys_view(r@).contains(x) <==> classifications_in(self.object_keys(), self.object_map()).contains(
                    (x, s@),
                ) by {
                assert(keys_view(r@).to_set().contains(x) == keys_view(r@).contains(x));
                if pv.to_set().contains((x, s@)) {
                    let j = choose|j: int| 0 <= j < pv.len() && pv[j] == (x, s@);
                }
            }
        }
        r
    }

    /// Usage citations filed against a definitional publet:
    /// each a source and a locator naming where the sense was found, sorted
    /// and deduplicated. The citation is a pointer rather than a quotation.
    pub fn usage_of(&self, target: &Cid) -> (r: Vec<(String, String)>)
        ensures
            ascending_pairs(pair_views(r@)),
            pair_views(r@).to_set() == usage_pairs_in(
                self.object_keys(),
                self.object_map(),
                crate::fields::cid_string(target@),
            ),
    {
        let t = crate::fields::cid_to_string(target);
        let cids = self.cids();
        let ghost ks = self.object_keys();
        let mut out = PairSet::new();
        let mut i: usize = 0;
        assert(ks.take(0) =~= Seq::<Seq<char>>::empty());
        while i < cids.len()
            invariant
                i <= cids.len(),
                keys_view(cids@) == ks,
                ks == self.object_keys(),
                out.set() == usage_pairs_in(ks.take(i as int), self.object_map(), t@),
            decreases cids.len() - i,
        {
            assert(ks.take(i + 1).drop_last() =~= ks.take(i as int));
            assert(ks.take(i + 1).last() == cids@[i as int]@);
            match self.object_at(cids[i].as_str()) {
                Some(o) => {
                    if is_annotation(o, "usage", t.as_str()) {
                        match value_field(o, "source") {
                            Some(source) => {
                                let locator = match value_field(o, "locator") {
                                    Some(l) => copy_text(l),
                                    None => String::new(),
                                };
                                out.put(copy_text(source), locator);
                            },
                            None => {},
                        }
                    }
                },
                None => {},
            }
            i = i + 1;
        }
        assert(ks.take(cids.len() as int) =~= ks);
        let ps = out.pairs();
        let mut r: Vec<(String, String)> = Vec::new();
        let mut j: usize = 0;
        while j < ps.len()
            invariant
                j <= ps.len(),
                r.len() == j,
                forall|k: int| 0 <= k < j ==> (#[trigger] pair_views(r@)[k]) == pair_views(ps@)[k],
            decreases ps.len() - j,
        {
            let ghost before = r@;
            r.push((copy_text(ps[j].0.as_str()), copy_text(ps[j].1.as_str())));
            proof {
                assert forall|k: int| 0 <= k < j + 1 implies (#[trigger] pair_views(r@)[k]) == pair_views(ps@)[k] by {
                    if k < j {
                        assert(r@[k] == before[k]);
                        assert(pair_views(before)[k] == pair_views(ps@)[k]);
                    }
                }
            }
            j = j + 1;
        }
        assert(pair_views(r@) =~= pair_views(ps@));
        r
    }
}

/// The identifier texts a document cites, as a set.
pub open spec fn ref_set(d: DocumentView) -> Set<Seq<char>> {
    d.items.map_values(|i: ItemView| cid_string(i.reference)).to_set()
}

/// Whether either document declares `derived-from` the other.
pub open spec fn derivation_declared(g: Graph, a: Seq<char>, b: Seq<char>) -> bool {
    kind_links(g.edge_list(), RelationKind::DerivedFrom).contains((a, b)) || kind_links(
        g.edge_list(),
        RelationKind::DerivedFrom,
    ).contains((b, a))
}

/// The share of the smaller set's citations that the two sets share, as a
/// whole percentage, truncated.
pub open spec fn overlap_percent(l: Set<Seq<char>>, r: Set<Seq<char>>) -> nat {
    (l.intersect(r).len() * 100) / if l.len() <= r.len() {
        l.len()
    } else {
        r.len()
    }
}

/// The fork two documents make, if their citations overlap by at least
/// `threshold` percent and neither declares derivation from the other.
pub open spec fn fork_of(g: Graph, a: DocumentView, b: DocumentView, threshold: u32) -> Option<
    (Seq<char>, Seq<char>, u32),
> {
    let l = ref_set(a);
    let r = ref_set(b);
    if l.len() == 0 || r.len() == 0 {
        None
    } else if overlap_percent(l, r) < threshold || derivation_declared(g, cid_string(a.cid), cid_string(b.cid)) {
        None
    } else {
        Some((cid_string(a.cid), cid_string(b.cid), overlap_percent(l, r) as u32))
    }
}

/// The forks the document at `i` makes with those after it and before `m`.
pub open spec fn forks_after(g: Graph, ds: Seq<(String, Document)>, i: int, m: int, threshold: u32) -> Seq<
    (Seq<char>, Seq<char>, u32),
>
    decreases m - i,
{
    if m <= i + 1 {
        Seq::empty()
    } else {
        let prev = forks_after(g, ds, i, m - 1, threshold);
        match fork_of(g, ds[i].1@, ds[m - 1].1@, threshold) {
            Some(f) => prev.push(f),
            None => prev,
        }
    }
}

/// The forks among the first `n` documents, row by row.
pub open spec fn forks(g: Graph, ds: Seq<(String, Document)>, n: int, threshold: u32) -> Seq<
    (Seq<char>, Seq<char>, u32),
>
    decreases n,
{
    if n <= 0 {
        Seq::empty()
    } else {
        forks(g, ds, n - 1, threshold) + forks_after(g, ds, n - 1, ds.len() as int, threshold)
    }
}

/// The views of a list of forks.
pub open spec fn fork_views(s: Seq<(String, String, u32)>) -> Seq<(Seq<char>, Seq<char>, u32)> {
    s.map_values(|f: (String, String, u32)| (f.0@, f.1@, f.2))
}

/// The citations of a document, as a set of identifier texts.
fn reference_set(d: &Document) -> (r: Table<bool>)
    ensures
        r.map().dom() == ref_set(d@),
{
    let refs = d.references();
    let ghost rv = d@.items.map_values(|i: ItemView| cid_string(i.reference));
    let mut t: Table<bool> = Table::new();
    let mut i: usize = 0;
    assert(cids_view(refs@).len() == refs@.len());
    while i < refs.len()
        invariant
            i <= refs.len(),
            rv.len() == refs.len(),
            cids_view(refs@) == d@.items.map_values(|i: ItemView| i.reference),
            rv == d@.items.map_values(|i: ItemView| cid_string(i.reference)),
            forall|x: Seq<char>| t.map().dom().contains(x) <==> exists|j: int| 0 <= j < i && #[trigger] rv[j] == x,
        decreases refs.len() - i,
    {
        assert(cids_view(refs@)[i as int] == refs@[i as int]@);
        assert(rv[i as int] == cid_string(refs@[i as int]@));
        t.put(cid_to_string(&refs[i]), true);
        proof {
            assert forall|x: Seq<char>| t.map().dom().contains(x) <==> exists|j: int| 0 <= j < i + 1 && #[trigger] rv[j] == x by {
                if x == rv[i as int] {
                }
            }
        }
        i = i + 1;
    }
    proof {
        assert forall|x: Seq<char>| t.map().dom().contains(x) <==> rv.to_set().contains(x) by {
            if rv.contains(x) {
                let j = choose|j: int| 0 <= j < rv.len() && rv[j] == x;
            }
        }
        assert(t.map().dom() =~= ref_set(d@));
    }
    t
}

/// How many keys two sets share.
fn shared_count(l: &Table<bool>, r: &Table<bool>) -> (n: usize)
    ensures
        l.map().dom().finite(),
        r.map().dom().finite(),
        n == l.map().dom().intersect(r.map().dom()).len(),
        n <= l.map().dom().len(),
        n <= r.map().dom().len(),
{
    let ghost ls = l.map().dom();
    let ghost rs = r.map().dom();
    let llen = l.len();
    let rlen = r.len();
    let keys = l.keys();
    let mut n: usize = 0;
    let ghost mut acc: Set<Seq<char>> = Set::empty();
    let mut i: usize = 0;
    proof {
        assert forall|a: int, b: int| 0 <= a < keys.len() && 0 <= b < keys.len() && a != b implies keys@[a]@ != keys@[b]@ by {
            if a < b {
                assert(crate::cbor::lex_lt(vstd::utf8::encode_utf8(keys@[a]@), vstd::utf8::encode_utf8(keys@[b]@)));
            } else {
                assert(crate::cbor::lex_lt(vstd::utf8::encode_utf8(keys@[b]@), vstd::utf8::encode_utf8(keys@[a]@)));
            }
            if keys@[a]@ == keys@[b]@ {
                crate::cbor::lemma_lex_irrefl(vstd::utf8::encode_utf8(keys@[a]@));
            }
        }
    }
    while i < keys.len()
        invariant
            i <= keys.len(),
            ls == l.map().dom(),
            rs == r.map().dom(),
            ls.finite(),
            forall|a: int, b: int| 0 <= a < keys.len() && 0 <= b < keys.len() && a != b ==> keys@[a]@ != keys@[b]@,
            forall|x: Seq<char>|
                #![trigger l.map().dom().contains(x)]
                (exists|j: int| 0 <= j < keys.len() && (#[trigger] keys@[j])@ == x) <==> l.map().dom().contains(x),
            acc.finite(),
            n == acc.len(),
            n <= i,
            forall|x: Seq<char>| acc.contains(x) <==> (rs.contains(x) && exists|j: int| 0 <= j < i && (#[trigger] keys@[j])@ == x),
        decreases keys.len() - i,
    {
        if r.get(keys[i].as_str()).is_some() {
            proof {
                if acc.contains(keys@[i as int]@) {
                    let j = choose|j: int| 0 <= j < i && (#[trigger] keys@[j])@ == keys@[i as int]@;
                }
                acc = acc.insert(keys@[i as int]@);
            }
            n = n + 1;
        }
        proof {
            assert forall|x: Seq<char>| acc.contains(x) <==> (rs.contains(x) && exists|j: int| 0 <= j < i + 1 && (#[trigger] keys@[j])@ == x) by {
                if rs.contains(x) && x == keys@[i as int]@ {
                }
            }
        }
        i = i + 1;
    }
    proof {
        assert(acc =~= ls.intersect(rs));
        vstd::set_lib::lemma_len_intersect(ls, rs);
        vstd::set_lib::lemma_len_intersect(rs, ls);
        assert(rs.intersect(ls) =~= ls.intersect(rs));
    }
    n
}

impl Graph {
    /// Whether either document declares `derived-from` the other.
    fn declares_derivation(&self, a: &Cid, b: &Cid) -> (r: bool)
        ensures
            r == derivation_declared(*self, cid_string(a@), cid_string(b@)),
    {
        let from_a = self.out(RelationKind::DerivedFrom, a);
        let from_b = self.out(RelationKind::DerivedFrom, b);
        let ta = cid_to_string(a);
        let tb = cid_to_string(b);
        holds(&from_a, tb.as_str()) || holds(&from_b, ta.as_str())
    }

    /// Documents whose citations substantially overlap another's without
    /// declaring `derived-from`: each pair once, with the
    /// percentage of the smaller document's citations shared. Forking is
    /// permitted and cannot be prevented; overlap is a signal reported
    /// rather than enforced.
    pub fn undeclared_forks(&self, threshold_percent: u32) -> (r: Vec<(String, String, u32)>)
        ensures
            fork_views(r@) == forks(*self, self.document_entries(), self.document_entries().len() as int, threshold_percent),
    {
        let docs = self.documents();
        let ghost ds = docs@;
        let n = docs.len();
        let mut sets: Vec<Table<bool>> = Vec::new();
        let mut k: usize = 0;
        while k < n
            invariant
                k <= n,
                n == docs.len(),
                sets.len() == k,
                forall|t: int| 0 <= t < k ==> (#[trigger] sets@[t]).map().dom() == ref_set(docs@[t].1@),
            decreases n - k,
        {
            sets.push(reference_set(&docs[k].1));
            k = k + 1;
        }
        let mut out: Vec<(String, String, u32)> = Vec::new();
        let mut i: usize = 0;
        assert(fork_views(out@) =~= forks(*self, ds, 0, threshold_percent));
        while i < n
            invariant
                i <= n,
                n == docs.len(),
                ds == docs@,
                ds == self.document_entries(),
                sets.len() == n,
                forall|t: int| 0 <= t < n ==> (#[trigger] sets@[t]).map().dom() == ref_set(docs@[t].1@),
                fork_views(out@) == forks(*self, ds, i as int, threshold_percent),
            decreases n - i,
        {
            let ghost base = fork_views(out@);
            let mut j: usize = i + 1;
            assert(fork_views(out@) =~= base + forks_after(*self, ds, i as int, j as int, threshold_percent));
            while j < n
                invariant
                    i < n,
                    i + 1 <= j <= n,
                    n == docs.len(),
                    ds == docs@,
                    sets.len() == n,
                    forall|t: int| 0 <= t < n ==> (#[trigger] sets@[t]).map().dom() == ref_set(docs@[t].1@),
                    fork_views(out@) == base + forks_after(*self, ds, i as int, j as int, threshold_percent),
                decreases n - j,
            {
                let ghost before = fork_views(out@);
                let left = &sets[i];
                let right = &sets[j];
                let llen = left.len();
                let rlen = right.len();
                if llen > 0 && rlen > 0 {
                    let shared = shared_count(left, right);
                    let smaller = if llen <= rlen {
                        llen
                    } else {
                        rlen
                    };
                    let percent = ((shared as u128) * 100) / (smaller as u128);
                    assert(percent <= 100) by (nonlinear_arith)
                        requires
                            shared <= smaller,
                            smaller > 0,
                            percent == (shared as int * 100) / (smaller as int),
                    ;
                    let p = percent as u32;
                    if p >= threshold_percent && !self.declares_derivation(docs[i].1.cid(), docs[j].1.cid()) {
                        out.push((cid_to_string(docs[i].1.cid()), cid_to_string(docs[j].1.cid()), p));
                        assert(fork_views(out@) =~= before.push(
                            (cid_string(ds[i as int].1@.cid), cid_string(ds[j as int].1@.cid), p),
                        ));
                    }
                }
                j = j + 1;
            }
            assert(forks(*self, ds, i + 1, threshold_percent) == forks(*self, ds, i as int, threshold_percent)
                + forks_after(*self, ds, i as int, ds.len() as int, threshold_percent));
            i = i + 1;
        }
        out
    }
}

/// Every (term, identifier text) pair the definitional publets under
/// `keys` define, read from each publet and its own object.
pub open spec fn term_pairs_in(keys: Seq<Seq<char>>, g: Graph) -> Set<(Seq<char>, Seq<char>)>
    decreases keys.len(),
{
    if keys.len() == 0 {
        Set::empty()
    } else {
        let prev = term_pairs_in(keys.drop_last(), g);
        let k = keys.last();
        if g.publet_map().dom().contains(k) && g.object_map().dom().contains(k) && term_of(
            g.publet_map()[k]@.class,
            g.publet_map()[k]@.content,
            g.object_map()[k]@.ext,
        ) is Some {
            prev.insert(
                (
                    term_of(g.publet_map()[k]@.class, g.publet_map()[k]@.content, g.object_map()[k]@.ext)->0,
                    k,
                ),
            )
        } else {
            prev
        }
    }
}

/// The pairs whose identifier text parses, with it parsed, in order.
pub open spec fn parsed_terms(ps: Seq<(Seq<char>, Seq<char>)>) -> Seq<(Seq<char>, (HashAlg, Seq<u8>))>
    decreases ps.len(),
{
    if ps.len() == 0 {
        Seq::empty()
    } else {
        let prev = parsed_terms(ps.drop_last());
        match cid_from_text(ps.last().1) {
            Some(c) => prev.push((ps.last().0, c)),
            None => prev,
        }
    }
}

impl Graph {
    /// Every term a `definitional` publet in this graph fixes, with the
    /// publet defining it, sorted by term, then by identifier. All
    /// definitions of each term are returned and none is preferred:
    /// competing definitions are the normal case, and choosing among them
    /// belongs to a viewpoint.
    pub fn terms(&self) -> (r: Vec<(String, Cid)>)
        ensures
            exists|s: Seq<(Seq<char>, Seq<char>)>|
                ascending_pairs(s) && s.to_set() == term_pairs_in(self.object_keys(), *self) && r@.map_values(
                    |p: (String, Cid)| (p.0@, p.1@),
                ) == parsed_terms(s),
    {
        let cids = self.cids();
        let ghost ks = self.object_keys();
        let mut found = PairSet::new();
        let mut i: usize = 0;
        assert(ks.take(0) =~= Seq::<Seq<char>>::empty());
        while i < cids.len()
            invariant
                i <= cids.len(),
                keys_view(cids@) == ks,
                ks == self.object_keys(),
                found.set() == term_pairs_in(ks.take(i as int), *self),
            decreases cids.len() - i,
        {
            assert(ks.take(i + 1).drop_last() =~= ks.take(i as int));
            assert(ks.take(i + 1).last() == cids@[i as int]@);
            match self.publet_at(cids[i].as_str()) {
                Some(p) => match self.object_at(cids[i].as_str()) {
                    Some(o) => match p.term(o) {
                        Some(t) => found.put(t, copy_text(cids[i].as_str())),
                        None => {},
                    },
                    None => {},
                },
                None => {},
            }
            i = i + 1;
        }
        assert(ks.take(cids.len() as int) =~= ks);
        let ps = found.pairs();
        let ghost pv = pair_views(ps@);
        let mut out: Vec<(String, Cid)> = Vec::new();
        let mut j: usize = 0;
        assert(pv.take(0) =~= Seq::<(Seq<char>, Seq<char>)>::empty());
        assert(out@.map_values(|p: (String, Cid)| (p.0@, p.1@)) =~= Seq::empty());
        while j < ps.len()
            invariant
                j <= ps.len(),
                pv == pair_views(ps@),
                out@.map_values(|p: (String, Cid)| (p.0@, p.1@)) == parsed_terms(pv.take(j as int)),
            decreases ps.len() - j,
        {
            assert(pv.take(j + 1).drop_last() =~= pv.take(j as int));
            assert(pv.take(j + 1).last() == (ps@[j as int].0@, ps@[j as int].1@));
            match cid_in(Some(ps[j].1.as_str())) {
                Some(c) => {
                    let ghost before = out@.map_values(|p: (String, Cid)| (p.0@, p.1@));
                    out.push((copy_text(ps[j].0.as_str()), c));
                    assert(out@.map_values(|p: (String, Cid)| (p.0@, p.1@)) =~= before.push(
                        (ps@[j as int].0@, c@),
                    ));
                },
                None => {},
            }
            j = j + 1;
        }
        assert(pv.take(ps.len() as int) =~= pv);
        out
    }
}

/// Whether some relation disputes the object with identifier text `x`.
pub open spec fn disputed(g: Graph, x: Seq<char>) -> bool {
    exists|y: Seq<char>| #[trigger] kind_links(g.edge_list(), RelationKind::Disputes).contains((y, x))
}

/// The terms among `ts` whose defining publet is disputed, in order.
pub open spec fn contested_of(g: Graph, ts: Seq<(Seq<char>, (HashAlg, Seq<u8>))>) -> Seq<
    (Seq<char>, (HashAlg, Seq<u8>)),
>
    decreases ts.len(),
{
    if ts.len() == 0 {
        Seq::empty()
    } else {
        let prev = contested_of(g, ts.drop_last());
        if disputed(g, cid_string(ts.last().1)) {
            prev.push(ts.last())
        } else {
            prev
        }
    }
}

impl Graph {
    /// Terms whose defining publet something disputes, each with that
    /// publet, in the order of [`Graph::terms`].
    ///
    /// A term nobody disputes needs no declaration: reader and author
    /// already agree about it. These are the words that are the
    /// disagreement, which a publet using them should name in `depends`.
    pub fn contested_terms(&self) -> (r: Vec<(String, Cid)>)
        ensures
            exists|s: Seq<(Seq<char>, Seq<char>)>|
                ascending_pairs(s) && s.to_set() == term_pairs_in(self.object_keys(), *self) && r@.map_values(
                    |p: (String, Cid)| (p.0@, p.1@),
                ) == contested_of(*self, parsed_terms(s)),
    {
        let all = self.terms();
        let ghost tv = all@.map_values(|p: (String, Cid)| (p.0@, p.1@));
        let mut out: Vec<(String, Cid)> = Vec::new();
        let mut i: usize = 0;
        assert(tv.take(0) =~= Seq::<(Seq<char>, (HashAlg, Seq<u8>))>::empty());
        assert(out@.map_values(|p: (String, Cid)| (p.0@, p.1@)) =~= Seq::empty());
        while i < all.len()
            invariant
                i <= all.len(),
                tv == all@.map_values(|p: (String, Cid)| (p.0@, p.1@)),
                out@.map_values(|p: (String, Cid)| (p.0@, p.1@)) == contested_of(*self, tv.take(i as int)),
            decreases all.len() - i,
        {
            assert(tv.take(i + 1).drop_last() =~= tv.take(i as int));
            assert(tv.take(i + 1).last() == (all@[i as int].0@, all@[i as int].1@));
            let by = self.incoming(RelationKind::Disputes, &all[i].1);
            if by.len() > 0 {
                assert(keys_view(by@)[0] == by@[0]@);
                assert(keys_view(by@).contains(by@[0]@));
                let ghost before = out@.map_values(|p: (String, Cid)| (p.0@, p.1@));
                out.push((copy_text(all[i].0.as_str()), all[i].1.clone()));
                assert(out@.map_values(|p: (String, Cid)| (p.0@, p.1@)) =~= before.push(tv[i as int]));
            } else {
                assert forall|y: Seq<char>|
                    !#[trigger] kind_links(self.edge_list(), RelationKind::Disputes).contains(
                        (y, cid_string(all@[i as int].1@)),
                    ) by {
                    if kind_links(self.edge_list(), RelationKind::Disputes).contains(
                        (y, cid_string(all@[i as int].1@)),
                    ) {
                        assert(keys_view(by@).contains(y));
                    }
                }
            }
            i = i + 1;
        }
        assert(tv.take(all.len() as int) =~= tv);
        out
    }
}

/// Whether a listing keeps the object with identifier text `x`: the text
/// parses, and the object has the type asked for and is a publet of the
/// class asked for, where either is asked for.
pub open spec fn ls_keeps(g: Graph, x: Seq<char>, kind: Option<Seq<char>>, class: Option<crate::graph::view::Class>) -> bool {
    match cid_from_text(x) {
        None => false,
        Some(k) => {
            &&& (kind is None || (g.object_map().dom().contains(cid_string(k)) && g.object_map()[cid_string(
                k,
            )]@.kind == kind->0))
            &&& (class is None || (g.publet_map().dom().contains(cid_string(k)) && g.publet_map()[cid_string(
                k,
            )]@.class == class->0))
        },
    }
}

/// The identifier texts among `ks` a listing keeps, in order.
pub open spec fn ls_of(
    g: Graph,
    ks: Seq<Seq<char>>,
    kind: Option<Seq<char>>,
    class: Option<crate::graph::view::Class>,
) -> Seq<Seq<char>>
    decreases ks.len(),
{
    if ks.len() == 0 {
        Seq::empty()
    } else {
        let prev = ls_of(g, ks.drop_last(), kind, class);
        if ls_keeps(g, ks.last(), kind, class) {
            prev.push(ks.last())
        } else {
            prev
        }
    }
}

impl Graph {
    /// The identifiers held, in order, optionally only those of objects of
    /// one type and of publets of one class.
    pub fn list(&self, kind: Option<&str>, class: Option<crate::graph::view::Class>) -> (r: Vec<String>)
        ensures
            keys_view(r@) == ls_of(*self, self.object_keys(), crate::fields::sview(kind), class),
    {
        let cids = self.cids();
        let ghost ks = self.object_keys();
        let ghost kv = crate::fields::sview(kind);
        let mut out: Vec<String> = Vec::new();
        let mut i: usize = 0;
        assert(ks.take(0) =~= Seq::<Seq<char>>::empty());
        assert(keys_view(out@) =~= Seq::<Seq<char>>::empty());
        while i < cids.len()
            invariant
                i <= cids.len(),
                keys_view(cids@) == ks,
                kv == crate::fields::sview(kind),
                keys_view(out@) == ls_of(*self, ks.take(i as int), kv, class),
            decreases cids.len() - i,
        {
            assert(ks.take(i + 1).drop_last() =~= ks.take(i as int));
            assert(ks.take(i + 1).last() == cids@[i as int]@);
            let keep = match Cid::parse(cids[i].as_str()) {
                Ok(cid) => {
                    assert(cid_from_text(cids@[i as int]@) == Some(cid@));
                    let kind_ok = match kind {
                        Some(want) => match self.object(&cid) {
                            Some(o) => text_eq(o.kind(), want),
                            None => false,
                        },
                        None => true,
                    };
                    let class_ok = match class {
                        Some(want) => match self.publet(&cid) {
                            Some(p) => p.class() == want,
                            None => false,
                        },
                        None => true,
                    };
                    kind_ok && class_ok
                },
                Err(_) => false,
            };
            if keep {
                let ghost before = keys_view(out@);
                out.push(copy_text(cids[i].as_str()));
                assert(keys_view(out@) =~= before.push(cids@[i as int]@));
            }
            i = i + 1;
        }
        assert(ks.take(cids.len() as int) =~= ks);
        out
    }
}

} // verus!
