//! Collecting the evidence a claim has attracted.
//!
//! The graph holds signed objects; evaluation consumes weights and counts.
//! This is the bridge, and it is deliberately thin: it reads what was
//! signed and makes no judgements.

use crate::cbor::{mlookup, model, models, Model, Value};
use crate::eval::fixed::{Fixed6, SCALE};
use crate::eval::propagate::TrustEdge;
use crate::eval::standing::{reproducibility_from_id, Evidence, Reproducibility, Reproductions};
use crate::fields::{annotates, body_text, is_annotation, sview, items_in, lemma_models_index, value_field, value_text,
    cid_string, cid_to_string, entry, member, member_of, mget, mitems, mtext, muint, text_in, uint_in,
};
use crate::graph::closure::{holds, index_closure, keys_view, links_view, reach, Link};
use crate::graph::table::Table;
use crate::graph::view::Class;
use crate::graph::graph::{ascending_keys, kind_links};
use crate::graph::{Graph, RelationKind};
use crate::object::ObjectView;
use crate::text::{copy_text, text_eq};
use crate::{Cid, HashAlg, Object};
use vstd::prelude::*;

verus! {

/// The claim class of a target, if it is a publet.
pub fn class_of(graph: &Graph, target: &Cid) -> (r: Option<Class>)
    ensures
        match r {
            Some(c) => graph.publet_map().dom().contains(cid_string(target@)) && c == graph.publet_map()[cid_string(
                target@,
            )]@.class,
            None => !graph.publet_map().dom().contains(cid_string(target@)),
        },
{
    match graph.publet(target) {
        Some(p) => Some(p.class()),
        None => None,
    }
}

/// How a target's observation can be repeated: the `reproducibility.class`
/// of its body, or open when absent or unknown.
pub open spec fn reproducibility_spec(g: Graph, target: (HashAlg, Seq<u8>)) -> Reproducibility {
    let k = cid_string(target);
    if !g.object_map().dom().contains(k) {
        Reproducibility::Open
    } else {
        match mlookup(g.object_map()[k]@.body, "reproducibility"@) {
            Some(r) => match mtext(mget(r, "class"@)) {
                Some(t) => match reproducibility_from_id(t) {
                    Some(x) => x,
                    None => Reproducibility::Open,
                },
                None => Reproducibility::Open,
            },
            None => Reproducibility::Open,
        }
    }
}

fn reproducibility_of(graph: &Graph, target: &Cid) -> (r: Reproducibility)
    ensures
        r == reproducibility_spec(*graph, target@),
{
    match graph.object(target) {
        Some(o) => match text_in(member_of(entry(o.body(), "reproducibility"), "class")) {
            Some(t) => match Reproducibility::from_id(t) {
                Some(x) => x,
                None => Reproducibility::Open,
            },
            None => Reproducibility::Open,
        },
        None => Reproducibility::Open,
    }
}

/// The trust edges declared by the `trusts` annotations among objects
/// taken in order: each signer's first edge to a target counts, with
/// the declared weight (one when absent) as a whole number.
pub open spec fn trusts_in(keys: Seq<Seq<char>>, objs: Map<Seq<char>, Object>) -> Seq<(Seq<char>, Seq<char>, int)>
    decreases keys.len(),
{
    if keys.len() == 0 {
        Seq::empty()
    } else {
        let prev = trusts_in(keys.drop_last(), objs);
        let k = keys.last();
        if objs.dom().contains(k) {
            let o = objs[k]@;
            let from = cid_string(o.author);
            match mlookup(o.body, "target"@) {
                Some(Model::Text(to)) => if o.kind == "ann"@ && body_text(o, "kind"@) == Some("trusts"@)
                    && !(exists|j: int| 0 <= j < prev.len() && (#[trigger] prev[j]).0 == from && prev[j].1 == to) {
                    let w = match mlookup(o.body, "value"@) {
                        Some(v) => match muint(mget(v, "weight"@)) {
                            Some(n) => n as int,
                            None => 1,
                        },
                        None => 1,
                    };
                    prev.push((from, to, w * SCALE))
                } else {
                    prev
                },
                _ => prev,
            }
        } else {
            prev
        }
    }
}

/// The view of a trust edge.
pub open spec fn edge_view(e: TrustEdge) -> (Seq<char>, Seq<char>, int) {
    (e.from@, e.to@, e.weight@)
}

/// Trust edges declared by `trusts` annotations in the graph, in
/// identifier order of the annotations; see [`trusts_in`].
pub fn trust_edges(graph: &Graph) -> (r: Vec<TrustEdge>)
    ensures
        r@.map_values(|e: TrustEdge| edge_view(e)) == trusts_in(graph.object_keys(), graph.object_map()),
        forall|i: int| 0 <= i < r.len() ==> (#[trigger] r@[i]).age_days == 0,
{
    let cids = graph.cids();
    let ghost ks = keys_view(cids@);
    let mut out: Vec<TrustEdge> = Vec::new();
    let mut i: usize = 0;
    assert(ks.take(0) =~= Seq::<Seq<char>>::empty());
    assert(out@.map_values(|e: TrustEdge| edge_view(e)) =~= Seq::empty());
    while i < cids.len()
        invariant
            i <= cids.len(),
            ks == keys_view(cids@),
            ks == graph.object_keys(),
            out@.map_values(|e: TrustEdge| edge_view(e)) == trusts_in(ks.take(i as int), graph.object_map()),
            forall|t: int| 0 <= t < out.len() ==> (#[trigger] out@[t]).age_days == 0,
        decreases cids.len() - i,
    {
        let ghost prev = out@.map_values(|e: TrustEdge| edge_view(e));
        assert(ks.take(i + 1).drop_last() =~= ks.take(i as int));
        assert(ks.take(i + 1).last() == cids@[i as int]@);
        match graph.object_at(cids[i].as_str()) {
            Some(object) => {
                let body = object.body();
                match entry(body, "target") {
                    Some(Value::Text(to)) => {
                        if text_eq(object.kind(), "ann") && match text_in(entry(body, "kind")) {
                            Some(k) => text_eq(k, "trusts"),
                            None => false,
                        } {
                            let from = cid_to_string(object.author());
                            let mut seen = false;
                            let mut j: usize = 0;
                            while j < out.len()
                                invariant
                                    j <= out.len(),
                                    prev == out@.map_values(|e: TrustEdge| edge_view(e)),
                                    !seen ==> forall|s: int|
                                        0 <= s < j ==> !((#[trigger] prev[s]).0 == from@ && prev[s].1 == to@),
                                    seen ==> exists|s: int|
                                        0 <= s < prev.len() && (#[trigger] prev[s]).0 == from@ && prev[s].1 == to@,
                                decreases out.len() - j,
                            {
                                assert(prev[j as int] == edge_view(out@[j as int]));
                                if text_eq(out[j].from.as_str(), from.as_str()) && text_eq(
                                    out[j].to.as_str(),
                                    to.as_str(),
                                ) {
                                    seen = true;
                                }
                                j = j + 1;
                            }
                            if !seen {
                                let weight = match uint_in(member_of(entry(body, "value"), "weight")) {
                                    Some(n) => n,
                                    None => 1,
                                };
                                assert(weight * 1_000_000 <= u64::MAX * 1_000_000) by (nonlinear_arith)
                                    requires
                                        weight <= u64::MAX,
                                ;
                                let e = TrustEdge {
                                    from,
                                    to: copy_text(to.as_str()),
                                    weight: Fixed6::from_scaled(weight as i128 * SCALE),
                                    age_days: 0,
                                };
                                out.push(e);
                                assert(out@.map_values(|e: TrustEdge| edge_view(e)) =~= prev.push(edge_view(e)));
                            }
                        }
                    },
                    _ => {},
                }
            },
            None => {},
        }
        i = i + 1;
    }
    assert(ks.take(cids.len() as int) =~= ks);
    out
}

/// The view of an optional string.
pub open spec fn opt_text(s: Option<String>) -> Option<Seq<char>> {
    match s {
        Some(x) => Some(x@),
        None => None,
    }
}

/// The keys of a list, as a set.
pub open spec fn key_set(s: Seq<String>) -> Set<Seq<char>> {
    keys_view(s).to_set()
}

/// The keys of a set kept as a table, in ascending order.
pub(crate) fn set_keys(t: &Table<bool>) -> (r: Vec<String>)
    ensures
        ascending_keys(r@),
        key_set(r@) == t.map().dom(),
{
    let r = t.keys();
    proof {
        assert forall|x: Seq<char>| key_set(r@).contains(x) <==> t.map().dom().contains(x) by {
            if keys_view(r@).contains(x) {
                let i = choose|i: int| 0 <= i < keys_view(r@).len() && keys_view(r@)[i] == x;
                assert(r@[i]@ == x);
            }
            if t.map().dom().contains(x) {
                let i = choose|i: int| 0 <= i < r.len() && (#[trigger] r@[i])@ == x;
                assert(keys_view(r@)[i] == x);
            }
        }
        assert(key_set(r@) =~= t.map().dom());
    }
    r
}

/// The authors of `verdict` annotations about `t` with finding `finding`,
/// among the objects under `keys`.
pub open spec fn finding_authors(
    keys: Seq<Seq<char>>,
    objs: Map<Seq<char>, Object>,
    t: Seq<char>,
    finding: Seq<char>,
) -> Set<Seq<char>>
    decreases keys.len(),
{
    if keys.len() == 0 {
        Set::empty()
    } else {
        let prev = finding_authors(keys.drop_last(), objs, t, finding);
        let k = keys.last();
        if objs.dom().contains(k) && annotates(objs[k]@, "verdict"@, t) && value_text(objs[k]@, "finding"@)
            == Some(finding) {
            prev.insert(cid_string(objs[k]@.author))
        } else {
            prev
        }
    }
}

/// The keys with a verdict of `finding` about `t`, in ascending order.
fn finding_keys(graph: &Graph, t: &str, finding: &str) -> (r: Vec<String>)
    ensures
        ascending_keys(r@),
        key_set(r@) == finding_authors(graph.object_keys(), graph.object_map(), t@, finding@),
{
    let cids = graph.cids();
    let ghost ks = graph.object_keys();
    let mut set: Table<bool> = Table::new();
    let mut i: usize = 0;
    assert(ks.take(0) =~= Seq::<Seq<char>>::empty());
    assert(set.map().dom() =~= Set::<Seq<char>>::empty());
    while i < cids.len()
        invariant
            i <= cids.len(),
            keys_view(cids@) == ks,
            ks == graph.object_keys(),
            set.map().dom() == finding_authors(ks.take(i as int), graph.object_map(), t@, finding@),
        decreases cids.len() - i,
    {
        assert(ks.take(i + 1).drop_last() =~= ks.take(i as int));
        assert(ks.take(i + 1).last() == cids@[i as int]@);
        match graph.object_at(cids[i].as_str()) {
            Some(o) => {
                if is_annotation(o, "verdict", t) && match value_field(o, "finding") {
                    Some(x) => text_eq(x, finding),
                    None => false,
                } {
                    set.put(cid_to_string(o.author()), true);
                }
            },
            None => {},
        }
        i = i + 1;
    }
    assert(ks.take(cids.len() as int) =~= ks);
    set_keys(&set)
}

/// Whether a recognized checker accepted a proof of `t`: some
/// `proof-checked` annotation about it reports `accepted`.
pub open spec fn proof_checked_in(keys: Seq<Seq<char>>, objs: Map<Seq<char>, Object>, t: Seq<char>) -> bool
    decreases keys.len(),
{
    if keys.len() == 0 {
        false
    } else {
        let k = keys.last();
        proof_checked_in(keys.drop_last(), objs, t) || (objs.dom().contains(k) && annotates(
            objs[k]@,
            "proof-checked"@,
            t,
        ) && value_text(objs[k]@, "result"@) == Some("accepted"@))
    }
}

fn proof_checked(graph: &Graph, t: &str) -> (r: bool)
    ensures
        r == proof_checked_in(graph.object_keys(), graph.object_map(), t@),
{
    let cids = graph.cids();
    let ghost ks = graph.object_keys();
    let mut found = false;
    let mut i: usize = 0;
    assert(ks.take(0) =~= Seq::<Seq<char>>::empty());
    while i < cids.len()
        invariant
            i <= cids.len(),
            keys_view(cids@) == ks,
            ks == graph.object_keys(),
            found == proof_checked_in(ks.take(i as int), graph.object_map(), t@),
        decreases cids.len() - i,
    {
        assert(ks.take(i + 1).drop_last() =~= ks.take(i as int));
        assert(ks.take(i + 1).last() == cids@[i as int]@);
        match graph.object_at(cids[i].as_str()) {
            Some(o) => {
                if is_annotation(o, "proof-checked", t) && match value_field(o, "result") {
                    Some(x) => text_eq(x, "accepted"),
                    None => false,
                } {
                    found = true;
                }
            },
            None => {},
        }
        i = i + 1;
    }
    assert(ks.take(cids.len() as int) =~= ks);
    found
}

/// The corpora cited by `usage` annotations about `t`. A citation names
/// where a term is used and need not reproduce the text.
pub open spec fn usage_in(keys: Seq<Seq<char>>, objs: Map<Seq<char>, Object>, t: Seq<char>) -> Set<Seq<char>>
    decreases keys.len(),
{
    if keys.len() == 0 {
        Set::empty()
    } else {
        let prev = usage_in(keys.drop_last(), objs, t);
        let k = keys.last();
        if objs.dom().contains(k) && annotates(objs[k]@, "usage"@, t) && value_text(objs[k]@, "source"@) is Some {
            prev.insert(value_text(objs[k]@, "source"@)->0)
        } else {
            prev
        }
    }
}

fn usage_sources(graph: &Graph, t: &str) -> (r: Vec<String>)
    ensures
        ascending_keys(r@),
        key_set(r@) == usage_in(graph.object_keys(), graph.object_map(), t@),
{
    let cids = graph.cids();
    let ghost ks = graph.object_keys();
    let mut set: Table<bool> = Table::new();
    let mut i: usize = 0;
    assert(ks.take(0) =~= Seq::<Seq<char>>::empty());
    assert(set.map().dom() =~= Set::<Seq<char>>::empty());
    while i < cids.len()
        invariant
            i <= cids.len(),
            keys_view(cids@) == ks,
            ks == graph.object_keys(),
            set.map().dom() == usage_in(ks.take(i as int), graph.object_map(), t@),
        decreases cids.len() - i,
    {
        assert(ks.take(i + 1).drop_last() =~= ks.take(i as int));
        assert(ks.take(i + 1).last() == cids@[i as int]@);
        match graph.object_at(cids[i].as_str()) {
            Some(o) => {
                if is_annotation(o, "usage", t) {
                    match value_field(o, "source") {
                        Some(x) => {
                            set.put(copy_text(x), true);
                        },
                        None => {},
                    }
                }
            },
            None => {},
        }
        i = i + 1;
    }
    assert(ks.take(cids.len() as int) =~= ks);
    set_keys(&set)
}

/// One filed reproduction, before independence has been decided:
/// independence is a relation between two reproductions, so reading and
/// deciding are separate passes.
struct Filed {
    author: Cid,
    outcome: String,
    shares_materials: bool,
    human: bool,
    funding: Option<String>,
}

/// A filed reproduction's author, outcome, shared-materials flag, whether
/// its author is a human principal, and its declared funding source.
pub type FiledView = ((HashAlg, Seq<u8>), Seq<char>, bool, bool, Option<Seq<char>>);

spec fn filed_view(f: Filed) -> FiledView {
    (f.author@, f.outcome@, f.shares_materials, f.human, opt_text(f.funding))
}

spec fn filed_views(fs: Seq<Filed>) -> Seq<FiledView> {
    fs.map_values(|f: Filed| filed_view(f))
}

/// Whether a key declares a human principal. A key whose object is
/// absent or does not read as a key is not human: a reproduction counted
/// toward a floor must be attributable to a person.
pub open spec fn human_key(g: Graph, author: (HashAlg, Seq<u8>)) -> bool {
    let k = cid_string(author);
    g.object_map().dom().contains(k) && match crate::graph::view::key_reading(
        author,
        g.object_map()[k]@.kind,
        g.object_map()[k]@.body,
    ) {
        Ok(kv) => kv.1 is Human,
        Err(_) => false,
    }
}

/// The `independence` block a reproduction declares, if any.
pub open spec fn independence_of(o: ObjectView) -> Option<Model> {
    match mlookup(o.body, "value"@) {
        Some(v) => mget(v, "independence"@),
        None => None,
    }
}

/// Whether a reproduction declares materials shared with another attempt.
pub open spec fn shares_spec(o: ObjectView) -> bool {
    match independence_of(o) {
        Some(i) => mget(i, "shared_materials"@) is Some,
        None => false,
    }
}

/// The funding source a reproduction declares, if any.
pub open spec fn funding_spec(o: ObjectView) -> Option<Seq<char>> {
    match independence_of(o) {
        Some(i) => mtext(mget(i, "funding"@)),
        None => None,
    }
}

/// The reproductions filed about `t`, in identifier order: each
/// `reproduction` annotation stating an outcome.
pub open spec fn filed_in(keys: Seq<Seq<char>>, g: Graph, t: Seq<char>) -> Seq<FiledView>
    decreases keys.len(),
{
    if keys.len() == 0 {
        Seq::empty()
    } else {
        let prev = filed_in(keys.drop_last(), g, t);
        let k = keys.last();
        if g.object_map().dom().contains(k) {
            let o = g.object_map()[k]@;
            if annotates(o, "reproduction"@, t) && value_text(o, "outcome"@) is Some {
                prev.push(
                    (o.author, value_text(o, "outcome"@)->0, shares_spec(o), human_key(g, o.author), funding_spec(o)),
                )
            } else {
                prev
            }
        } else {
            prev
        }
    }
}

fn authored_by_human(graph: &Graph, author: &Cid) -> (r: bool)
    ensures
        r == human_key(*graph, author@),
{
    match graph.object(author) {
        Some(o) => match crate::graph::view::Key::from_object(author.clone(), o) {
            Ok(k) => k.principal().is_human(),
            Err(_) => false,
        },
        None => false,
    }
}

/// Read one reproduction annotation: none without an outcome.
fn read_reproduction(graph: &Graph, o: &Object) -> (r: Option<Filed>)
    ensures
        match r {
            Some(f) => value_text(o@, "outcome"@) is Some && filed_view(f) == (
                o@.author,
                value_text(o@, "outcome"@)->0,
                shares_spec(o@),
                human_key(*graph, o@.author),
                funding_spec(o@),
            ),
            None => value_text(o@, "outcome"@) is None,
        },
{
    let value = entry(o.body(), "value");
    let outcome = match text_in(member_of(value, "outcome")) {
        Some(x) => x,
        None => return None,
    };
    let independence = member_of(value, "independence");
    let shares_materials = member_of(independence, "shared_materials").is_some();
    let funding = match text_in(member_of(independence, "funding")) {
        Some(x) => Some(copy_text(x)),
        None => None,
    };
    Some(
        Filed {
            author: o.author().clone(),
            outcome: copy_text(outcome),
            shares_materials,
            human: authored_by_human(graph, o.author()),
            funding,
        },
    )
}

/// The reproductions filed about `t`, in identifier order.
fn filed_reproductions(graph: &Graph, t: &str) -> (r: Vec<Filed>)
    ensures
        filed_views(r@) == filed_in(graph.object_keys(), *graph, t@),
{
    let cids = graph.cids();
    let ghost ks = graph.object_keys();
    let mut out: Vec<Filed> = Vec::new();
    let mut i: usize = 0;
    assert(ks.take(0) =~= Seq::<Seq<char>>::empty());
    assert(filed_views(out@) =~= Seq::empty());
    while i < cids.len()
        invariant
            i <= cids.len(),
            keys_view(cids@) == ks,
            ks == graph.object_keys(),
            filed_views(out@) == filed_in(ks.take(i as int), *graph, t@),
        decreases cids.len() - i,
    {
        assert(ks.take(i + 1).drop_last() =~= ks.take(i as int));
        assert(ks.take(i + 1).last() == cids@[i as int]@);
        match graph.object_at(cids[i].as_str()) {
            Some(o) => {
                if is_annotation(o, "reproduction", t) {
                    match read_reproduction(graph, o) {
                        Some(f) => {
                            let ghost before = filed_views(out@);
                            let ghost fv = filed_view(f);
                            out.push(f);
                            assert(filed_views(out@) =~= before.push(fv));
                        },
                        None => {},
                    }
                }
            },
            None => {},
        }
        i = i + 1;
    }
    assert(ks.take(cids.len() as int) =~= ks);
    out
}

/// A count that saturates at the largest `u32`.
pub open spec fn capped(n: nat) -> u32 {
    if n > u32::MAX {
        u32::MAX
    } else {
        n as u32
    }
}

/// How many filed reproductions have outcome `a` or `b`.
pub open spec fn count_outcomes(fs: Seq<FiledView>, a: Seq<char>, b: Seq<char>) -> nat
    decreases fs.len(),
{
    if fs.len() == 0 {
        0
    } else {
        count_outcomes(fs.drop_last(), a, b) + if fs.last().1 == a || fs.last().1 == b {
            1nat
        } else {
            0nat
        }
    }
}

fn count_filed(fs: &Vec<Filed>, a: &str, b: &str) -> (r: u32)
    ensures
        r == capped(count_outcomes(filed_views(fs@), a@, b@)),
{
    let ghost v = filed_views(fs@);
    let mut c: u32 = 0;
    let mut i: usize = 0;
    assert(v.take(0) =~= Seq::<FiledView>::empty());
    while i < fs.len()
        invariant
            i <= fs.len(),
            v == filed_views(fs@),
            c == capped(count_outcomes(v.take(i as int), a@, b@)),
        decreases fs.len() - i,
    {
        assert(v.take(i + 1).drop_last() =~= v.take(i as int));
        assert(v.take(i + 1).last() == filed_view(fs@[i as int]));
        if text_eq(fs[i].outcome.as_str(), a) || text_eq(fs[i].outcome.as_str(), b) {
            if c < u32::MAX {
                c = c + 1;
            }
        }
        i = i + 1;
    }
    assert(v.take(fs.len() as int) =~= v);
    c
}

/// The reproductions with `outcome` that count toward a floor: signed by
/// a human principal and declaring no shared materials.
pub open spec fn eligible(fs: Seq<FiledView>, outcome: Seq<char>) -> Seq<FiledView>
    decreases fs.len(),
{
    if fs.len() == 0 {
        Seq::empty()
    } else {
        let f = fs.last();
        if f.1 == outcome && f.3 && !f.2 {
            eligible(fs.drop_last(), outcome).push(f)
        } else {
            eligible(fs.drop_last(), outcome)
        }
    }
}

fn copy_filed(f: &Filed) -> (r: Filed)
    ensures
        filed_view(r) == filed_view(*f),
{
    Filed {
        author: f.author.clone(),
        outcome: copy_text(f.outcome.as_str()),
        shares_materials: f.shares_materials,
        human: f.human,
        funding: match &f.funding {
            Some(x) => Some(copy_text(x.as_str())),
            None => None,
        },
    }
}

fn eligible_filed(fs: &Vec<Filed>, outcome: &str) -> (r: Vec<Filed>)
    ensures
        filed_views(r@) == eligible(filed_views(fs@), outcome@),
{
    let ghost v = filed_views(fs@);
    let mut out: Vec<Filed> = Vec::new();
    let mut i: usize = 0;
    assert(v.take(0) =~= Seq::<FiledView>::empty());
    assert(filed_views(out@) =~= Seq::empty());
    while i < fs.len()
        invariant
            i <= fs.len(),
            v == filed_views(fs@),
            filed_views(out@) == eligible(v.take(i as int), outcome@),
        decreases fs.len() - i,
    {
        assert(v.take(i + 1).drop_last() =~= v.take(i as int));
        assert(v.take(i + 1).last() == filed_view(fs@[i as int]));
        if text_eq(fs[i].outcome.as_str(), outcome) && fs[i].human && !fs[i].shares_materials {
            let ghost before = filed_views(out@);
            let f = copy_filed(&fs[i]);
            let ghost fv = filed_view(f);
            out.push(f);
            assert(filed_views(out@) =~= before.push(fv));
        }
        i = i + 1;
    }
    assert(v.take(fs.len() as int) =~= v);
    out
}

/// A declared affiliation: organization and the bounds of its period.
pub type AffView = (Seq<char>, Option<Seq<char>>, Option<Seq<char>>);

/// A declared affiliation.
struct Affiliation {
    org: String,
    from: Option<String>,
    to: Option<String>,
}

spec fn aff_view(a: Affiliation) -> AffView {
    (a.org@, opt_text(a.from), opt_text(a.to))
}

spec fn aff_views(s: Seq<Affiliation>) -> Seq<AffView> {
    s.map_values(|a: Affiliation| aff_view(a))
}

/// The affiliations declared for the key with text `key` by `affiliated`
/// annotations naming an organization, in identifier order.
pub open spec fn affiliations_in(keys: Seq<Seq<char>>, objs: Map<Seq<char>, Object>, key: Seq<char>) -> Seq<
    AffView,
>
    decreases keys.len(),
{
    if keys.len() == 0 {
        Seq::empty()
    } else {
        let prev = affiliations_in(keys.drop_last(), objs, key);
        let k = keys.last();
        if objs.dom().contains(k) {
            let o = objs[k]@;
            let value = mlookup(o.body, "value"@);
            if annotates(o, "affiliated"@, key) && value is Some && mtext(mget(value->0, "org"@)) is Some {
                let period = mget(value->0, "period"@);
                prev.push(
                    (
                        mtext(mget(value->0, "org"@))->0,
                        match period {
                            Some(p) => mtext(mget(p, "from"@)),
                            None => None,
                        },
                        match period {
                            Some(p) => mtext(mget(p, "to"@)),
                            None => None,
                        },
                    ),
                )
            } else {
                prev
            }
        } else {
            prev
        }
    }
}

fn opt_copy(s: Option<&str>) -> (r: Option<String>)
    ensures
        opt_text(r) == sview(s),
{
    match s {
        Some(x) => Some(copy_text(x)),
        None => None,
    }
}

/// Affiliations declared for a key by `affiliated` annotations.
fn affiliations_of(graph: &Graph, key: &str) -> (r: Vec<Affiliation>)
    ensures
        aff_views(r@) == affiliations_in(graph.object_keys(), graph.object_map(), key@),
{
    let cids = graph.cids();
    let ghost ks = graph.object_keys();
    let mut out: Vec<Affiliation> = Vec::new();
    let mut i: usize = 0;
    assert(ks.take(0) =~= Seq::<Seq<char>>::empty());
    assert(aff_views(out@) =~= Seq::empty());
    while i < cids.len()
        invariant
            i <= cids.len(),
            keys_view(cids@) == ks,
            ks == graph.object_keys(),
            aff_views(out@) == affiliations_in(ks.take(i as int), graph.object_map(), key@),
        decreases cids.len() - i,
    {
        assert(ks.take(i + 1).drop_last() =~= ks.take(i as int));
        assert(ks.take(i + 1).last() == cids@[i as int]@);
        match graph.object_at(cids[i].as_str()) {
            Some(o) => {
                if is_annotation(o, "affiliated", key) {
                    match entry(o.body(), "value") {
                        Some(v) => match text_in(member(v, "org")) {
                            Some(org) => {
                                let period = member(v, "period");
                                let a = Affiliation {
                                    org: copy_text(org),
                                    from: opt_copy(text_in(member_of(period, "from"))),
                                    to: opt_copy(text_in(member_of(period, "to"))),
                                };
                                let ghost before = aff_views(out@);
                                let ghost av = aff_view(a);
                                out.push(a);
                                assert(aff_views(out@) =~= before.push(av));
                            },
                            None => {},
                        },
                        None => {},
                    }
                }
            },
            None => {},
        }
        i = i + 1;
    }
    assert(ks.take(cids.len() as int) =~= ks);
    out
}

/// Text order: `a` sorts no later than `b`.
pub open spec fn text_le(a: Seq<char>, b: Seq<char>) -> bool {
    a == b || crate::cbor::lex_lt(vstd::utf8::encode_utf8(a), vstd::utf8::encode_utf8(b))
}

fn text_at_most(a: &str, b: &str) -> (r: bool)
    ensures
        r == text_le(a@, b@),
{
    text_eq(a, b) || crate::cbor::lex_less_bytes(a.as_bytes(), b.as_bytes())
}

/// Whether two affiliations name one organization over overlapping
/// periods. An absent bound is open: someone who has not said when they
/// left is still there, so an undisclosed end date does not manufacture
/// independence.
pub open spec fn overlap(a: AffView, b: AffView) -> bool {
    let a_from = match a.1 {
        Some(x) => x,
        None => Seq::empty(),
    };
    let b_from = match b.1 {
        Some(x) => x,
        None => Seq::empty(),
    };
    let a_to = match a.2 {
        Some(x) => x,
        None => seq!['~'],
    };
    let b_to = match b.2 {
        Some(x) => x,
        None => seq!['~'],
    };
    a.0 == b.0 && text_le(a_from, b_to) && text_le(b_from, a_to)
}

fn overlaps(a: &Affiliation, b: &Affiliation) -> (r: bool)
    ensures
        r == overlap(aff_view(*a), aff_view(*b)),
{
    proof {
        reveal_strlit("");
        reveal_strlit("~");
    }
    if !text_eq(a.org.as_str(), b.org.as_str()) {
        return false;
    }
    let a_from = match &a.from {
        Some(x) => x.as_str(),
        None => "",
    };
    let b_from = match &b.from {
        Some(x) => x.as_str(),
        None => "",
    };
    let a_to = match &a.to {
        Some(x) => x.as_str(),
        None => "~",
    };
    let b_to = match &b.to {
        Some(x) => x.as_str(),
        None => "~",
    };
    assert(""@ =~= Seq::<char>::empty());
    assert("~"@ =~= seq!['~']);
    text_at_most(a_from, b_to) && text_at_most(b_from, a_to)
}

/// Whether two lists of affiliations share one.
pub open spec fn shares_affiliation(l: Seq<AffView>, r: Seq<AffView>) -> bool {
    exists|i: int, j: int| 0 <= i < l.len() && 0 <= j < r.len() && overlap(#[trigger] l[i], #[trigger] r[j])
}

fn shares_any(l: &Vec<Affiliation>, r: &Vec<Affiliation>) -> (b: bool)
    ensures
        b == shares_affiliation(aff_views(l@), aff_views(r@)),
{
    let ghost lv = aff_views(l@);
    let ghost rv = aff_views(r@);
    let mut i: usize = 0;
    while i < l.len()
        invariant
            i <= l.len(),
            lv == aff_views(l@),
            rv == aff_views(r@),
            forall|a: int, b: int| 0 <= a < i && 0 <= b < rv.len() ==> !overlap(#[trigger] lv[a], #[trigger] rv[b]),
        decreases l.len() - i,
    {
        let mut j: usize = 0;
        while j < r.len()
            invariant
                j <= r.len(),
                i < l.len(),
                lv == aff_views(l@),
                rv == aff_views(r@),
                forall|a: int, b: int|
                    0 <= a < i && 0 <= b < rv.len() ==> !overlap(#[trigger] lv[a], #[trigger] rv[b]),
                forall|b: int| 0 <= b < j ==> !overlap(lv[i as int], #[trigger] rv[b]),
            decreases r.len() - j,
        {
            assert(lv[i as int] == aff_view(l@[i as int]));
            assert(rv[j as int] == aff_view(r@[j as int]));
            if overlaps(&l[i], &r[j]) {
                assert(overlap(lv[i as int], rv[j as int]));
                return true;
            }
            j = j + 1;
        }
        i = i + 1;
    }
    false
}

/// The pairs of keys that `attests` annotations declare to be one person
/// (`same-person-as`), as (subject, about), in identifier order.
pub open spec fn attested_in(keys: Seq<Seq<char>>, objs: Map<Seq<char>, Object>) -> Seq<Link>
    decreases keys.len(),
{
    if keys.len() == 0 {
        Seq::empty()
    } else {
        let prev = attested_in(keys.drop_last(), objs);
        let k = keys.last();
        if objs.dom().contains(k) {
            let o = objs[k]@;
            if o.kind == "ann"@ && body_text(o, "kind"@) == Some("attests"@) && body_text(o, "target"@) is Some
                && value_text(o, "claim"@) == Some("same-person-as"@) && value_text(o, "about"@) is Some {
                prev.push((body_text(o, "target"@)->0, value_text(o, "about"@)->0))
            } else {
                prev
            }
        } else {
            prev
        }
    }
}

fn attested_pairs(graph: &Graph) -> (r: Vec<(String, String)>)
    ensures
        links_view(r@) == attested_in(graph.object_keys(), graph.object_map()),
{
    let cids = graph.cids();
    let ghost ks = graph.object_keys();
    let mut out: Vec<(String, String)> = Vec::new();
    let mut i: usize = 0;
    assert(ks.take(0) =~= Seq::<Seq<char>>::empty());
    assert(links_view(out@) =~= Seq::empty());
    while i < cids.len()
        invariant
            i <= cids.len(),
            keys_view(cids@) == ks,
            ks == graph.object_keys(),
            links_view(out@) == attested_in(ks.take(i as int), graph.object_map()),
        decreases cids.len() - i,
    {
        assert(ks.take(i + 1).drop_last() =~= ks.take(i as int));
        assert(ks.take(i + 1).last() == cids@[i as int]@);
        match graph.object_at(cids[i].as_str()) {
            Some(o) => {
                let body = o.body();
                if text_eq(o.kind(), "ann") && match text_in(entry(body, "kind")) {
                    Some(k) => text_eq(k, "attests"),
                    None => false,
                } && match value_field(o, "claim") {
                    Some(c) => text_eq(c, "same-person-as"),
                    None => false,
                } {
                    match (text_in(entry(body, "target")), value_field(o, "about")) {
                        (Some(subject), Some(about)) => {
                            let ghost before = links_view(out@);
                            out.push((copy_text(subject), copy_text(about)));
                            assert(links_view(out@) =~= before.push((subject@, about@)));
                        },
                        _ => {},
                    }
                }
            },
            None => {},
        }
        i = i + 1;
    }
    assert(ks.take(cids.len() as int) =~= ks);
    out
}

/// Whether a declared link makes two keys one person, in either direction.
pub open spec fn same_person(att: Seq<Link>, a: Seq<char>, b: Seq<char>) -> bool {
    att.contains((a, b)) || att.contains((b, a))
}

fn holds_pair(att: &Vec<(String, String)>, a: &str, b: &str) -> (r: bool)
    ensures
        r == links_view(att@).contains((a@, b@)),
{
    let ghost v = links_view(att@);
    let mut i: usize = 0;
    while i < att.len()
        invariant
            i <= att.len(),
            v == links_view(att@),
            forall|j: int| 0 <= j < i ==> (#[trigger] v[j]) != (a@, b@),
        decreases att.len() - i,
    {
        assert(v[i as int] == (att@[i as int].0@, att@[i as int].1@));
        if text_eq(att[i].0.as_str(), a) && text_eq(att[i].1.as_str(), b) {
            return true;
        }
        i = i + 1;
    }
    false
}

/// Whether two filed reproductions are not independent: one author, a
/// shared affiliation, keys declared to be one person, or one declared
/// funding source.
pub open spec fn related(fs: Seq<FiledView>, affs: Seq<Seq<AffView>>, att: Seq<Link>, i: int, j: int) -> bool {
    ||| fs[i].0 == fs[j].0
    ||| shares_affiliation(affs[i], affs[j])
    ||| same_person(att, cid_string(fs[i].0), cid_string(fs[j].0))
    ||| (fs[i].4 is Some && fs[i].4 == fs[j].4)
}

spec fn aff_lists(s: Seq<Vec<Affiliation>>) -> Seq<Seq<AffView>> {
    s.map_values(|v: Vec<Affiliation>| aff_views(v@))
}

fn related_at(
    fs: &Vec<Filed>,
    affs: &Vec<Vec<Affiliation>>,
    att: &Vec<(String, String)>,
    i: usize,
    j: usize,
) -> (r: bool)
    requires
        i < fs.len(),
        j < fs.len(),
        affs.len() == fs.len(),
    ensures
        r == related(filed_views(fs@), aff_lists(affs@), links_view(att@), i as int, j as int),
{
    let ghost fv = filed_views(fs@);
    assert(fv[i as int] == filed_view(fs@[i as int]));
    assert(fv[j as int] == filed_view(fs@[j as int]));
    assert(aff_lists(affs@)[i as int] == aff_views(affs@[i as int]@));
    assert(aff_lists(affs@)[j as int] == aff_views(affs@[j as int]@));
    if fs[i].author.same(&fs[j].author) {
        return true;
    }
    if shares_any(&affs[i], &affs[j]) {
        return true;
    }
    let a = cid_to_string(&fs[i].author);
    let b = cid_to_string(&fs[j].author);
    if holds_pair(att, a.as_str(), b.as_str()) || holds_pair(att, b.as_str(), a.as_str()) {
        return true;
    }
    match (&fs[i].funding, &fs[j].funding) {
        (Some(x), Some(y)) => text_eq(x.as_str(), y.as_str()),
        _ => false,
    }
}

/// The links from `i` to each related `j` below `m`.
pub open spec fn row_links(fs: Seq<FiledView>, affs: Seq<Seq<AffView>>, att: Seq<Link>, i: int, m: int) -> Seq<
    (usize, usize),
>
    decreases m,
{
    if m <= 0 {
        Seq::empty()
    } else if related(fs, affs, att, i, m - 1) {
        row_links(fs, affs, att, i, m - 1).push((i as usize, (m - 1) as usize))
    } else {
        row_links(fs, affs, att, i, m - 1)
    }
}

/// The links between related reproductions, row by row for the first `m`.
pub open spec fn rel_links(fs: Seq<FiledView>, affs: Seq<Seq<AffView>>, att: Seq<Link>, m: int) -> Seq<
    (usize, usize),
>
    decreases m,
{
    if m <= 0 {
        Seq::empty()
    } else {
        rel_links(fs, affs, att, m - 1) + row_links(fs, affs, att, m - 1, fs.len() as int)
    }
}

/// How many of the first `m` reproductions reach no earlier one: with a
/// symmetric relation, one per group of mutually dependent reproductions.
pub open spec fn parties(ls: Seq<(usize, usize)>, m: int) -> nat
    decreases m,
{
    if m <= 0 {
        0
    } else {
        parties(ls, m - 1) + if forall|j: usize| j < m - 1 ==> !#[trigger] reach(ls, (m - 1) as usize, j) {
            1nat
        } else {
            0nat
        }
    }
}

/// The affiliations of each filed reproduction's author.
pub open spec fn affs_spec(g: Graph, fs: Seq<FiledView>) -> Seq<Seq<AffView>> {
    fs.map_values(|f: FiledView| affiliations_in(g.object_keys(), g.object_map(), cid_string(f.0)))
}

/// How many mutually independent parties the reproductions represent.
/// Being related merges transitively: if A and B share a laboratory and
/// B and C share a grant, all three are one party.
pub open spec fn groups_spec(g: Graph, fs: Seq<FiledView>) -> nat {
    parties(
        rel_links(fs, affs_spec(g, fs), attested_in(g.object_keys(), g.object_map()), fs.len() as int),
        fs.len() as int,
    )
}

fn independent_groups(graph: &Graph, fs: &Vec<Filed>, att: &Vec<(String, String)>) -> (r: usize)
    requires
        links_view(att@) == attested_in(graph.object_keys(), graph.object_map()),
    ensures
        r == groups_spec(*graph, filed_views(fs@)),
{
    let n = fs.len();
    let ghost fv = filed_views(fs@);
    let ghost av = affs_spec(*graph, fv);
    let ghost tv = links_view(att@);
    let mut affs: Vec<Vec<Affiliation>> = Vec::new();
    let mut k: usize = 0;
    while k < n
        invariant
            k <= n,
            n == fs.len(),
            fv == filed_views(fs@),
            av == affs_spec(*graph, fv),
            affs.len() == k,
            forall|t: int| 0 <= t < k ==> aff_views((#[trigger] affs@[t])@) == av[t],
        decreases n - k,
    {
        assert(fv[k as int] == filed_view(fs@[k as int]));
        let key = cid_to_string(&fs[k].author);
        affs.push(affiliations_of(graph, key.as_str()));
        k = k + 1;
    }
    assert(aff_lists(affs@) =~= av);
    let mut links: Vec<(usize, usize)> = Vec::new();
    let mut i: usize = 0;
    assert(links@ =~= rel_links(fv, av, tv, 0));
    while i < n
        invariant
            i <= n,
            n == fs.len(),
            fv == filed_views(fs@),
            fv.len() == n,
            affs.len() == n,
            aff_lists(affs@) == av,
            tv == links_view(att@),
            links@ == rel_links(fv, av, tv, i as int),
        decreases n - i,
    {
        let mut j: usize = 0;
        assert(links@ =~= rel_links(fv, av, tv, i as int) + row_links(fv, av, tv, i as int, 0));
        while j < n
            invariant
                i < n,
                j <= n,
                n == fs.len(),
                fv == filed_views(fs@),
                affs.len() == n,
                aff_lists(affs@) == av,
                tv == links_view(att@),
                links@ == rel_links(fv, av, tv, i as int) + row_links(fv, av, tv, i as int, j as int),
            decreases n - j,
        {
            if related_at(fs, &affs, att, i, j) {
                links.push((i, j));
                assert(links@ =~= rel_links(fv, av, tv, i as int) + row_links(fv, av, tv, i as int, j + 1));
            }
            j = j + 1;
        }
        i = i + 1;
    }
    let mut count: usize = 0;
    let mut s: usize = 0;
    while s < n
        invariant
            s <= n,
            count <= s,
            count == parties(links@, s as int),
        decreases n - s,
    {
        let group = index_closure(&links, s);
        let mut least = true;
        let mut q: usize = 0;
        while q < group.len()
            invariant
                q <= group.len(),
                least <==> forall|x: int| 0 <= x < q ==> group@[x] >= s,
            decreases group.len() - q,
        {
            if group[q] < s {
                least = false;
            }
            q = q + 1;
        }
        proof {
            if least {
                assert forall|j: usize| j < s implies !reach(links@, s, j) by {
                    if reach(links@, s, j) {
                        assert(group@.contains(j));
                        let x = choose|x: int| 0 <= x < group.len() && group@[x] == j;
                        assert(group@[x] >= s);
                    }
                }
            } else {
                let x = choose|x: int| 0 <= x < group.len() && !(group@[x] >= s);
                assert(group@.contains(group@[x]));
                assert(reach(links@, s, group@[x]));
            }
            assert((s + 1 - 1) as usize == s);
        }
        if least {
            count = count + 1;
        }
        s = s + 1;
    }
    count
}

fn cap(n: usize) -> (r: u32)
    ensures
        r == capped(n as nat),
{
    if n > 4294967295usize {
        u32::MAX
    } else {
        n as u32
    }
}

/// The independent parties among the eligible reproductions with
/// `outcome`.
pub open spec fn party_count(g: Graph, fs: Seq<FiledView>, outcome: Seq<char>) -> nat {
    groups_spec(g, eligible(fs, outcome))
}

/// Reproduction counts: each outcome counted, and the independent parties
/// among the eligible consistent and inconsistent ones.
pub open spec fn tally_spec(g: Graph, fs: Seq<FiledView>) -> Reproductions {
    Reproductions {
        consistent: capped(count_outcomes(fs, "consistent"@, "consistent"@)),
        inconsistent: capped(count_outcomes(fs, "inconsistent"@, "inconsistent"@)),
        inconclusive: capped(count_outcomes(fs, "inconclusive"@, "method-underspecified"@)),
        independent_consistent: capped(party_count(g, fs, "consistent"@)),
        independent_inconsistent: capped(party_count(g, fs, "inconsistent"@)),
    }
}

/// Count reproductions, deciding independence between them. The
/// affiliation rule is what distinguishes four replications by one
/// consortium from four independent ones: a set of colleagues contributes
/// one, not one each.
fn tally(graph: &Graph, filed: &Vec<Filed>) -> (r: Reproductions)
    ensures
        r == tally_spec(*graph, filed_views(filed@)),
{
    let att = attested_pairs(graph);
    let consistent = eligible_filed(filed, "consistent");
    let inconsistent = eligible_filed(filed, "inconsistent");
    let ic = independent_groups(graph, &consistent, &att);
    let ii = independent_groups(graph, &inconsistent, &att);
    Reproductions {
        consistent: count_filed(filed, "consistent", "consistent"),
        inconsistent: count_filed(filed, "inconsistent", "inconsistent"),
        inconclusive: count_filed(filed, "inconclusive", "method-underspecified"),
        independent_consistent: cap(ic),
        independent_inconsistent: cap(ii),
    }
}

/// The texts among a list of items.
pub open spec fn text_items(items: Seq<Model>) -> Set<Seq<char>>
    decreases items.len(),
{
    if items.len() == 0 {
        Set::empty()
    } else {
        match items.last() {
            Model::Text(x) => text_items(items.drop_last()).insert(x),
            _ => text_items(items.drop_last()),
        }
    }
}

/// Grounds already covered by a resolution of `t`: those listed by a
/// `resolution` whose outcome is `sustained`. A `no-consensus` resolution
/// settles nothing; its grounds remain live.
pub open spec fn settled_in(keys: Seq<Seq<char>>, objs: Map<Seq<char>, Object>, t: Seq<char>) -> Set<Seq<char>>
    decreases keys.len(),
{
    if keys.len() == 0 {
        Set::empty()
    } else {
        let prev = settled_in(keys.drop_last(), objs, t);
        let k = keys.last();
        if objs.dom().contains(k) && annotates(objs[k]@, "resolution"@, t) && value_text(objs[k]@, "outcome"@)
            == Some("sustained"@) {
            match mlookup(objs[k]@.body, "value"@) {
                Some(v) => match mitems(mget(v, "grounds"@)) {
                    Some(items) => prev.union(text_items(items)),
                    None => prev,
                },
                None => prev,
            }
        } else {
            prev
        }
    }
}

/// Add the texts among `items` to a set.
fn add_texts(set: &mut Table<bool>, items: &Vec<Value>)
    ensures
        final(set).map().dom() == old(set).map().dom().union(text_items(models(items@))),
{
    let ghost start = set.map().dom();
    let ghost ms = models(items@);
    let mut j: usize = 0;
    proof {
        crate::cbor::encode::lemma_models_len(items@);
    }
    assert(ms.take(0) =~= Seq::<Model>::empty());
    assert(start.union(text_items(ms.take(0))) =~= start);
    while j < items.len()
        invariant
            j <= items.len(),
            ms == models(items@),
            ms.len() == items.len(),
            set.map().dom() == start.union(text_items(ms.take(j as int))),
        decreases items.len() - j,
    {
        proof {
            lemma_models_index(items@, j as int);
        }
        assert(ms.take(j + 1).drop_last() =~= ms.take(j as int));
        assert(ms.take(j + 1).last() == model(items@[j as int]));
        match &items[j] {
            Value::Text(x) => {
                set.put(copy_text(x.as_str()), true);
                assert(set.map().dom() =~= start.union(text_items(ms.take(j + 1))));
            },
            _ => {
                assert(set.map().dom() =~= start.union(text_items(ms.take(j + 1))));
            },
        }
        j = j + 1;
    }
    assert(ms.take(items.len() as int) =~= ms);
}

fn settled_grounds(graph: &Graph, t: &str) -> (r: Vec<String>)
    ensures
        ascending_keys(r@),
        key_set(r@) == settled_in(graph.object_keys(), graph.object_map(), t@),
{
    let cids = graph.cids();
    let ghost ks = graph.object_keys();
    let mut set: Table<bool> = Table::new();
    let mut i: usize = 0;
    assert(ks.take(0) =~= Seq::<Seq<char>>::empty());
    assert(set.map().dom() =~= Set::<Seq<char>>::empty());
    while i < cids.len()
        invariant
            i <= cids.len(),
            keys_view(cids@) == ks,
            ks == graph.object_keys(),
            set.map().dom() == settled_in(ks.take(i as int), graph.object_map(), t@),
        decreases cids.len() - i,
    {
        assert(ks.take(i + 1).drop_last() =~= ks.take(i as int));
        assert(ks.take(i + 1).last() == cids@[i as int]@);
        match graph.object_at(cids[i].as_str()) {
            Some(o) => {
                if is_annotation(o, "resolution", t) && match value_field(o, "outcome") {
                    Some(x) => text_eq(x, "sustained"),
                    None => false,
                } {
                    match items_in(member_of(entry(o.body(), "value"), "grounds")) {
                        Some(items) => add_texts(&mut set, items),
                        None => {},
                    }
                }
            },
            None => {},
        }
        i = i + 1;
    }
    assert(ks.take(cids.len() as int) =~= ks);
    set_keys(&set)
}

/// Whether a dispute from `x` counts: it names a publet stating grounds,
/// which separates an argument from an objection, and its grounds are not
/// already covered by a resolution.
pub open spec fn argued_from(g: Graph, settled: Set<Seq<char>>, x: Seq<char>) -> bool {
    &&& g.publet_map().dom().contains(x)
    &&& !settled.contains(x)
    &&& g.object_map().dom().contains(x)
}

/// The authors of the disputes of `t` that count.
pub open spec fn argued_spec(g: Graph, t: Seq<char>) -> Set<Seq<char>> {
    let settled = settled_in(g.object_keys(), g.object_map(), t);
    Set::new(
        |a: Seq<char>|
            exists|x: Seq<char>|
                #[trigger] kind_links(g.edge_list(), RelationKind::Disputes).contains((x, t)) && argued_from(
                    g,
                    settled,
                    x,
                ) && cid_string(g.object_map()[x]@.author) == a,
    )
}

fn argued_disputes(graph: &Graph, target: &Cid) -> (r: Vec<String>)
    ensures
        ascending_keys(r@),
        key_set(r@) == argued_spec(*graph, cid_string(target@)),
{
    let ghost t = cid_string(target@);
    let settled = settled_grounds(graph, cid_to_string(target).as_str());
    let ghost sv = settled_in(graph.object_keys(), graph.object_map(), t);
    let from = graph.incoming(RelationKind::Disputes, target);
    let ghost xs = keys_view(from@);
    let mut set: Table<bool> = Table::new();
    let mut i: usize = 0;
    while i < from.len()
        invariant
            i <= from.len(),
            xs == keys_view(from@),
            key_set(settled@) == sv,
            forall|a: Seq<char>|
                set.map().dom().contains(a) <==> exists|j: int|
                    0 <= j < i && argued_from(*graph, sv, #[trigger] xs[j]) && cid_string(
                        graph.object_map()[xs[j]]@.author,
                    ) == a,
        decreases from.len() - i,
    {
        assert(xs[i as int] == from@[i as int]@);
        let ghost before = set.map().dom();
        if graph.publet_at(from[i].as_str()).is_some() && !holds(&settled, from[i].as_str()) {
            match graph.object_at(from[i].as_str()) {
                Some(o) => {
                    set.put(cid_to_string(o.author()), true);
                },
                None => {},
            }
        }
        assert forall|a: Seq<char>|
            set.map().dom().contains(a) <==> exists|j: int|
                0 <= j < i + 1 && argued_from(*graph, sv, #[trigger] xs[j]) && cid_string(
                    graph.object_map()[xs[j]]@.author,
                ) == a by {
            if exists|j: int|
                0 <= j < i + 1 && argued_from(*graph, sv, #[trigger] xs[j]) && cid_string(
                    graph.object_map()[xs[j]]@.author,
                ) == a {
                let j = choose|j: int|
                    0 <= j < i + 1 && argued_from(*graph, sv, #[trigger] xs[j]) && cid_string(
                        graph.object_map()[xs[j]]@.author,
                    ) == a;
                if j < i {
                    assert(before.contains(a));
                }
            }
            if set.map().dom().contains(a) && !before.contains(a) {
                assert(argued_from(*graph, sv, xs[i as int]));
            }
        }
        i = i + 1;
    }
    proof {
        assert forall|a: Seq<char>| set.map().dom().contains(a) <==> argued_spec(*graph, t).contains(a) by {
            if set.map().dom().contains(a) {
                let j = choose|j: int|
                    0 <= j < from.len() && argued_from(*graph, sv, #[trigger] xs[j]) && cid_string(
                        graph.object_map()[xs[j]]@.author,
                    ) == a;
                assert(keys_view(from@).contains(xs[j]));
                assert(kind_links(graph.edge_list(), RelationKind::Disputes).contains((xs[j], t)));
            }
            if argued_spec(*graph, t).contains(a) {
                let x = choose|x: Seq<char>|
                    #[trigger] kind_links(graph.edge_list(), RelationKind::Disputes).contains((x, t))
                        && argued_from(*graph, sv, x) && cid_string(graph.object_map()[x]@.author) == a;
                assert(keys_view(from@).contains(x));
                let j = choose|j: int| 0 <= j < xs.len() && xs[j] == x;
                assert(argued_from(*graph, sv, xs[j]));
            }
        }
        assert(set.map().dom() =~= argued_spec(*graph, t));
    }
    set_keys(&set)
}

/// Whether `t` is retracted: a retraction is authoritative only from a
/// key that signed the target.
pub open spec fn retracted_spec(g: Graph, t: Seq<char>) -> bool {
    g.object_map().dom().contains(t) && exists|x: Seq<char>|
        #[trigger] kind_links(g.edge_list(), RelationKind::Retracts).contains((x, t)) && g.object_map().dom().contains(
            x,
        ) && cid_string(g.object_map()[x]@.author) == cid_string(g.object_map()[t]@.author)
}

fn retracted(graph: &Graph, target: &Cid) -> (r: bool)
    ensures
        r == retracted_spec(*graph, cid_string(target@)),
{
    let ghost t = cid_string(target@);
    let author = match graph.object(target) {
        Some(o) => cid_to_string(o.author()),
        None => return false,
    };
    let from = graph.incoming(RelationKind::Retracts, target);
    let ghost xs = keys_view(from@);
    let mut i: usize = 0;
    while i < from.len()
        invariant
            i <= from.len(),
            xs == keys_view(from@),
            graph.object_map().dom().contains(t),
            author@ == cid_string(graph.object_map()[t]@.author),
            t == cid_string(target@),
            forall|x: Seq<char>|
                keys_view(from@).contains(x) <==> kind_links(graph.edge_list(), RelationKind::Retracts).contains(
                    (x, cid_string(target@)),
                ),
            forall|j: int|
                0 <= j < i ==> !(graph.object_map().dom().contains(#[trigger] xs[j]) && cid_string(
                    graph.object_map()[xs[j]]@.author,
                ) == author@),
        decreases from.len() - i,
    {
        assert(xs[i as int] == from@[i as int]@);
        match graph.object_at(from[i].as_str()) {
            Some(o) => {
                if text_eq(cid_to_string(o.author()).as_str(), author.as_str()) {
                    assert(keys_view(from@).contains(xs[i as int]));
                    assert(kind_links(graph.edge_list(), RelationKind::Retracts).contains((xs[i as int], t)));
                    return true;
                }
            },
            None => {},
        }
        i = i + 1;
    }
    proof {
        if retracted_spec(*graph, t) {
            let x = choose|x: Seq<char>|
                #[trigger] kind_links(graph.edge_list(), RelationKind::Retracts).contains((x, t))
                    && graph.object_map().dom().contains(x) && cid_string(graph.object_map()[x]@.author)
                    == cid_string(graph.object_map()[t]@.author);
            assert(keys_view(from@).contains(x));
            let j = choose|j: int| 0 <= j < xs.len() && xs[j] == x;
            assert(graph.object_map().dom().contains(xs[j]));
        }
    }
    false
}

/// Whether `e` is the evidence the graph holds bearing on `target`, as
/// [`evidence_for`] gathers it.
pub open spec fn gathered(graph: Graph, target: (HashAlg, Seq<u8>), e: Evidence) -> bool {
    let t = cid_string(target);
    &&& ascending_keys(e.affirm@)
    &&& key_set(e.affirm@) == finding_authors(graph.object_keys(), graph.object_map(), t, "affirm"@)
    &&& ascending_keys(e.deny@)
    &&& key_set(e.deny@) == finding_authors(graph.object_keys(), graph.object_map(), t, "deny"@)
    &&& ascending_keys(e.abstain@)
    &&& key_set(e.abstain@) == finding_authors(graph.object_keys(), graph.object_map(), t, "abstain"@)
    &&& e.proof_checked == proof_checked_in(graph.object_keys(), graph.object_map(), t)
    &&& ascending_keys(e.usage@)
    &&& key_set(e.usage@) == usage_in(graph.object_keys(), graph.object_map(), t)
    &&& e.reproductions == tally_spec(graph, filed_in(graph.object_keys(), graph, t))
    &&& ascending_keys(e.argued_disputes@)
    &&& key_set(e.argued_disputes@) == argued_spec(graph, t)
    &&& e.retracted == retracted_spec(graph, t)
    &&& e.reproducibility == reproducibility_spec(graph, target)
    &&& e.assessments@.len() == 0
}

/// Gather the evidence bearing on `target`.
///
/// Annotations are attributed to their signing key rather than counted,
/// so that the evaluation can weight them and count each signer once.
/// Every key list is a set, in ascending order. Nothing here reads triage.
pub fn evidence_for(graph: &Graph, target: &Cid) -> (e: Evidence)
    ensures
        ascending_keys(e.affirm@),
        key_set(e.affirm@) == finding_authors(
            graph.object_keys(),
            graph.object_map(),
            cid_string(target@),
            "affirm"@,
        ),
        ascending_keys(e.deny@),
        key_set(e.deny@) == finding_authors(graph.object_keys(), graph.object_map(), cid_string(target@), "deny"@),
        ascending_keys(e.abstain@),
        key_set(e.abstain@) == finding_authors(
            graph.object_keys(),
            graph.object_map(),
            cid_string(target@),
            "abstain"@,
        ),
        e.proof_checked == proof_checked_in(graph.object_keys(), graph.object_map(), cid_string(target@)),
        ascending_keys(e.usage@),
        key_set(e.usage@) == usage_in(graph.object_keys(), graph.object_map(), cid_string(target@)),
        e.reproductions == tally_spec(*graph, filed_in(graph.object_keys(), *graph, cid_string(target@))),
        ascending_keys(e.argued_disputes@),
        key_set(e.argued_disputes@) == argued_spec(*graph, cid_string(target@)),
        e.retracted == retracted_spec(*graph, cid_string(target@)),
        e.reproducibility == reproducibility_spec(*graph, target@),
        e.assessments@.len() == 0,
        gathered(*graph, target@, e),
{
    let t = cid_to_string(target);
    let filed = filed_reproductions(graph, t.as_str());
    Evidence {
        affirm: finding_keys(graph, t.as_str(), "affirm"),
        deny: finding_keys(graph, t.as_str(), "deny"),
        abstain: finding_keys(graph, t.as_str(), "abstain"),
        argued_disputes: argued_disputes(graph, target),
        proof_checked: proof_checked(graph, t.as_str()),
        reproductions: tally(graph, &filed),
        reproducibility: reproducibility_of(graph, target),
        retracted: retracted(graph, target),
        assessments: Vec::new(),
        usage: usage_sources(graph, t.as_str()),
    }
}

proof fn lemma_eligible_skips(fs: Seq<FiledView>, f: FiledView, i: int, outcome: Seq<char>)
    requires
        0 <= i <= fs.len(),
        f.2 || !f.3,
    ensures
        eligible(fs.insert(i, f), outcome) == eligible(fs, outcome),
    decreases fs.len(),
{
    let g = fs.insert(i, f);
    if i == fs.len() {
        assert(g.drop_last() =~= fs);
        assert(g.last() == f);
    } else {
        assert(g.drop_last() =~= fs.drop_last().insert(i, f));
        assert(g.last() == fs.last());
        lemma_eligible_skips(fs.drop_last(), f, i, outcome);
    }
}

/// A reproduction that declares materials shared with another attempt, or
/// that was not filed by a key held by a human, is never an independent
/// one: filing it anywhere among the others leaves both independent
/// counts as they were.
pub proof fn law_shared_materials_never_independent(g: Graph, fs: Seq<FiledView>, f: FiledView, i: int)
    requires
        0 <= i <= fs.len(),
        f.2 || !f.3,
    ensures
        tally_spec(g, fs.insert(i, f)).independent_consistent == tally_spec(g, fs).independent_consistent,
        tally_spec(g, fs.insert(i, f)).independent_inconsistent == tally_spec(g, fs).independent_inconsistent,
{
    lemma_eligible_skips(fs, f, i, "consistent"@);
    lemma_eligible_skips(fs, f, i, "inconsistent"@);
}

} // verus!
