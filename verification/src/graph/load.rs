//! Building a graph from objects in hand.
//!
//! Every object is verified against the identifier it is filed under
//! before it is indexed, and objects the graph refuses on a first pass are
//! retried once everything else is in, so arrival order does not decide
//! validity.

use crate::cid::digest_of;
use crate::eval::vector::{object_from, object_refused, parse_object};
use crate::fields::{cid_string, cid_to_string};
use crate::graph::error::GraphError;
use crate::graph::graph::{insert_fault, inserted, validation, Graph};
use crate::object::ObjectView;
use crate::{Cid, HashAlg, Object, ObjectError};
use vstd::prelude::*;

verus! {

/// Why a set of objects could not be loaded.
#[derive(Debug)]
#[non_exhaustive]
pub enum LoadError {
    /// An object failed to parse or verify: its name, and why.
    Object(String, ObjectError),
    /// An object was rejected by a graph rule.
    Graph(GraphError),
}

/// The identifier texts of a list of named objects.
pub open spec fn filed_keys(items: Seq<(String, Cid, Vec<u8>)>) -> Set<Seq<char>> {
    Set::new(|x: Seq<char>| exists|i: int| 0 <= i < items.len() && x == cid_string((#[trigger] items[i]).1@))
}

/// Whether `o` is what bytes filed under `cid` read as: the object they
/// parse into, hashing to that identifier.
pub open spec fn item_reads(bytes: Seq<u8>, cid: (HashAlg, Seq<u8>), o: Object) -> bool {
    &&& object_from(bytes, o@)
    &&& digest_of(cid.0, o@.bytes) == cid.1
}

/// Whether bytes filed under `cid` are refused with `e` before the graph
/// sees them: they parse into no object, or into one that does not hash
/// to that identifier.
pub open spec fn item_refused(bytes: Seq<u8>, cid: (HashAlg, Seq<u8>), e: ObjectError) -> bool {
    ||| object_refused(bytes, e)
    ||| (e is IdentifierMismatch && exists|o: ObjectView|
        #[trigger] object_from(bytes, o) && digest_of(cid.0, o.bytes) != cid.1)
}

/// Whether item `i` is the first refused before the graph sees it, under
/// `name` and with `e`: every item before it reads as an object.
pub open spec fn refused_at(items: Seq<(String, Cid, Vec<u8>)>, i: int, name: Seq<char>, e: ObjectError) -> bool {
    &&& 0 <= i < items.len()
    &&& name == items[i].0@
    &&& item_refused(items[i].2@, items[i].1@, e)
    &&& forall|j: int| 0 <= j < i ==> #[trigger] item_readable(items[j].2@, items[j].1@)
}

/// Whether bytes filed under `cid` read as some object.
pub open spec fn item_readable(bytes: Seq<u8>, cid: (HashAlg, Seq<u8>)) -> bool {
    exists|o: Object| #[trigger] item_reads(bytes, cid, o)
}

/// Whether `g` holds nothing.
pub open spec fn empty_graph(g: Graph) -> bool {
    &&& g.object_map() == Map::<Seq<char>, Object>::empty()
    &&& g.publet_map() == Map::<Seq<char>, crate::graph::view::Publet>::empty()
    &&& g.relation_map() == Map::<Seq<char>, crate::graph::view::Relation>::empty()
    &&& g.annotation_map() == Map::<Seq<char>, crate::graph::view::Annotation>::empty()
    &&& g.document_map() == Map::<Seq<char>, crate::graph::document::Document>::empty()
    &&& g.anchor_map() == Map::<Seq<char>, crate::graph::document::Anchor>::empty()
    &&& g.edge_list() == Seq::<crate::graph::graph::EdgeView>::empty()
}

/// One offer on the first pass: the graph takes the object, or refuses it
/// unchanged.
pub open spec fn offered(g: Graph, g2: Graph, cid: (HashAlg, Seq<u8>), o: Object) -> bool {
    match insert_fault(g, cid, o) {
        Some(_) => g2 == g,
        None => inserted(g, g2, cid, o),
    }
}

/// Whether `objs`, `gs` and `ds` are a first pass over `items`: each item
/// read as its object and offered in order, from the empty graph, `gs`
/// the graphs in turn and `ds`, ascending, the items refused.
pub open spec fn first_pass(
    items: Seq<(String, Cid, Vec<u8>)>,
    objs: Seq<Object>,
    gs: Seq<Graph>,
    ds: Seq<int>,
) -> bool {
    &&& objs.len() == items.len()
    &&& gs.len() == items.len() + 1
    &&& empty_graph(gs[0])
    &&& forall|i: int| 0 <= i < items.len() ==> item_reads(items[i].2@, items[i].1@, #[trigger] objs[i])
    &&& forall|i: int| 0 <= i < items.len() ==> offered(gs[i], #[trigger] gs[i + 1], items[i].1@, objs[i])
    &&& forall|j: int, k: int| 0 <= j < k < ds.len() ==> ds[j] < ds[k]
    &&& forall|j: int| 0 <= j < ds.len() ==> 0 <= #[trigger] ds[j] < items.len()
    &&& forall|i: int|
        0 <= i < items.len() ==> (insert_fault(gs[i], items[i].1@, objs[i]) is Some <==> exists|j: int|
            0 <= j < ds.len() && #[trigger] ds[j] == i)
}

/// Whether `rs` and `hs` are a retry of the refused items `ds`: `rs` the
/// objects their bytes read as again, in turn, and `hs` the graphs as the
/// first `hs.len() - 1` of them are taken.
pub open spec fn retried(
    items: Seq<(String, Cid, Vec<u8>)>,
    ds: Seq<int>,
    rs: Seq<Object>,
    hs: Seq<Graph>,
) -> bool {
    &&& 1 <= hs.len() <= ds.len() + 1
    &&& hs.len() - 1 <= rs.len() <= ds.len()
    &&& forall|k: int| 0 <= k < rs.len() ==> item_reads(items[ds[k]].2@, items[ds[k]].1@, #[trigger] rs[k])
    &&& forall|k: int|
        #![trigger rs[k]]
        0 <= k < hs.len() - 1 ==> insert_fault(hs[k], items[ds[k]].1@, rs[k]) is None && inserted(
            hs[k],
            hs[k + 1],
            items[ds[k]].1@,
            rs[k],
        )
}

/// What building a graph from `items` gives: the first item refused
/// before the graph sees it, with why; otherwise the first pass, the
/// retry of what it refused, and the check of the rules that depend on
/// arrival order, failing with the first fault found and otherwise
/// giving the graph built.
pub open spec fn build_outcome(items: Seq<(String, Cid, Vec<u8>)>, r: Result<Graph, LoadError>) -> bool {
    match r {
        Err(LoadError::Object(name, e)) => exists|i: int| #[trigger] refused_at(items, i, name@, e),
        Err(LoadError::Graph(e)) => exists|objs: Seq<Object>, gs: Seq<Graph>, ds: Seq<int>, rs: Seq<Object>, hs: Seq<Graph>|
            #[trigger] first_pass(items, objs, gs, ds) && hs[0] == gs.last() && #[trigger] retried(items, ds, rs, hs)
                && ((hs.len() <= ds.len() && rs.len() == hs.len() && insert_fault(
                hs.last(),
                items[ds[hs.len() - 1]].1@,
                rs[hs.len() - 1],
            ) == Some(e@)) || (hs.len() == ds.len() + 1 && validation(hs.last()) == Some(e@))),
        Ok(g) => exists|objs: Seq<Object>, gs: Seq<Graph>, ds: Seq<int>, rs: Seq<Object>, hs: Seq<Graph>|
            #[trigger] first_pass(items, objs, gs, ds) && hs[0] == gs.last() && #[trigger] retried(items, ds, rs, hs)
                && hs.len() == ds.len() + 1 && g == hs.last() && validation(g) is None,
    }
}

/// A retry that takes one more refused item is still a retry.
proof fn lemma_retry_takes(
    items: Seq<(String, Cid, Vec<u8>)>,
    ds: Seq<int>,
    rs: Seq<Object>,
    hs: Seq<Graph>,
    o: Object,
    g: Graph,
)
    requires
        retried(items, ds, rs, hs),
        rs.len() == hs.len() - 1,
        hs.len() <= ds.len(),
        item_reads(items[ds[rs.len() as int]].2@, items[ds[rs.len() as int]].1@, o),
        insert_fault(hs.last(), items[ds[rs.len() as int]].1@, o) is None,
        inserted(hs.last(), g, items[ds[rs.len() as int]].1@, o),
    ensures
        retried(items, ds, rs.push(o), hs.push(g)),
{
    let rs2 = rs.push(o);
    let hs2 = hs.push(g);
    assert forall|k: int| 0 <= k < rs2.len() implies item_reads(items[ds[k]].2@, items[ds[k]].1@, #[trigger] rs2[k]) by {
        if k < rs.len() {
            assert(rs2[k] == rs[k]);
        }
    }
    assert forall|k: int|
        #![trigger rs2[k]]
        0 <= k < hs2.len() - 1 implies insert_fault(hs2[k], items[ds[k]].1@, rs2[k]) is None && inserted(
            hs2[k],
            hs2[k + 1],
            items[ds[k]].1@,
            rs2[k],
        ) by {
        assert(rs2[k] == if k < rs.len() { rs[k] } else { o });
        if k < hs.len() - 1 {
            assert(hs2[k] == hs[k] && hs2[k + 1] == hs[k + 1]);
        } else {
            assert(hs2[k] == hs.last() && hs2[k + 1] == g);
        }
    }
}

/// A retry read one more refused item, not yet taken, is still a retry.
proof fn lemma_retry_reads(items: Seq<(String, Cid, Vec<u8>)>, ds: Seq<int>, rs: Seq<Object>, hs: Seq<Graph>, o: Object)
    requires
        retried(items, ds, rs, hs),
        rs.len() == hs.len() - 1,
        hs.len() <= ds.len(),
        item_reads(items[ds[rs.len() as int]].2@, items[ds[rs.len() as int]].1@, o),
    ensures
        retried(items, ds, rs.push(o), hs),
{
    let rs2 = rs.push(o);
    assert forall|k: int| 0 <= k < rs2.len() implies item_reads(items[ds[k]].2@, items[ds[k]].1@, #[trigger] rs2[k]) by {
        if k < rs.len() {
            assert(rs2[k] == rs[k]);
        }
    }
    assert forall|k: int|
        #![trigger rs2[k]]
        0 <= k < hs.len() - 1 implies insert_fault(hs[k], items[ds[k]].1@, rs2[k]) is None && inserted(
            hs[k],
            hs[k + 1],
            items[ds[k]].1@,
            rs2[k],
        ) by {
        assert(rs2[k] == rs[k]);
    }
}

/// Parse and verify one object, then offer it to the graph. The outer
/// error is the object's own; the inner result is what the graph said.
fn offer(graph: &mut Graph, name: &String, cid: &Cid, bytes: &Vec<u8>) -> (r: Result<Result<(), GraphError>, LoadError>)
    ensures
        match r {
            Err(LoadError::Object(n, e)) => n@ == name@ && item_refused(bytes@, cid@, e) && *final(graph) == *old(graph),
            Err(LoadError::Graph(_)) => false,
            Ok(x) => exists|o: Object|
                #[trigger] item_reads(bytes@, cid@, o) && match insert_fault(*old(graph), cid@, o) {
                    Some(f) => x matches Err(e) && e@ == f && *final(graph) == *old(graph),
                    None => x is Ok && inserted(*old(graph), *final(graph), cid@, o),
                },
        },
{
    let parsed = match parse_object(bytes.as_slice()) {
        Ok(p) => p,
        Err(e) => return Err(LoadError::Object(crate::text::copy_text(name.as_str()), e)),
    };
    let ghost o = parsed.inner();
    let verified = match parsed.verify(cid) {
        Ok(v) => v,
        Err(e) => {
            assert(object_from(bytes@, o@));
            return Err(LoadError::Object(crate::text::copy_text(name.as_str()), e));
        },
    };
    assert(item_reads(bytes@, cid@, o));
    let r = graph.insert(cid, verified);
    Ok(r)
}

/// Build a graph from named objects: verify each against its identifier,
/// index it, retry those refused once everything else is in, then check
/// the rules that depend on arrival order; see [`build_outcome`].
fn build(items: Vec<(String, Cid, Vec<u8>)>) -> (r: Result<Graph, LoadError>)
    ensures
        build_outcome(items@, r),
        r matches Ok(g) ==> g.object_map().dom() == filed_keys(items@),
{
    let mut graph = Graph::new();
    let ghost mut objs: Seq<Object> = Seq::empty();
    let ghost mut gs: Seq<Graph> = seq![graph];
    let mut deferred: Vec<usize> = Vec::new();
    let mut i: usize = 0;
    while i < items.len()
        invariant
            i <= items.len(),
            objs.len() == i,
            gs.len() == i + 1,
            gs[i as int] == graph,
            empty_graph(gs[0]),
            forall|t: int| 0 <= t < i ==> item_reads(items@[t].2@, items@[t].1@, #[trigger] objs[t]),
            forall|t: int| 0 <= t < i ==> offered(gs[t], #[trigger] gs[t + 1], items@[t].1@, objs[t]),
            forall|j: int, k: int| 0 <= j < k < deferred.len() ==> deferred@[j] < deferred@[k],
            forall|j: int| 0 <= j < deferred.len() ==> (#[trigger] deferred@[j]) < i,
            forall|t: int|
                0 <= t < i ==> (insert_fault(gs[t], items@[t].1@, objs[t]) is Some <==> exists|j: int|
                    0 <= j < deferred.len() && #[trigger] deferred@[j] == t),
            forall|x: Seq<char>|
                (graph.object_map().dom().contains(x) || exists|j: int|
                    0 <= j < deferred.len() && x == cid_string(items@[#[trigger] deferred@[j] as int].1@)) <==> exists|t: int|
                    0 <= t < i && x == cid_string((#[trigger] items@[t]).1@),
        decreases items.len() - i,
    {
        let ghost before = graph.object_map().dom();
        let ghost d = deferred@;
        let ghost g0 = graph;
        match offer(&mut graph, &items[i].0, &items[i].1, &items[i].2) {
            Err(e) => {
                proof {
                    assert forall|j: int| 0 <= j < i implies #[trigger] item_readable(items@[j].2@, items@[j].1@) by {
                        assert(item_reads(items@[j].2@, items@[j].1@, objs[j]));
                    }
                    assert(e matches LoadError::Object(n, er) ==> n@ == items@[i as int].0@);
                    assert(e matches LoadError::Object(n, er) ==> item_refused(items@[i as int].2@, items@[i as int].1@, er));
                    assert(e matches LoadError::Object(n, er) ==> refused_at(items@, i as int, n@, er));
                    assert(build_outcome(items@, Err(e)));
                }
                return Err(e);
            },
            Ok(Ok(())) => {
                proof {
                    let o = choose|o: Object|
                        #[trigger] item_reads(items@[i as int].2@, items@[i as int].1@, o) && match insert_fault(
                            g0,
                            items@[i as int].1@,
                            o,
                        ) {
                            Some(f) => false,
                            None => inserted(g0, graph, items@[i as int].1@, o),
                        };
                    objs = objs.push(o);
                    gs = gs.push(graph);
                }
            },
            Ok(Err(_)) => {
                proof {
                    let o = choose|o: Object|
                        #[trigger] item_reads(items@[i as int].2@, items@[i as int].1@, o) && insert_fault(
                            g0,
                            items@[i as int].1@,
                            o,
                        ) is Some && graph == g0;
                    objs = objs.push(o);
                    gs = gs.push(graph);
                }
                deferred.push(i);
            },
        }
        proof {
            assert forall|t: int|
                0 <= t < i + 1 implies (insert_fault(gs[t], items@[t].1@, objs[t]) is Some <==> exists|j: int|
                    0 <= j < deferred.len() && #[trigger] deferred@[j] == t) by {
                if t < i {
                    if exists|j: int| 0 <= j < deferred.len() && #[trigger] deferred@[j] == t {
                        let j = choose|j: int| 0 <= j < deferred.len() && #[trigger] deferred@[j] == t;
                        if j < d.len() {
                            assert(deferred@[j] == d[j]);
                        }
                    }
                    if insert_fault(gs[t], items@[t].1@, objs[t]) is Some {
                        let j = choose|j: int| 0 <= j < d.len() && #[trigger] d[j] == t;
                        assert(deferred@[j] == d[j]);
                    }
                } else {
                    if deferred.len() > d.len() {
                        assert(deferred@[d.len() as int] == i);
                    } else if exists|j: int| 0 <= j < deferred.len() && #[trigger] deferred@[j] == t {
                        let j = choose|j: int| 0 <= j < deferred.len() && #[trigger] deferred@[j] == t;
                        assert(deferred@[j] == d[j]);
                    }
                }
            }
            assert forall|x: Seq<char>|
                (graph.object_map().dom().contains(x) || exists|j: int|
                    0 <= j < deferred.len() && x == cid_string(items@[#[trigger] deferred@[j] as int].1@)) <==> exists|t: int|
                    0 <= t < i + 1 && x == cid_string((#[trigger] items@[t]).1@) by {
                if exists|j: int| 0 <= j < deferred.len() && x == cid_string(items@[#[trigger] deferred@[j] as int].1@) {
                    let j = choose|j: int| 0 <= j < deferred.len() && x == cid_string(items@[#[trigger] deferred@[j] as int].1@);
                    if j < d.len() {
                        assert(deferred@[j] == d[j]);
                    }
                }
                if exists|t: int| 0 <= t < i + 1 && x == cid_string((#[trigger] items@[t]).1@) {
                    let t = choose|t: int| 0 <= t < i + 1 && x == cid_string((#[trigger] items@[t]).1@);
                    if t == i {
                        if deferred.len() > d.len() {
                            assert(deferred@[d.len() as int] == i);
                        }
                    } else {
                        if !before.contains(x) {
                            let j = choose|j: int| 0 <= j < d.len() && x == cid_string(items@[#[trigger] d[j] as int].1@);
                            assert(deferred@[j] == d[j]);
                        }
                    }
                }
            }
        }
        i = i + 1;
    }
    let ghost ds: Seq<int> = deferred@.map_values(|u: usize| u as int);
    proof {
        assert(first_pass(items@, objs, gs, ds)) by {
            assert forall|t: int|
                0 <= t < items.len() implies (insert_fault(gs[t], items@[t].1@, objs[t]) is Some <==> exists|j: int|
                    0 <= j < ds.len() && #[trigger] ds[j] == t) by {
                if insert_fault(gs[t], items@[t].1@, objs[t]) is Some {
                    let j = choose|j: int| 0 <= j < deferred.len() && #[trigger] deferred@[j] == t;
                    assert(ds[j] == t);
                }
                if exists|j: int| 0 <= j < ds.len() && #[trigger] ds[j] == t {
                    let j = choose|j: int| 0 <= j < ds.len() && #[trigger] ds[j] == t;
                    assert(deferred@[j] == t);
                }
            }
        }
    }
    let ghost mut hs: Seq<Graph> = seq![graph];
    let ghost mut rs: Seq<Object> = Seq::empty();
    let mut k: usize = 0;
    while k < deferred.len()
        invariant
            k <= deferred.len(),
            ds == deferred@.map_values(|u: usize| u as int),
            first_pass(items@, objs, gs, ds),
            hs.len() == k + 1,
            hs[0] == gs.last(),
            hs[k as int] == graph,
            rs.len() == k,
            retried(items@, ds, rs, hs),
            forall|j: int| 0 <= j < deferred.len() ==> (#[trigger] deferred@[j]) < items.len(),
            forall|x: Seq<char>|
                (graph.object_map().dom().contains(x) || exists|j: int|
                    k <= j < deferred.len() && x == cid_string(items@[#[trigger] deferred@[j] as int].1@)) <==> exists|t: int|
                    0 <= t < items.len() && x == cid_string((#[trigger] items@[t]).1@),
        decreases deferred.len() - k,
    {
        let at = deferred[k];
        let ghost before = graph.object_map().dom();
        let ghost g0 = graph;
        assert(ds[k as int] == at as int);
        match offer(&mut graph, &items[at].0, &items[at].1, &items[at].2) {
            Err(e) => {
                proof {
                    assert forall|j: int| 0 <= j < at implies #[trigger] item_readable(items@[j].2@, items@[j].1@) by {
                        assert(item_reads(items@[j].2@, items@[j].1@, objs[j]));
                    }
                    assert(e matches LoadError::Object(n, er) ==> refused_at(items@, at as int, n@, er));
                    assert(build_outcome(items@, Err(e)));
                }
                return Err(e);
            },
            Ok(Ok(())) => {
                proof {
                    let o = choose|o: Object|
                        #[trigger] item_reads(items@[at as int].2@, items@[at as int].1@, o) && match insert_fault(
                            g0,
                            items@[at as int].1@,
                            o,
                        ) {
                            Some(f) => false,
                            None => inserted(g0, graph, items@[at as int].1@, o),
                        };
                    lemma_retry_takes(items@, ds, rs, hs, o, graph);
                    rs = rs.push(o);
                    hs = hs.push(graph);
                }
            },
            Ok(Err(e)) => {
                proof {
                    let o = choose|o: Object|
                        #[trigger] item_reads(items@[at as int].2@, items@[at as int].1@, o) && match insert_fault(
                            g0,
                            items@[at as int].1@,
                            o,
                        ) {
                            Some(f) => e@ == f,
                            None => false,
                        };
                    lemma_retry_reads(items@, ds, rs, hs, o);
                    let rs2 = rs.push(o);
                    assert(insert_fault(hs.last(), items@[ds[hs.len() - 1]].1@, rs2[hs.len() - 1]) == Some(e@));
                    assert(build_outcome(items@, Err(LoadError::Graph(e))));
                }
                return Err(LoadError::Graph(e));
            },
        }
        proof {
            assert forall|x: Seq<char>|
                (graph.object_map().dom().contains(x) || exists|j: int|
                    k + 1 <= j < deferred.len() && x == cid_string(items@[#[trigger] deferred@[j] as int].1@)) <==> exists|t: int|
                    0 <= t < items.len() && x == cid_string((#[trigger] items@[t]).1@) by {
                if exists|t: int| 0 <= t < items.len() && x == cid_string((#[trigger] items@[t]).1@) {
                    if !before.contains(x) {
                        let j = choose|j: int|
                            k <= j < deferred.len() && x == cid_string(items@[#[trigger] deferred@[j] as int].1@);
                        if j == k {
                        }
                    }
                }
            }
        }
        k = k + 1;
    }
    match graph.validate() {
        Ok(()) => {},
        Err(e) => {
            assert(build_outcome(items@, Err(LoadError::Graph(e))));
            return Err(LoadError::Graph(e));
        },
    }
    assert(graph.object_map().dom() =~= filed_keys(items@));
    assert(build_outcome(items@, Ok(graph)));
    Ok(graph)
}

/// Whether `items` are `objects`, each named by its identifier's text.
pub open spec fn objects_as_items(objects: Seq<(Cid, Vec<u8>)>, items: Seq<(String, Cid, Vec<u8>)>) -> bool {
    &&& items.len() == objects.len()
    &&& forall|i: int|
        0 <= i < items.len() ==> (#[trigger] items[i]).0@ == cid_string(objects[i].0@) && items[i].1@ == objects[i].0@
            && items[i].2@ == objects[i].1@
}

/// Whether `items` are the named `files`, each filed under the SHA-256
/// identifier of its own bytes.
pub open spec fn files_as_items(files: Seq<(String, Vec<u8>)>, items: Seq<(String, Cid, Vec<u8>)>) -> bool {
    &&& items.len() == files.len()
    &&& forall|i: int|
        0 <= i < items.len() ==> (#[trigger] items[i]).0@ == files[i].0@ && items[i].1@ == (
            HashAlg::Sha2_256,
            digest_of(HashAlg::Sha2_256, files[i].1@),
        ) && items[i].2@ == files[i].1@
}

/// Build a graph from objects already in hand, each filed under its
/// identifier and named by it; see [`build_outcome`].
pub fn from_objects(objects: Vec<(Cid, Vec<u8>)>) -> (r: Result<Graph, LoadError>)
    ensures
        exists|items: Seq<(String, Cid, Vec<u8>)>| #[trigger] objects_as_items(objects@, items) && build_outcome(items, r),
        r matches Ok(g) ==> forall|x: Seq<char>|
            g.object_map().dom().contains(x) <==> exists|i: int|
                0 <= i < objects.len() && x == cid_string((#[trigger] objects@[i]).0@),
{
    let mut items: Vec<(String, Cid, Vec<u8>)> = Vec::new();
    let ghost all = objects@;
    let mut i: usize = 0;
    while i < objects.len()
        invariant
            i <= objects.len(),
            objects@ == all,
            items.len() == i,
            forall|j: int|
                0 <= j < i ==> (#[trigger] items@[j]).0@ == cid_string(all[j].0@) && items@[j].1@ == all[j].0@
                    && items@[j].2@ == all[j].1@,
        decreases objects.len() - i,
    {
        let name = cid_to_string(&objects[i].0);
        let cid = objects[i].0.clone();
        let bytes = crate::text::copy_bytes(objects[i].1.as_slice());
        items.push((name, cid, bytes));
        i = i + 1;
    }
    let ghost iv = items@;
    assert(objects_as_items(objects@, iv));
    let r = build(items);
    let ghost rv = r;
    proof {
        match rv {
            Ok(g) => {
                assert forall|x: Seq<char>|
                    g.object_map().dom().contains(x) <==> exists|i: int|
                        0 <= i < all.len() && x == cid_string((#[trigger] all[i]).0@) by {
                    if g.object_map().dom().contains(x) {
                        let t = choose|t: int| 0 <= t < iv.len() && x == cid_string((#[trigger] iv[t]).1@);
                        assert(iv[t].1@ == all[t].0@);
                    }
                    if exists|i: int| 0 <= i < all.len() && x == cid_string((#[trigger] all[i]).0@) {
                        let i = choose|i: int| 0 <= i < all.len() && x == cid_string((#[trigger] all[i]).0@);
                        assert(iv[i].1@ == all[i].0@);
                        assert(filed_keys(iv).contains(x));
                    }
                }
            },
            _ => {},
        }
    }
    r
}

/// Build a graph from the named files of a store, in the order given,
/// each verified against the identifier its own bytes compute to, so a
/// corrupted file is refused rather than indexed; see [`build_outcome`].
pub fn from_files(files: Vec<(String, Vec<u8>)>) -> (r: Result<Graph, LoadError>)
    ensures
        exists|items: Seq<(String, Cid, Vec<u8>)>| #[trigger] files_as_items(files@, items) && build_outcome(items, r),
        r matches Ok(g) ==> forall|x: Seq<char>|
            g.object_map().dom().contains(x) <==> exists|i: int|
                0 <= i < files.len() && x == cid_string(
                    (HashAlg::Sha2_256, digest_of(HashAlg::Sha2_256, (#[trigger] files@[i]).1@)),
                ),
{
    let mut items: Vec<(String, Cid, Vec<u8>)> = Vec::new();
    let mut i: usize = 0;
    while i < files.len()
        invariant
            i <= files.len(),
            items.len() == i,
            forall|j: int|
                0 <= j < i ==> (#[trigger] items@[j]).0@ == files@[j].0@ && items@[j].1@ == (
                    HashAlg::Sha2_256,
                    digest_of(HashAlg::Sha2_256, files@[j].1@),
                ) && items@[j].2@ == files@[j].1@,
        decreases files.len() - i,
    {
        let cid = Cid::of(files[i].1.as_slice(), HashAlg::Sha2_256);
        items.push(
            (crate::text::copy_text(files[i].0.as_str()), cid, crate::text::copy_bytes(files[i].1.as_slice())),
        );
        i = i + 1;
    }
    let ghost iv = items@;
    assert(files_as_items(files@, iv));
    let r = build(items);
    let ghost rv = r;
    proof {
        match rv {
            Ok(g) => {
                assert forall|x: Seq<char>|
                    g.object_map().dom().contains(x) <==> exists|i: int|
                        0 <= i < files.len() && x == cid_string(
                            (HashAlg::Sha2_256, digest_of(HashAlg::Sha2_256, (#[trigger] files@[i]).1@)),
                        ) by {
                    if g.object_map().dom().contains(x) {
                        let t = choose|t: int| 0 <= t < iv.len() && x == cid_string((#[trigger] iv[t]).1@);
                        assert(iv[t].1@ == (HashAlg::Sha2_256, digest_of(HashAlg::Sha2_256, files@[t].1@)));
                    }
                    if exists|i: int|
                        0 <= i < files.len() && x == cid_string(
                            (HashAlg::Sha2_256, digest_of(HashAlg::Sha2_256, (#[trigger] files@[i]).1@)),
                        ) {
                        let i = choose|i: int|
                            0 <= i < files.len() && x == cid_string(
                                (HashAlg::Sha2_256, digest_of(HashAlg::Sha2_256, (#[trigger] files@[i]).1@)),
                            );
                        assert(iv[i].1@ == (HashAlg::Sha2_256, digest_of(HashAlg::Sha2_256, files@[i].1@)));
                        assert(filed_keys(iv).contains(x));
                    }
                }
            },
            _ => {},
        }
    }
    r
}

} // verus!
