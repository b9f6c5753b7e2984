//! The object graph: indices, lineage, closures, and equivalence classes.
//!
//! The graph accepts only [`Verified`] objects, so nothing whose identity
//! was never confirmed can be indexed. Edges of the acyclic kinds are
//! checked as they are added, so a cycle is reported against the edge that
//! created it.

use crate::domain::generation::result_view;
use crate::fields::{cid_from_text, cid_in, cid_string, cid_to_string, cids_view};
use crate::graph::closure::{closure, holds, keys_view, links_view, reach, Link};
use crate::graph::assumption::{
    assumption_reading, assumption_view, triage_reading, triage_view, Assumption, Basis, Triage,
};
use crate::graph::document::{anchor_reading, document_reading, Anchor, Document};
use crate::graph::error::{GraphError, GraphFault};
use crate::graph::table::{ascending, keys_of, lemma_to_map, to_map, Table};
use crate::graph::view::{
    acyclic_kind, annotation_reading, class_id, kind_id, publet_reading, relation_reading, truth_apt,
    Annotation, Class, Publet, Relation, RelationKind,
};
use crate::text::{copy_text, text_eq};
use crate::{Cid, HashAlg, Object, Verified};
use vstd::prelude::*;

verus! {

/// One indexed edge: its kind, endpoints, and the relation asserting it.
#[derive(Debug)]
struct Edge {
    kind: RelationKind,
    from: String,
    to: String,
    relation: String,
}

/// An edge's kind, endpoints and relation, as text.
pub type EdgeView = (RelationKind, Seq<char>, Seq<char>, Seq<char>);

spec fn edge_view(e: Edge) -> EdgeView {
    (e.kind, e.from@, e.to@, e.relation@)
}

/// The links of one kind of edge.
pub open spec fn kind_links(es: Seq<EdgeView>, kind: RelationKind) -> Seq<Link>
    decreases es.len(),
{
    if es.len() == 0 {
        Seq::empty()
    } else if es.last().0 == kind {
        kind_links(es.drop_last(), kind).push((es.last().1, es.last().2))
    } else {
        kind_links(es.drop_last(), kind)
    }
}

/// An indexed set of verified objects.
#[derive(Debug)]
pub struct Graph {
    objects: Table<Object>,
    publets: Table<Publet>,
    relations: Table<Relation>,
    annotations: Table<Annotation>,
    documents: Table<Document>,
    anchors: Table<Anchor>,
    edges: Vec<Edge>,
}

/// Whether a new edge of `kind` from `from` to `to` would close a cycle.
pub open spec fn closes_cycle(es: Seq<EdgeView>, kind: RelationKind, from: Seq<char>, to: Seq<char>) -> bool {
    from == to || reach(kind_links(es, kind), to, from)
}

/// Whether a verdict with `aspect` may target a publet of `class`.
pub open spec fn verdict_fault(class: Class, aspect: Option<Seq<char>>) -> Option<GraphFault> {
    if !truth_apt(class) {
        Some(GraphFault::VerdictOnNonTruthApt(class_id(class)))
    } else if (class is Attributive || class is Archival) && aspect != Some("provenance"@) {
        Some(GraphFault::VerdictAspectNotProvenance(class_id(class), aspect))
    } else {
        None
    }
}

impl Graph {
    /// The objects, by identifier text.
    pub closed spec fn object_map(self) -> Map<Seq<char>, Object> {
        self.objects.map()
    }

    /// The publets, by identifier text.
    pub closed spec fn publet_map(self) -> Map<Seq<char>, Publet> {
        self.publets.map()
    }

    /// The relations, by identifier text.
    pub closed spec fn relation_map(self) -> Map<Seq<char>, Relation> {
        self.relations.map()
    }

    /// The annotations, by identifier text.
    pub closed spec fn annotation_map(self) -> Map<Seq<char>, Annotation> {
        self.annotations.map()
    }

    /// The documents, by identifier text.
    pub closed spec fn document_map(self) -> Map<Seq<char>, Document> {
        self.documents.map()
    }

    /// The anchors, by identifier text.
    pub closed spec fn anchor_map(self) -> Map<Seq<char>, Anchor> {
        self.anchors.map()
    }

    /// The identifiers of the objects, in ascending order.
    pub closed spec fn object_keys(self) -> Seq<Seq<char>> {
        keys_of(self.objects.items())
    }

    /// The annotations with their identifiers, in ascending order.
    pub closed spec fn annotation_entries(self) -> Seq<(String, Annotation)> {
        self.annotations.items()
    }

    /// The publets with their identifiers, in ascending order.
    pub closed spec fn publet_entries(self) -> Seq<(String, Publet)> {
        self.publets.items()
    }

    /// The documents with their identifiers, in ascending order.
    pub closed spec fn document_entries(self) -> Seq<(String, Document)> {
        self.documents.items()
    }

    /// The relations with their identifiers, in ascending order.
    pub closed spec fn relation_entries(self) -> Seq<(String, Relation)> {
        self.relations.items()
    }

    /// The anchors with their identifiers, in ascending order.
    pub closed spec fn anchor_entries(self) -> Seq<(String, Anchor)> {
        self.anchors.items()
    }

    /// The indexed edges, in the order their relations arrived.
    pub closed spec fn edge_list(self) -> Seq<EdgeView> {
        self.edges@.map_values(|e: Edge| edge_view(e))
    }

    /// An empty graph.
    pub fn new() -> (r: Self)
        ensures
            r.object_map() == Map::<Seq<char>, Object>::empty(),
            r.publet_map() == Map::<Seq<char>, Publet>::empty(),
            r.relation_map() == Map::<Seq<char>, Relation>::empty(),
            r.annotation_map() == Map::<Seq<char>, Annotation>::empty(),
            r.document_map() == Map::<Seq<char>, Document>::empty(),
            r.anchor_map() == Map::<Seq<char>, Anchor>::empty(),
            r.edge_list() == Seq::<EdgeView>::empty(),
    {
        let g = Graph {
            objects: Table::new(),
            publets: Table::new(),
            relations: Table::new(),
            annotations: Table::new(),
            documents: Table::new(),
            anchors: Table::new(),
            edges: Vec::new(),
        };
        assert(g.edge_list() =~= Seq::<EdgeView>::empty());
        g
    }

    /// The links of one kind, as executable pairs.
    fn links_of(&self, kind: RelationKind) -> (r: Vec<(String, String)>)
        ensures
            links_view(r@) == kind_links(self.edge_list(), kind),
    {
        let ghost es = self.edge_list();
        let mut out: Vec<(String, String)> = Vec::new();
        let mut i: usize = 0;
        assert(es.take(0) =~= Seq::<EdgeView>::empty());
        assert(links_view(out@) =~= Seq::<Link>::empty());
        while i < self.edges.len()
            invariant
                i <= self.edges.len(),
                es == self.edge_list(),
                es.len() == self.edges.len(),
                links_view(out@) == kind_links(es.take(i as int), kind),
            decreases self.edges.len() - i,
        {
            assert(es.take(i + 1).drop_last() =~= es.take(i as int));
            assert(es[i as int] == edge_view(self.edges@[i as int]));
            if self.edges[i].kind == kind {
                let ghost before = out@;
                out.push((copy_text(self.edges[i].from.as_str()), copy_text(self.edges[i].to.as_str())));
                assert(links_view(out@) =~= links_view(before).push((es[i as int].1, es[i as int].2)));
            }
            i = i + 1;
        }
        assert(es.take(self.edges.len() as int) =~= es);
        out
    }

    /// Would adding `from -> to` of `kind` create a cycle?
    fn would_close_cycle(&self, kind: RelationKind, from: &str, to: &str) -> (r: bool)
        ensures
            r == closes_cycle(self.edge_list(), kind, from@, to@),
    {
        if text_eq(from, to) {
            return true;
        }
        let links = self.links_of(kind);
        let reached = closure(&links, to);
        holds(&reached, from)
    }

    /// Check a verdict against the class rules.
    fn check_verdict(class: Class, aspect: Option<&str>) -> (r: Result<(), GraphError>)
        ensures
            match verdict_fault(
                class,
                match aspect {
                    Some(a) => Some(a@),
                    None => None,
                },
            ) {
                Some(f) => r matches Err(e) && e@ == f,
                None => r is Ok,
            },
    {
        if !class.accepts_verdict() {
            return Err(GraphError::VerdictOnNonTruthApt { class: class.id() });
        }
        if class.verdict_confined_to_provenance() {
            let ok = match aspect {
                Some(a) => text_eq(a, "provenance"),
                None => false,
            };
            if !ok {
                return Err(
                    GraphError::VerdictAspectNotProvenance {
                        class: class.id(),
                        found: match aspect {
                            Some(a) => Some(copy_text(a)),
                            None => None,
                        },
                    },
                );
            }
        }
        Ok(())
    }

    /// Add a verified object, typing it and indexing its edges.
    ///
    /// Fails, leaving the graph unchanged, when the object cannot be typed
    /// as its declared type, when a relation of an acyclic kind would close
    /// a cycle, or when a verdict targets a publet already held whose class
    /// forbids it. Objects of other types are held untyped.
    #[verifier::rlimit(100)]
    #[verifier::spinoff_prover]
    pub fn insert(&mut self, cid: &Cid, object: Verified<Object>) -> (r: Result<(), GraphError>)
        ensures
            match insert_fault(*old(self), cid@, object.inner()) {
                Some(f) => r matches Err(e) && e@ == f && *final(self) == *old(self),
                None => r is Ok && inserted(*old(self), *final(self), cid@, object.inner()),
            },
    {
        proof {
            lemma_kinds_distinct();
        }
        let ghost g0 = *self;
        let object = object.into_inner();
        let key = cid_to_string(cid);
        let ghost o = object;
        let ghost k = key@;
        if text_eq(object.kind(), "publet") {
            match self.add_publet(cid, &object, &key) {
                Err(e) => return Err(e),
                Ok(()) => {},
            }

        } else if text_eq(object.kind(), "rel") {
            match self.add_relation(cid, &object, &key) {
                Err(e) => return Err(e),
                Ok(()) => {},
            }
            proof {
                let rv = relation_reading(cid@, o@.author, o@.kind, o@.body)->Ok_0;
                assert(relation_reading(cid@, o@.author, o@.kind, o@.body) is Ok);
                assert(!(acyclic_kind(rv.kind) && closes_cycle(g0.edge_list(), rv.kind, cid_string(rv.from), cid_string(rv.to))));
                assert(self.relation_map()[k]@ == rv);
            }
        } else if text_eq(object.kind(), "ann") {
            match self.add_annotation(cid, &object, &key) {
                Err(e) => return Err(e),
                Ok(()) => {},
            }
        } else if text_eq(object.kind(), "doc") {
            match self.add_document(cid, &object, &key) {
                Err(e) => return Err(e),
                Ok(()) => {},
            }
        } else if text_eq(object.kind(), "anchor") {
            match self.add_anchor(cid, &object, &key) {
                Err(e) => return Err(e),
                Ok(()) => {},
            }
        }
        self.objects.put(key, object);
        Ok(())
    }

    fn add_publet(&mut self, cid: &Cid, object: &Object, key: &String) -> (r: Result<(), GraphError>)
        requires
            object@.kind == "publet"@,
            key@ == cid_string(cid@),
        ensures
            match publet_reading(cid@, object@.kind, object@.body) {
                Err(f) => r matches Err(e) && e@ == f && *final(self) == *old(self),
                Ok(pv) => r is Ok && final(self).publet_map() == old(self).publet_map().insert(
                    key@,
                    final(self).publet_map()[key@],
                ) && final(self).publet_map()[key@]@ == pv && final(self).objects == old(self).objects
                    && final(self).relations == old(self).relations && final(self).annotations
                    == old(self).annotations && final(self).documents == old(self).documents
                    && final(self).anchors == old(self).anchors && final(self).edges == old(self).edges,
            },
    {
        let publet = match Publet::from_object(cid.clone(), object) {
            Ok(p) => p,
            Err(e) => return Err(e),
        };
        self.publets.put(copy_text(key.as_str()), publet);
        Ok(())
    }

    fn add_relation(&mut self, cid: &Cid, object: &Object, key: &String) -> (r: Result<(), GraphError>)
        requires
            object@.kind == "rel"@,
            key@ == cid_string(cid@),
        ensures
            match relation_reading(cid@, object@.author, object@.kind, object@.body) {
                Err(f) => r matches Err(e) && e@ == f && *final(self) == *old(self),
                Ok(rv) => if acyclic_kind(rv.kind) && closes_cycle(
                    old(self).edge_list(),
                    rv.kind,
                    cid_string(rv.from),
                    cid_string(rv.to),
                ) {
                    r matches Err(e) && e@ == GraphFault::CycleClosing(
                        kind_id(rv.kind),
                        cid_string(rv.from),
                        cid_string(rv.to),
                    ) && *final(self) == *old(self)
                } else {
                    r is Ok && final(self).relation_map() == old(self).relation_map().insert(
                        key@,
                        final(self).relation_map()[key@],
                    ) && final(self).relation_map()[key@]@ == rv && final(self).edge_list() == old(
                        self,
                    ).edge_list().push((rv.kind, cid_string(rv.from), cid_string(rv.to), key@))
                        && final(self).objects == old(self).objects && final(self).publets == old(
                        self,
                    ).publets && final(self).annotations == old(self).annotations
                        && final(self).documents == old(self).documents && final(self).anchors
                        == old(self).anchors
                },
            },
    {
        let relation = match Relation::from_object(cid.clone(), object) {
            Ok(x) => x,
            Err(e) => return Err(e),
        };
        let kind = relation.kind();
        let from = cid_to_string(relation.from());
        let to = cid_to_string(relation.to());
        if kind.is_acyclic() && self.would_close_cycle(kind, from.as_str(), to.as_str()) {
            return Err(GraphError::CycleClosing { kind: kind.id(), from, to });
        }
        let ghost before = self.edge_list();
        let ghost rv = relation@;
        self.edges.push(Edge { kind, from, to, relation: copy_text(key.as_str()) });
        assert(self.edge_list() =~= before.push((kind, cid_string(rv.from), cid_string(rv.to), key@)));
        self.relations.put(copy_text(key.as_str()), relation);
        Ok(())
    }

    fn add_annotation(&mut self, cid: &Cid, object: &Object, key: &String) -> (r: Result<(), GraphError>)
        requires
            object@.kind == "ann"@,
            key@ == cid_string(cid@),
        ensures
            match annotation_reading(cid@, object@.author, object@.kind, object@.body) {
                Err(f) => r matches Err(e) && e@ == f && *final(self) == *old(self),
                Ok(av) => {
                    let t = cid_string(av.target);
                    let fault = if av.kind == "verdict"@ && old(self).publet_map().dom().contains(t) {
                        verdict_fault(old(self).publet_map()[t]@.class, av.aspect)
                    } else {
                        None
                    };
                    match fault {
                        Some(f) => r matches Err(e) && e@ == f && *final(self) == *old(self),
                        None => r is Ok && final(self).annotation_map() == old(self).annotation_map().insert(
                            key@,
                            final(self).annotation_map()[key@],
                        ) && final(self).annotation_map()[key@]@ == av && final(self).objects == old(
                            self,
                        ).objects && final(self).publets == old(self).publets && final(self).relations
                            == old(self).relations && final(self).documents == old(self).documents
                            && final(self).anchors == old(self).anchors && final(self).edges == old(
                            self,
                        ).edges,
                    }
                },
            },
    {
        let annotation = match Annotation::from_object(cid.clone(), object) {
            Ok(x) => x,
            Err(e) => return Err(e),
        };
        if text_eq(annotation.kind(), "verdict") {
            let target = cid_to_string(annotation.target());
            match self.publets.get(target.as_str()) {
                Some(p) => match Graph::check_verdict(p.class(), annotation.aspect()) {
                    Ok(()) => {},
                    Err(e) => return Err(e),
                },
                None => {},
            }
        }
        self.annotations.put(copy_text(key.as_str()), annotation);
        Ok(())
    }

    fn add_document(&mut self, cid: &Cid, object: &Object, key: &String) -> (r: Result<(), GraphError>)
        requires
            object@.kind == "doc"@,
            key@ == cid_string(cid@),
        ensures
            match document_reading(cid@, object@.kind, object@.body) {
                Err(f) => r matches Err(e) && e@ == f && *final(self) == *old(self),
                Ok(dv) => r is Ok && final(self).document_map() == old(self).document_map().insert(
                    key@,
                    final(self).document_map()[key@],
                ) && final(self).document_map()[key@]@ == dv && final(self).objects == old(self).objects
                    && final(self).publets == old(self).publets && final(self).relations == old(
                    self,
                ).relations && final(self).annotations == old(self).annotations && final(self).anchors
                    == old(self).anchors && final(self).edges == old(self).edges,
            },
    {
        let document = match Document::from_object(cid.clone(), object) {
            Ok(x) => x,
            Err(e) => return Err(e),
        };
        self.documents.put(copy_text(key.as_str()), document);
        Ok(())
    }

    fn add_anchor(&mut self, cid: &Cid, object: &Object, key: &String) -> (r: Result<(), GraphError>)
        requires
            object@.kind == "anchor"@,
            key@ == cid_string(cid@),
        ensures
            match anchor_reading(cid@, object@.kind, object@.body) {
                Err(f) => r matches Err(e) && e@ == f && *final(self) == *old(self),
                Ok(av) => r is Ok && final(self).anchor_map() == old(self).anchor_map().insert(
                    key@,
                    final(self).anchor_map()[key@],
                ) && final(self).anchor_map()[key@]@ == av && final(self).objects == old(self).objects
                    && final(self).publets == old(self).publets && final(self).relations == old(
                    self,
                ).relations && final(self).annotations == old(self).annotations
                    && final(self).documents == old(self).documents && final(self).edges == old(self).edges,
            },
    {
        let anchor = match Anchor::from_object(cid.clone(), object) {
            Ok(x) => x,
            Err(e) => return Err(e),
        };
        self.anchors.put(copy_text(key.as_str()), anchor);
        Ok(())
    }

    /// Every identifier in the graph, in ascending order.
    pub fn cids(&self) -> (r: Vec<String>)
        ensures
            ascending_keys(r@),
            keys_view(r@) == self.object_keys(),
            forall|x: Seq<char>| keys_view(r@).contains(x) <==> self.object_map().dom().contains(x),
    {
        let es = self.objects.entries();
        let mut out: Vec<String> = Vec::new();
        let mut i: usize = 0;
        proof {
            lemma_to_map(es@);
        }
        while i < es.len()
            invariant
                i <= es.len(),
                out.len() == i,
                forall|s: int| 0 <= s < i ==> (#[trigger] out@[s])@ == es@[s].0@,
            decreases es.len() - i,
        {
            out.push(copy_text(es[i].0.as_str()));
            i = i + 1;
        }
        proof {
            assert forall|a: int, b: int| 0 <= a < b < out.len() implies crate::cbor::lex_lt(
                vstd::utf8::encode_utf8((#[trigger] out@[a])@),
                vstd::utf8::encode_utf8((#[trigger] out@[b])@),
            ) by {
                assert(out@[a]@ == es@[a].0@);
                assert(out@[b]@ == es@[b].0@);
            }
            assert(keys_view(out@) =~= self.object_keys());
            assert forall|x: Seq<char>| keys_view(out@).contains(x) <==> self.object_map().dom().contains(x) by {
                if keys_view(out@).contains(x) {
                    let s = choose|s: int| 0 <= s < keys_view(out@).len() && keys_view(out@)[s] == x;
                    assert(out@[s]@ == es@[s].0@);
                }
                if self.object_map().dom().contains(x) {
                    let s = choose|s: int| 0 <= s < es@.len() && es@[s].0@ == x;
                    assert(keys_view(out@)[s] == x);
                }
            }
        }
        out
    }

    /// Borrow an object.
    pub fn object(&self, cid: &Cid) -> (r: Option<&Object>)
        ensures
            match r {
                Some(o) => self.object_map().dom().contains(cid_string(cid@)) && self.object_map()[cid_string(cid@)] == *o,
                None => !self.object_map().dom().contains(cid_string(cid@)),
            },
    {
        let key = cid_to_string(cid);
        self.objects.get(key.as_str())
    }

    /// Borrow an object by its identifier text.
    pub fn object_at(&self, key: &str) -> (r: Option<&Object>)
        ensures
            match r {
                Some(o) => self.object_map().dom().contains(key@) && self.object_map()[key@] == *o,
                None => !self.object_map().dom().contains(key@),
            },
    {
        self.objects.get(key)
    }

    /// Borrow a typed publet.
    pub fn publet(&self, cid: &Cid) -> (r: Option<&Publet>)
        ensures
            match r {
                Some(p) => self.publet_map().dom().contains(cid_string(cid@)) && self.publet_map()[cid_string(cid@)] == *p,
                None => !self.publet_map().dom().contains(cid_string(cid@)),
            },
    {
        let key = cid_to_string(cid);
        self.publets.get(key.as_str())
    }

    /// Borrow a typed publet by its identifier text.
    pub(crate) fn publet_at(&self, key: &str) -> (r: Option<&Publet>)
        ensures
            match r {
                Some(p) => self.publet_map().dom().contains(key@) && self.publet_map()[key@] == *p,
                None => !self.publet_map().dom().contains(key@),
            },
    {
        self.publets.get(key)
    }

    /// Borrow a typed document.
    pub fn document(&self, cid: &Cid) -> (r: Option<&Document>)
        ensures
            match r {
                Some(d) => self.document_map().dom().contains(cid_string(cid@)) && self.document_map()[cid_string(
                    cid@,
                )] == *d,
                None => !self.document_map().dom().contains(cid_string(cid@)),
            },
    {
        let key = cid_to_string(cid);
        self.documents.get(key.as_str())
    }

    /// Every document, in identifier order.
    pub fn documents(&self) -> (r: &Vec<(String, Document)>)
        ensures
            r@ == self.document_entries(),
            ascending(r@),
            to_map(r@) == self.document_map(),
    {
        self.documents.entries()
    }

    /// Borrow a typed anchor.
    pub fn anchor(&self, cid: &Cid) -> (r: Option<&Anchor>)
        ensures
            match r {
                Some(a) => self.anchor_map().dom().contains(cid_string(cid@)) && self.anchor_map()[cid_string(cid@)] == *a,
                None => !self.anchor_map().dom().contains(cid_string(cid@)),
            },
    {
        let key = cid_to_string(cid);
        self.anchors.get(key.as_str())
    }

    /// Identifiers reached from `cid` by outbound edges of `kind`, each
    /// once, in ascending order.
    pub fn out(&self, kind: RelationKind, cid: &Cid) -> (r: Vec<String>)
        ensures
            ascending_keys(r@),
            forall|x: Seq<char>| keys_view(r@).contains(x) <==> out_ends(*self, kind, cid_string(cid@)).contains(x),
    {
        let key = cid_to_string(cid);
        let links = self.links_of(kind);
        ends_from(&links, key.as_str(), true)
    }

    /// Identifiers reaching `cid` by inbound edges of `kind`, each once, in
    /// ascending order. This is the reverse-edge query that content
    /// addressing alone cannot answer.
    pub fn incoming(&self, kind: RelationKind, cid: &Cid) -> (r: Vec<String>)
        ensures
            ascending_keys(r@),
            forall|x: Seq<char>| keys_view(r@).contains(x) <==> in_ends(*self, kind, cid_string(cid@)).contains(x),
    {
        let key = cid_to_string(cid);
        let links = self.links_of(kind);
        ends_from(&links, key.as_str(), false)
    }
}

impl Graph {
    /// Keys this key has publicly assumed accountability for (
    /// 10.7), in identifier order. The count is the check: what separates
    /// protecting a dissident from fronting for someone is visible only in
    /// aggregate.
    pub fn assumptions_by(&self, assumer: &Cid) -> (r: Vec<Assumption>)
        ensures
            r@.map_values(|a: Assumption| assumption_view(a)) == assumptions_in(
                self.annotation_entries(),
                self.object_map(),
                assumer@,
            ),
    {
        let es = self.annotations.entries();
        let mut out: Vec<Assumption> = Vec::new();
        let mut i: usize = 0;
        assert(es@.take(0) =~= Seq::<(String, Annotation)>::empty());
        assert(out@.map_values(|a: Assumption| assumption_view(a)) =~= Seq::empty());
        while i < es.len()
            invariant
                i <= es.len(),
                es@ == self.annotation_entries(),
                out@.map_values(|a: Assumption| assumption_view(a)) == assumptions_in(
                    es@.take(i as int),
                    self.object_map(),
                    assumer@,
                ),
            decreases es.len() - i,
        {
            assert(es@.take(i + 1).drop_last() =~= es@.take(i as int));
            assert(es@.take(i + 1).last() == es@[i as int]);
            if text_eq(es[i].1.kind(), "assumes-accountability") {
                match self.objects.get(es[i].0.as_str()) {
                    Some(o) => match Assumption::from_object(o) {
                        Some(a) => {
                            if a.assumer.same(assumer) {
                                let ghost before = out@;
                                out.push(a);
                                assert(out@.map_values(|a: Assumption| assumption_view(a)) =~= before.map_values(
                                    |a: Assumption| assumption_view(a),
                                ).push(assumption_view(a)));
                            }
                        },
                        None => {},
                    },
                    None => {},
                }
            }
            i = i + 1;
        }
        assert(es@.take(es.len() as int) =~= es@);
        out
    }

    /// Every triage annotation targeting an object, in
    /// identifier order. Exposed for display and for appeal, and read by
    /// nothing that computes.
    pub fn triage_of(&self, target: &Cid) -> (r: Vec<Triage>)
        ensures
            r@.map_values(|t: Triage| triage_view(t)) == triage_in(
                self.annotation_entries(),
                self.object_map(),
                target@,
            ),
    {
        let es = self.annotations.entries();
        let mut out: Vec<Triage> = Vec::new();
        let mut i: usize = 0;
        assert(es@.take(0) =~= Seq::<(String, Annotation)>::empty());
        assert(out@.map_values(|t: Triage| triage_view(t)) =~= Seq::empty());
        while i < es.len()
            invariant
                i <= es.len(),
                es@ == self.annotation_entries(),
                out@.map_values(|t: Triage| triage_view(t)) == triage_in(
                    es@.take(i as int),
                    self.object_map(),
                    target@,
                ),
            decreases es.len() - i,
        {
            assert(es@.take(i + 1).drop_last() =~= es@.take(i as int));
            assert(es@.take(i + 1).last() == es@[i as int]);
            if text_eq(es[i].1.kind(), "triage") && es[i].1.target().same(target) {
                match self.objects.get(es[i].0.as_str()) {
                    Some(o) => match Triage::from_object(o) {
                        Some(t) => {
                            let ghost before = out@;
                            out.push(t);
                            assert(out@.map_values(|t: Triage| triage_view(t)) =~= before.map_values(
                                |t: Triage| triage_view(t),
                            ).push(triage_view(t)));
                        },
                        None => {},
                    },
                    None => {},
                }
            }
            i = i + 1;
        }
        assert(es@.take(es.len() as int) =~= es@);
        out
    }

    /// Critique annotations targeting a document, in
    /// identifier order.
    pub fn critiques_of(&self, target: &Cid) -> (r: Vec<&Annotation>)
        ensures
            r@.map_values(|a: &Annotation| a@) == critiques_in(self.annotation_entries(), target@),
    {
        let es = self.annotations.entries();
        let mut out: Vec<&Annotation> = Vec::new();
        let mut i: usize = 0;
        assert(es@.take(0) =~= Seq::<(String, Annotation)>::empty());
        assert(out@.map_values(|a: &Annotation| a@) =~= Seq::empty());
        while i < es.len()
            invariant
                i <= es.len(),
                es@ == self.annotation_entries(),
                out@.map_values(|a: &Annotation| a@) == critiques_in(es@.take(i as int), target@),
            decreases es.len() - i,
        {
            assert(es@.take(i + 1).drop_last() =~= es@.take(i as int));
            assert(es@.take(i + 1).last() == es@[i as int]);
            if text_eq(es[i].1.kind(), "critique") && es[i].1.target().same(target) {
                let ghost before = out@;
                out.push(&es[i].1);
                assert(out@.map_values(|a: &Annotation| a@) =~= before.map_values(|a: &Annotation| a@).push(
                    es@[i as int].1@,
                ));
            }
            i = i + 1;
        }
        assert(es@.take(es.len() as int) =~= es@);
        out
    }
}

/// The assumptions by `assumer` among annotations, in order.
pub open spec fn assumptions_in(
    anns: Seq<(String, Annotation)>,
    objs: Map<Seq<char>, Object>,
    assumer: (HashAlg, Seq<u8>),
) -> Seq<((HashAlg, Seq<u8>), (HashAlg, Seq<u8>), Basis)>
    decreases anns.len(),
{
    if anns.len() == 0 {
        Seq::empty()
    } else {
        let prev = assumptions_in(anns.drop_last(), objs, assumer);
        let (k, a) = anns.last();
        if a@.kind == "assumes-accountability"@ && objs.dom().contains(k@) {
            match assumption_reading(objs[k@]@.author, objs[k@]@.body) {
                Some(v) => if v.0 == assumer {
                    prev.push(v)
                } else {
                    prev
                },
                None => prev,
            }
        } else {
            prev
        }
    }
}

/// The triage records about `target` among annotations, in order.
pub open spec fn triage_in(
    anns: Seq<(String, Annotation)>,
    objs: Map<Seq<char>, Object>,
    target: (HashAlg, Seq<u8>),
) -> Seq<((HashAlg, Seq<u8>), Seq<char>, Seq<char>)>
    decreases anns.len(),
{
    if anns.len() == 0 {
        Seq::empty()
    } else {
        let prev = triage_in(anns.drop_last(), objs, target);
        let (k, a) = anns.last();
        if a@.kind == "triage"@ && a@.target == target && objs.dom().contains(k@) {
            match triage_reading(objs[k@]@.body) {
                Some(v) => prev.push(v),
                None => prev,
            }
        } else {
            prev
        }
    }
}

/// The critiques of `target` among annotations, in order.
pub open spec fn critiques_in(anns: Seq<(String, Annotation)>, target: (HashAlg, Seq<u8>)) -> Seq<
    crate::graph::view::AnnotationView,
>
    decreases anns.len(),
{
    if anns.len() == 0 {
        Seq::empty()
    } else {
        let prev = critiques_in(anns.drop_last(), target);
        let a = anns.last().1;
        if a@.kind == "critique"@ && a@.target == target {
            prev.push(a@)
        } else {
            prev
        }
    }
}

/// Whether a list of keys ascends strictly.
pub open spec fn ascending_keys(s: Seq<String>) -> bool {
    forall|i: int, j: int|
        0 <= i < j < s.len() ==> crate::cbor::lex_lt(
            vstd::utf8::encode_utf8((#[trigger] s[i])@),
            vstd::utf8::encode_utf8((#[trigger] s[j])@),
        )
}

/// The far ends of the links leaving (or, with `forward` false, entering)
/// `key`, each once, in ascending order.
fn ends_from(links: &Vec<(String, String)>, key: &str, forward: bool) -> (r: Vec<String>)
    ensures
        ascending_keys(r@),
        forall|x: Seq<char>| keys_view(r@).contains(x) <==> links_view(links@).contains(
            if forward {
                (key@, x)
            } else {
                (x, key@)
            },
        ),
{
    let ghost ls = links_view(links@);
    let mut t: Table<bool> = Table::new();
    let mut i: usize = 0;
    while i < links.len()
        invariant
            i <= links.len(),
            ls == links_view(links@),
            ls.len() == links.len(),
            forall|x: Seq<char>| t.map().dom().contains(x) <==> exists|j: int|
                0 <= j < i && (#[trigger] ls[j]) == (if forward {
                    (key@, x)
                } else {
                    (x, key@)
                }),
        decreases links.len() - i,
    {
        assert(ls[i as int] == (links@[i as int].0@, links@[i as int].1@));
        let (near, far) = if forward {
            (&links[i].0, &links[i].1)
        } else {
            (&links[i].1, &links[i].0)
        };
        if text_eq(near.as_str(), key) {
            t.put(copy_text(far.as_str()), true);
        }
        i = i + 1;
    }
    let es = t.entries();
    let mut out: Vec<String> = Vec::new();
    let mut j: usize = 0;
    proof {
        lemma_to_map(es@);
    }
    while j < es.len()
        invariant
            j <= es.len(),
            out.len() == j,
            ascending(es@),
            forall|s: int| 0 <= s < j ==> (#[trigger] out@[s])@ == es@[s].0@,
        decreases es.len() - j,
    {
        out.push(copy_text(es[j].0.as_str()));
        j = j + 1;
    }
    proof {
        assert forall|a: int, b: int| 0 <= a < b < out.len() implies crate::cbor::lex_lt(
            vstd::utf8::encode_utf8((#[trigger] out@[a])@),
            vstd::utf8::encode_utf8((#[trigger] out@[b])@),
        ) by {
            assert(out@[a]@ == es@[a].0@);
            assert(out@[b]@ == es@[b].0@);
        }
        assert forall|x: Seq<char>| keys_view(out@).contains(x) <==> ls.contains(
            if forward {
                (key@, x)
            } else {
                (x, key@)
            },
        ) by {
            let want = if forward {
                (key@, x)
            } else {
                (x, key@)
            };
            if keys_view(out@).contains(x) {
                let s = choose|s: int| 0 <= s < keys_view(out@).len() && keys_view(out@)[s] == x;
                assert(out@[s]@ == es@[s].0@);
                assert(t.map().dom().contains(x));
                let jj = choose|jj: int|
                    0 <= jj < links.len() && (#[trigger] ls[jj]) == (if forward {
                        (key@, x)
                    } else {
                        (x, key@)
                    });
                assert(ls[jj] == want);
            }
            if ls.contains(want) {
                let jj = choose|jj: int| 0 <= jj < ls.len() && ls[jj] == want;
                assert(t.map().dom().contains(x));
                let s = choose|s: int| 0 <= s < es@.len() && es@[s].0@ == x;
                assert(keys_view(out@)[s] == x);
            }
        }
    }
    out
}

/// The object types the graph indexes have distinct names.
proof fn lemma_kinds_distinct()
    ensures
        "publet"@ != "rel"@,
        "publet"@ != "ann"@,
        "publet"@ != "doc"@,
        "publet"@ != "anchor"@,
        "rel"@ != "ann"@,
        "rel"@ != "doc"@,
        "rel"@ != "anchor"@,
        "ann"@ != "doc"@,
        "ann"@ != "anchor"@,
        "doc"@ != "anchor"@,
{
    reveal_strlit("publet");
    reveal_strlit("rel");
    reveal_strlit("ann");
    reveal_strlit("doc");
    reveal_strlit("anchor");
    assert("publet"@.len() == 6 && "publet"@[0] == 'p');
    assert("rel"@.len() == 3 && "rel"@[0] == 'r');
    assert("ann"@.len() == 3 && "ann"@[0] == 'a');
    assert("doc"@.len() == 3 && "doc"@[0] == 'd');
    assert("anchor"@.len() == 6 && "anchor"@[0] == 'a');
}

/// What inserting an object fails with, if anything.
pub open spec fn insert_fault(g: Graph, cid: (HashAlg, Seq<u8>), o: Object) -> Option<GraphFault> {
    let kind = o@.kind;
    if kind == "publet"@ {
        match publet_reading(cid, kind, o@.body) {
            Err(f) => Some(f),
            Ok(_) => None,
        }
    } else if kind == "rel"@ {
        match relation_reading(cid, o@.author, kind, o@.body) {
            Err(f) => Some(f),
            Ok(rv) => if acyclic_kind(rv.kind) && closes_cycle(
                g.edge_list(),
                rv.kind,
                cid_string(rv.from),
                cid_string(rv.to),
            ) {
                Some(GraphFault::CycleClosing(kind_id(rv.kind), cid_string(rv.from), cid_string(rv.to)))
            } else {
                None
            },
        }
    } else if kind == "ann"@ {
        match annotation_reading(cid, o@.author, kind, o@.body) {
            Err(f) => Some(f),
            Ok(av) => {
                let t = cid_string(av.target);
                if av.kind == "verdict"@ && g.publet_map().dom().contains(t) {
                    verdict_fault(g.publet_map()[t]@.class, av.aspect)
                } else {
                    None
                }
            },
        }
    } else if kind == "doc"@ {
        match document_reading(cid, kind, o@.body) {
            Err(f) => Some(f),
            Ok(_) => None,
        }
    } else if kind == "anchor"@ {
        match anchor_reading(cid, kind, o@.body) {
            Err(f) => Some(f),
            Ok(_) => None,
        }
    } else {
        None
    }
}

/// Whether `g2` is `g` with the object `o` added under `cid`: held, typed
/// by its declared type, and, for a relation, its edge indexed.
pub open spec fn inserted(g: Graph, g2: Graph, cid: (HashAlg, Seq<u8>), o: Object) -> bool {
    let k = cid_string(cid);
    let kind = o@.kind;
    &&& g2.object_map() == g.object_map().insert(k, o)
    &&& if kind == "publet"@ {
        &&& g2.publet_map() == g.publet_map().insert(k, g2.publet_map()[k])
        &&& publet_reading(cid, kind, o@.body) == Ok::<_, GraphFault>(g2.publet_map()[k]@)
    } else {
        g2.publet_map() == g.publet_map()
    }
    &&& if kind == "rel"@ {
        &&& g2.relation_map() == g.relation_map().insert(k, g2.relation_map()[k])
        &&& relation_reading(cid, o@.author, kind, o@.body) == Ok::<_, GraphFault>(g2.relation_map()[k]@)
        &&& g2.edge_list() == g.edge_list().push(
            (g2.relation_map()[k]@.kind, cid_string(g2.relation_map()[k]@.from), cid_string(g2.relation_map()[k]@.to), k),
        )
    } else {
        g2.relation_map() == g.relation_map() && g2.edge_list() == g.edge_list()
    }
    &&& if kind == "ann"@ {
        &&& g2.annotation_map() == g.annotation_map().insert(k, g2.annotation_map()[k])
        &&& annotation_reading(cid, o@.author, kind, o@.body) == Ok::<_, GraphFault>(g2.annotation_map()[k]@)
    } else {
        g2.annotation_map() == g.annotation_map()
    }
    &&& if kind == "doc"@ {
        &&& g2.document_map() == g.document_map().insert(k, g2.document_map()[k])
        &&& document_reading(cid, kind, o@.body) == Ok::<_, GraphFault>(g2.document_map()[k]@)
    } else {
        g2.document_map() == g.document_map()
    }
    &&& if kind == "anchor"@ {
        &&& g2.anchor_map() == g.anchor_map().insert(k, g2.anchor_map()[k])
        &&& anchor_reading(cid, kind, o@.body) == Ok::<_, GraphFault>(g2.anchor_map()[k]@)
    } else {
        g2.anchor_map() == g.anchor_map()
    }
}

/// What edges of `kind` reach from `a`: the answer of [`Graph::out`].
pub open spec fn out_ends(g: Graph, kind: RelationKind, a: Seq<char>) -> Set<Seq<char>> {
    Set::new(|x: Seq<char>| kind_links(g.edge_list(), kind).contains((a, x)))
}

/// What reaches `b` by edges of `kind`: the answer of [`Graph::incoming`].
pub open spec fn in_ends(g: Graph, kind: RelationKind, b: Seq<char>) -> Set<Seq<char>> {
    Set::new(|x: Seq<char>| kind_links(g.edge_list(), kind).contains((x, b)))
}

/// The two edge queries agree: `b` is among what `a` reaches by edges of
/// a kind exactly when `a` is among what reaches `b` by them.
pub proof fn law_out_and_incoming_agree(g: Graph, kind: RelationKind, a: Seq<char>, b: Seq<char>)
    ensures
        out_ends(g, kind, a).contains(b) <==> in_ends(g, kind, b).contains(a),
{
}

/// Whether distinct keys the `depends` closure of `start` reaches read as
/// distinct identifiers: each key reached is held once, so the closure
/// then names each identifier once.
pub open spec fn read_apart(g: Graph, start: Seq<char>) -> bool {
    forall|x: Seq<char>, y: Seq<char>|
        #![trigger cid_from_text(x), cid_from_text(y)]
        reach(depends_links(g), start, x) && reach(depends_links(g), start, y) && x != start && y != start && x != y
            && cid_from_text(x) is Some ==> cid_from_text(x) != cid_from_text(y)
}

/// A relation the graph takes is linked both ways: its `from` gains the
/// `to` among the ends its outbound edges of its kind reach, the `to`
/// gains the `from` among those reaching it, and the links of every other
/// kind, and the links before it, stay as they were.
pub proof fn law_relation_is_linked(g: Graph, g2: Graph, cid: (HashAlg, Seq<u8>), o: Object, kind: RelationKind)
    requires
        inserted(g, g2, cid, o),
        o@.kind == "rel"@,
    ensures
        ({
            let r = g2.relation_map()[cid_string(cid)]@;
            &&& kind == r.kind ==> kind_links(g2.edge_list(), kind) == kind_links(g.edge_list(), kind).push(
                (cid_string(r.from), cid_string(r.to)),
            )
            &&& kind != r.kind ==> kind_links(g2.edge_list(), kind) == kind_links(g.edge_list(), kind)
            &&& kind == r.kind ==> out_ends(g2, kind, cid_string(r.from)).contains(cid_string(r.to))
            &&& kind == r.kind ==> in_ends(g2, kind, cid_string(r.to)).contains(cid_string(r.from))
        }),
{
    let r = g2.relation_map()[cid_string(cid)]@;
    assert(g2.edge_list().drop_last() =~= g.edge_list());
    if kind == r.kind {
        let l = kind_links(g2.edge_list(), kind);
        assert(l[l.len() - 1] == (cid_string(r.from), cid_string(r.to)));
    }
}

/// The links each publet's body declares to what it depends on, in
/// identifier order.
pub open spec fn body_depends(es: Seq<(String, Publet)>) -> Seq<Link>
    decreases es.len(),
{
    if es.len() == 0 {
        Seq::empty()
    } else {
        body_depends(es.drop_last()) + es.last().1@.depends.map_values(
            |d: (HashAlg, Seq<u8>)| (es.last().0@, cid_string(d)),
        )
    }
}

/// Every `depends` link: those in publet bodies, then `depends` edges.
pub open spec fn depends_links(g: Graph) -> Seq<Link> {
    body_depends(g.publet_entries()) + kind_links(g.edge_list(), RelationKind::Depends)
}

/// Whether the `depends` closure of `start` reaches `start` again, which
/// the protocol forbids.
pub open spec fn depends_cycle(g: Graph, start: Seq<char>) -> bool {
    exists|x: Seq<char>| #[trigger] reach(depends_links(g), start, x) && depends_links(g).contains((x, start))
}

impl Graph {
    /// Every `depends` link, as executable pairs.
    fn depends_pairs(&self) -> (r: Vec<(String, String)>)
        ensures
            links_view(r@) == depends_links(*self),
    {
        let es = self.publets.entries();
        let mut out: Vec<(String, String)> = Vec::new();
        let mut i: usize = 0;
        assert(es@.take(0) =~= Seq::<(String, Publet)>::empty());
        assert(links_view(out@) =~= Seq::<Link>::empty());
        while i < es.len()
            invariant
                i <= es.len(),
                es@ == self.publet_entries(),
                links_view(out@) == body_depends(es@.take(i as int)),
            decreases es.len() - i,
        {
            assert(es@.take(i + 1).drop_last() =~= es@.take(i as int));
            assert(es@.take(i + 1).last() == es@[i as int]);
            let deps = es[i].1.depends();
            let ghost before = links_view(out@);
            let ghost want = es@[i as int].1@.depends.map_values(
                |d: (HashAlg, Seq<u8>)| (es@[i as int].0@, cid_string(d)),
            );
            let mut j: usize = 0;
            while j < deps.len()
                invariant
                    j <= deps.len(),
                    i < es.len(),
                    cids_view(deps@) == es@[i as int].1@.depends,
                    want == es@[i as int].1@.depends.map_values(
                        |d: (HashAlg, Seq<u8>)| (es@[i as int].0@, cid_string(d)),
                    ),
                    links_view(out@) == before + want.take(j as int),
                decreases deps.len() - j,
            {
                assert(cids_view(deps@)[j as int] == deps@[j as int]@);
                let ghost prev = links_view(out@);
                out.push((copy_text(es[i].0.as_str()), cid_to_string(&deps[j])));
                assert(links_view(out@) =~= prev.push(want[j as int]));
                assert(want.take(j + 1) =~= want.take(j as int).push(want[j as int]));
                assert(links_view(out@) =~= before + want.take(j + 1));
                j = j + 1;
            }
            assert(want.take(deps.len() as int) =~= want);
            i = i + 1;
        }
        assert(es@.take(es.len() as int) =~= es@);
        let edges = self.links_of(RelationKind::Depends);
        let ghost body = links_view(out@);
        let mut k: usize = 0;
        while k < edges.len()
            invariant
                k <= edges.len(),
                body == body_depends(self.publet_entries()),
                links_view(edges@) == kind_links(self.edge_list(), RelationKind::Depends),
                links_view(out@) == body + links_view(edges@).take(k as int),
            decreases edges.len() - k,
        {
            let ghost prev = links_view(out@);
            out.push((copy_text(edges[k].0.as_str()), copy_text(edges[k].1.as_str())));
            assert(links_view(out@) =~= prev.push(links_view(edges@)[k as int]));
            assert(links_view(edges@).take(k + 1) =~= links_view(edges@).take(k as int).push(
                links_view(edges@)[k as int],
            ));
            k = k + 1;
        }
        assert(links_view(edges@).take(edges.len() as int) =~= links_view(edges@));
        out
    }

    /// The keys in the transitive `depends` closure of `cid`, excluding
    /// `cid`, each once.
    pub(crate) fn depends_keys(&self, cid: &Cid) -> (r: Result<Vec<String>, GraphError>)
        ensures
            match r {
                Err(e) => depends_cycle(*self, cid_string(cid@)) && e@ == GraphFault::CycleClosing(
                    "depends"@,
                    cid_string(cid@),
                    cid_string(cid@),
                ),
                Ok(keys) => !depends_cycle(*self, cid_string(cid@)) && keys_view(keys@).no_duplicates() && forall|
                    x: Seq<char>,
                | keys_view(keys@).contains(x) <==> (reach(depends_links(*self), cid_string(cid@), x) && x != cid_string(
                    cid@,
                )),
            },
    {
        let start = cid_to_string(cid);
        let links = self.depends_pairs();
        let ghost ls = links_view(links@);
        let reached = closure(&links, start.as_str());
        let mut t: usize = 0;
        while t < links.len()
            invariant
                t <= links.len(),
                start@ == cid_string(cid@),
                ls == links_view(links@),
                ls == depends_links(*self),
                forall|x: Seq<char>| keys_view(reached@).contains(x) <==> reach(ls, start@, x),
                forall|s: int|
                    0 <= s < t ==> !(keys_view(reached@).contains((#[trigger] ls[s]).0) && ls[s].1 == start@),
            decreases links.len() - t,
        {
            assert(ls[t as int] == (links@[t as int].0@, links@[t as int].1@));
            if holds(&reached, links[t].0.as_str()) && text_eq(links[t].1.as_str(), start.as_str()) {
                assert(ls.contains((ls[t as int].0, start@)));
                assert(reach(ls, start@, ls[t as int].0));
                assert(depends_cycle(*self, start@));
                return Err(
                    GraphError::CycleClosing {
                        kind: RelationKind::Depends.id(),
                        from: copy_text(start.as_str()),
                        to: copy_text(start.as_str()),
                    },
                );
            }
            t = t + 1;
        }
        proof {
            if depends_cycle(*self, start@) {
                let x = choose|x: Seq<char>| #[trigger] reach(ls, start@, x) && ls.contains((x, start@));
                let s = choose|s: int| 0 <= s < ls.len() && ls[s] == (x, start@);
                assert(keys_view(reached@).contains(x));
            }
        }
        let mut out: Vec<String> = Vec::new();
        let mut i: usize = 0;
        while i < reached.len()
            invariant
                i <= reached.len(),
                keys_view(reached@).no_duplicates(),
                keys_view(out@).no_duplicates(),
                forall|x: Seq<char>|
                    keys_view(out@).contains(x) <==> (exists|j: int|
                        0 <= j < i && (#[trigger] keys_view(reached@)[j]) == x && x != start@),
            decreases reached.len() - i,
        {
            assert(keys_view(reached@)[i as int] == reached@[i as int]@);
            let ghost before = keys_view(out@);
            if !text_eq(reached[i].as_str(), start.as_str()) {
                out.push(copy_text(reached[i].as_str()));
                assert(keys_view(out@) =~= before.push(reached@[i as int]@));
                proof {
                    if before.contains(reached@[i as int]@) {
                        let j = choose|j: int|
                            0 <= j < i && (#[trigger] keys_view(reached@)[j]) == reached@[i as int]@
                                && reached@[i as int]@ != start@;
                        assert(keys_view(reached@)[j] == keys_view(reached@)[i as int]);
                    }
                    crate::graph::closure::lemma_push_contains(before, reached@[i as int]@);
                }
            }
            proof {
                assert forall|x: Seq<char>|
                    keys_view(out@).contains(x) <==> (exists|j: int|
                        0 <= j < i + 1 && (#[trigger] keys_view(reached@)[j]) == x && x != start@) by {
                    if keys_view(out@).contains(x) && x != reached@[i as int]@ {
                        assert(before.contains(x));
                    }
                    if exists|j: int| 0 <= j < i + 1 && (#[trigger] keys_view(reached@)[j]) == x && x != start@ {
                        let j = choose|j: int|
                            0 <= j < i + 1 && (#[trigger] keys_view(reached@)[j]) == x && x != start@;
                        if j < i {
                            assert(before.contains(x));
                        } else {
                            assert(keys_view(out@)[keys_view(out@).len() - 1] == x);
                        }
                    }
                }
            }
            i = i + 1;
        }
        proof {
            assert forall|x: Seq<char>|
                keys_view(out@).contains(x) <==> (reach(ls, start@, x) && x != start@) by {
                if reach(ls, start@, x) && x != start@ {
                    assert(keys_view(reached@).contains(x));
                    let j = choose|j: int| 0 <= j < keys_view(reached@).len() && keys_view(reached@)[j] == x;
                }
                if keys_view(out@).contains(x) {
                    let j = choose|j: int|
                        0 <= j < reached.len() && (#[trigger] keys_view(reached@)[j]) == x && x != start@;
                    assert(keys_view(reached@).contains(x));
                }
            }
        }
        Ok(out)
    }

    /// The transitive `depends` closure of a publet: the
    /// in-body `depends` field and `depends` relations alike, excluding
    /// `cid` itself.
    ///
    /// Fails with [`GraphError::CycleClosing`] if the closure reaches
    /// `cid`, which the protocol forbids.
    pub fn depends_closure(&self, cid: &Cid) -> (r: Result<Vec<Cid>, GraphError>)
        ensures
            match r {
                Err(e) => depends_cycle(*self, cid_string(cid@)) && e@ == GraphFault::CycleClosing(
                    "depends"@,
                    cid_string(cid@),
                    cid_string(cid@),
                ),
                Ok(out) => !depends_cycle(*self, cid_string(cid@)) && (forall|c: (HashAlg, Seq<u8>)|
                    cids_view(out@).contains(c) <==> exists|x: Seq<char>|
                        #![trigger cid_from_text(x)]
                        reach(depends_links(*self), cid_string(cid@), x) && x != cid_string(cid@) && cid_from_text(x)
                            == Some(c)) && (read_apart(*self, cid_string(cid@)) ==> cids_view(out@).no_duplicates()),
            },
    {
        let keys = match self.depends_keys(cid) {
            Ok(k) => k,
            Err(e) => return Err(e),
        };
        let ghost start = cid_string(cid@);
        let mut out: Vec<Cid> = Vec::new();
        let mut i: usize = 0;
        while i < keys.len()
            invariant
                i <= keys.len(),
                forall|x: Seq<char>|
                    keys_view(keys@).contains(x) <==> (reach(depends_links(*self), start, x) && x != start),
                forall|c: (HashAlg, Seq<u8>)|
                    cids_view(out@).contains(c) <==> exists|j: int|
                        0 <= j < i && cid_from_text(#[trigger] keys_view(keys@)[j]) == Some(c),
                keys_view(keys@).no_duplicates(),
                read_apart(*self, start) ==> cids_view(out@).no_duplicates(),
            decreases keys.len() - i,
        {
            assert(keys_view(keys@)[i as int] == keys@[i as int]@);
            let ghost before = cids_view(out@);
            let parsed = cid_in(Some(keys[i].as_str()));
            match parsed {
                Some(c) => {
                    proof {
                        if read_apart(*self, start) {
                            assert forall|j: int| 0 <= j < before.len() implies before[j] != c@ by {
                                let t = choose|t: int| 0 <= t < i && cid_from_text(#[trigger] keys_view(keys@)[t]) == Some(before[j]);
                                assert(before.contains(before[j]));
                                let x = keys_view(keys@)[t];
                                let y = keys_view(keys@)[i as int];
                                assert(keys_view(keys@).contains(x));
                                assert(keys_view(keys@).contains(y));
                                assert(x != y);
                            }
                        }
                    }
                    out.push(c);
                    assert(cids_view(out@) =~= before.push(c@));
                },
                None => {},
            }
            proof {
                assert forall|c: (HashAlg, Seq<u8>)|
                    cids_view(out@).contains(c) <==> exists|j: int|
                        0 <= j < i + 1 && cid_from_text(#[trigger] keys_view(keys@)[j]) == Some(c) by {
                    if cids_view(out@).contains(c) {
                        if before.contains(c) {
                        } else {
                            assert(cid_from_text(keys_view(keys@)[i as int]) == Some(c));
                        }
                    }
                    if exists|j: int| 0 <= j < i + 1 && cid_from_text(#[trigger] keys_view(keys@)[j]) == Some(c) {
                        let j = choose|j: int| 0 <= j < i + 1 && cid_from_text(#[trigger] keys_view(keys@)[j]) == Some(c);
                        if j < i {
                            assert(before.contains(c));
                            let k = choose|k: int| 0 <= k < before.len() && before[k] == c;
                            if parsed is Some {
                                assert(cids_view(out@)[k] == c);
                            }
                        } else {
                            assert(cids_view(out@)[cids_view(out@).len() - 1] == c);
                        }
                    }
                }
            }
            i = i + 1;
        }
        proof {
            assert forall|c: (HashAlg, Seq<u8>)|
                cids_view(out@).contains(c) <==> exists|x: Seq<char>|
                    #![trigger cid_from_text(x)]
                    reach(depends_links(*self), start, x) && x != start && cid_from_text(x) == Some(c) by {
                if cids_view(out@).contains(c) {
                    let j = choose|j: int| 0 <= j < keys.len() && cid_from_text(#[trigger] keys_view(keys@)[j]) == Some(c);
                    assert(keys_view(keys@).contains(keys_view(keys@)[j]));
                }
                if exists|x: Seq<char>|
                    #![trigger cid_from_text(x)]
                    reach(depends_links(*self), start, x) && x != start && cid_from_text(x) == Some(c) {
                    let x = choose|x: Seq<char>|
                        #![trigger cid_from_text(x)]
                        reach(depends_links(*self), start, x) && x != start && cid_from_text(x) == Some(c);
                    assert(keys_view(keys@).contains(x));
                    let j = choose|j: int| 0 <= j < keys_view(keys@).len() && keys_view(keys@)[j] == x;
                }
            }
        }
        Ok(out)
    }
}

/// Which `supersedes` edges a lineage query follows.
#[derive(Debug, Clone, Copy, PartialEq, Eq, Structural)]
pub enum Lineage {
    /// Only edges signed by a key that also signed the target: an author's
    /// own revision history.
    Authoritative,
    /// Additionally, third-party proposals to replace.
    Full,
}

/// Whether edge `e` is one of `kind` from `from` to `to` asserted by a
/// relation whose author also signed the target.
pub open spec fn asserted_by_author(g: Graph, e: EdgeView, kind: RelationKind, from: Seq<char>, to: Seq<char>) -> bool {
    &&& e.0 == kind
    &&& e.1 == from
    &&& e.2 == to
    &&& g.relation_map().dom().contains(e.3)
    &&& g.relation_map()[e.3]@.author == g.object_map()[to]@.author
}

/// Whether any relation asserting `from -> to` carries author weight: a
/// `supersedes` edge is authoritative only when signed by a key that also
/// signed the target. Decided on demand, so the answer does not depend on
/// whether the relation or its target arrived first.
pub open spec fn authoritative(g: Graph, kind: RelationKind, from: Seq<char>, to: Seq<char>) -> bool {
    g.object_map().dom().contains(to) && exists|i: int|
        0 <= i < g.edge_list().len() && #[trigger] asserted_by_author(g, g.edge_list()[i], kind, from, to)
}

/// The `supersedes` links among `es` that a lineage in `mode` follows.
pub open spec fn lineage_links(g: Graph, es: Seq<EdgeView>, mode: Lineage) -> Seq<Link>
    decreases es.len(),
{
    if es.len() == 0 {
        Seq::empty()
    } else {
        let prev = lineage_links(g, es.drop_last(), mode);
        let e = es.last();
        if e.0 == RelationKind::Supersedes && (mode == Lineage::Full || authoritative(
            g,
            RelationKind::Supersedes,
            e.1,
            e.2,
        )) {
            prev.push((e.1, e.2))
        } else {
            prev
        }
    }
}

impl Graph {
    fn edge_is_authoritative(&self, kind: RelationKind, from: &str, to: &str) -> (r: bool)
        ensures
            r == authoritative(*self, kind, from@, to@),
    {
        let target = match self.objects.get(to) {
            Some(t) => t,
            None => return false,
        };
        let ghost es = self.edge_list();
        let mut i: usize = 0;
        while i < self.edges.len()
            invariant
                i <= self.edges.len(),
                es == self.edge_list(),
                es.len() == self.edges.len(),
                self.object_map().dom().contains(to@),
                self.object_map()[to@] == *target,
                forall|j: int| 0 <= j < i ==> !#[trigger] asserted_by_author(*self, es[j], kind, from@, to@),
            decreases self.edges.len() - i,
        {
            assert(es[i as int] == edge_view(self.edges@[i as int]));
            if self.edges[i].kind == kind && text_eq(self.edges[i].from.as_str(), from) && text_eq(
                self.edges[i].to.as_str(),
                to,
            ) {
                match self.relations.get(self.edges[i].relation.as_str()) {
                    Some(rel) => {
                        if rel.author().same(target.author()) {
                            assert(asserted_by_author(*self, es[i as int], kind, from@, to@));
                            return true;
                        }
                    },
                    None => {},
                }
            }
            i = i + 1;
        }
        false
    }

    /// The `supersedes` links a lineage in `mode` follows, as executable
    /// pairs.
    pub(crate) fn lineage_pairs(&self, mode: Lineage) -> (r: Vec<(String, String)>)
        ensures
            links_view(r@) == lineage_links(*self, self.edge_list(), mode),
    {
        let ghost es = self.edge_list();
        let mut out: Vec<(String, String)> = Vec::new();
        let mut i: usize = 0;
        assert(es.take(0) =~= Seq::<EdgeView>::empty());
        assert(links_view(out@) =~= Seq::<Link>::empty());
        while i < self.edges.len()
            invariant
                i <= self.edges.len(),
                es == self.edge_list(),
                es.len() == self.edges.len(),
                links_view(out@) == lineage_links(*self, es.take(i as int), mode),
            decreases self.edges.len() - i,
        {
            assert(es.take(i + 1).drop_last() =~= es.take(i as int));
            assert(es[i as int] == edge_view(self.edges@[i as int]));
            if self.edges[i].kind == RelationKind::Supersedes && (mode == Lineage::Full
                || self.edge_is_authoritative(
                RelationKind::Supersedes,
                self.edges[i].from.as_str(),
                self.edges[i].to.as_str(),
            )) {
                let ghost before = out@;
                out.push((copy_text(self.edges[i].from.as_str()), copy_text(self.edges[i].to.as_str())));
                assert(links_view(out@) =~= links_view(before).push((es[i as int].1, es[i as int].2)));
            }
            i = i + 1;
        }
        assert(es.take(self.edges.len() as int) =~= es);
        out
    }
}

/// The first verdict among `anns` that the class rules forbid, now that
/// its target may have arrived.
pub open spec fn verdict_check(g: Graph, anns: Seq<(String, Annotation)>) -> Option<GraphFault>
    decreases anns.len(),
{
    if anns.len() == 0 {
        None
    } else {
        match verdict_check(g, anns.drop_last()) {
            Some(f) => Some(f),
            None => {
                let a = anns.last().1@;
                let t = cid_string(a.target);
                if a.kind == "verdict"@ && g.publet_map().dom().contains(t) {
                    verdict_fault(g.publet_map()[t]@.class, a.aspect)
                } else {
                    None
                }
            },
        }
    }
}

/// The first anchor among `anchors` recommending an object outside its
/// lineage.
pub open spec fn anchor_check(g: Graph, anchors: Seq<(String, Anchor)>) -> Option<GraphFault>
    decreases anchors.len(),
{
    if anchors.len() == 0 {
        None
    } else {
        match anchor_check(g, anchors.drop_last()) {
            Some(f) => Some(f),
            None => {
                let a = anchors.last().1@;
                if crate::graph::document::anchor_in_lineage(g, a) {
                    None
                } else {
                    Some(GraphFault::AnchorOutsideLineage(cid_string(a.current), cid_string(a.lineage)))
                }
            },
        }
    }
}

/// Whether some `disputes` relation among `rels` comes from something
/// other than a publet of the graph: a dispute must name a publet stating
/// its grounds.
pub open spec fn dispute_check(g: Graph, rels: Seq<(String, Relation)>) -> bool {
    exists|i: int|
        0 <= i < rels.len() && (#[trigger] rels[i]).1@.kind == RelationKind::Disputes
            && !g.publet_map().dom().contains(cid_string(rels[i].1@.from))
}

/// What re-checking the rules that depend on arrival order finds first:
/// verdicts against their targets' classes, then anchors against their
/// lineages, then disputes against their grounds.
pub open spec fn validation(g: Graph) -> Option<GraphFault> {
    match verdict_check(g, g.annotation_entries()) {
        Some(f) => Some(f),
        None => match anchor_check(g, g.anchor_entries()) {
            Some(f) => Some(f),
            None => if dispute_check(g, g.relation_entries()) {
                Some(GraphFault::DisputeWithoutGrounds)
            } else {
                None
            },
        },
    }
}

impl Graph {
    /// Re-check rules that depend on objects arriving in any order. Objects
    /// may be inserted before the things they refer to, so class rules
    /// whose subject is a target are checked here as well as on insert.
    /// Call once the graph is loaded; see [`validation`].
    pub fn validate(&self) -> (r: Result<(), GraphError>)
        ensures
            match validation(*self) {
                Some(f) => r matches Err(e) && e@ == f,
                None => r is Ok,
            },
    {
        let anns = self.annotations.entries();
        let mut i: usize = 0;
        assert(anns@.take(0) =~= Seq::<(String, Annotation)>::empty());
        while i < anns.len()
            invariant
                i <= anns.len(),
                anns@ == self.annotation_entries(),
                verdict_check(*self, anns@.take(i as int)) is None,
            decreases anns.len() - i,
        {
            assert(anns@.take(i + 1).drop_last() =~= anns@.take(i as int));
            assert(anns@.take(i + 1).last() == anns@[i as int]);
            if text_eq(anns[i].1.kind(), "verdict") {
                let target = cid_to_string(anns[i].1.target());
                match self.publets.get(target.as_str()) {
                    Some(p) => match Graph::check_verdict(p.class(), anns[i].1.aspect()) {
                        Ok(()) => {},
                        Err(e) => {
                            assert(verdict_check(*self, anns@.take(i + 1)) is Some);
                            proof {
                                lemma_first_fault_kept(*self, anns@, i as int + 1);
                            }
                            return Err(e);
                        },
                    },
                    None => {},
                }
            }
            i = i + 1;
        }
        assert(anns@.take(anns.len() as int) =~= anns@);
        let anchors = self.anchors.entries();
        let mut k: usize = 0;
        assert(anchors@.take(0) =~= Seq::<(String, Anchor)>::empty());
        while k < anchors.len()
            invariant
                k <= anchors.len(),
                anchors@ == self.anchor_entries(),
                verdict_check(*self, self.annotation_entries()) is None,
                anchor_check(*self, anchors@.take(k as int)) is None,
            decreases anchors.len() - k,
        {
            assert(anchors@.take(k + 1).drop_last() =~= anchors@.take(k as int));
            assert(anchors@.take(k + 1).last() == anchors@[k as int]);
            match anchors[k].1.check_against(self) {
                Ok(()) => {},
                Err(e) => {
                    proof {
                        lemma_anchor_fault_kept(*self, anchors@, k as int + 1);
                    }
                    return Err(e);
                },
            }
            k = k + 1;
        }
        assert(anchors@.take(anchors.len() as int) =~= anchors@);
        let rels = self.relations.entries();
        let mut j: usize = 0;
        while j < rels.len()
            invariant
                j <= rels.len(),
                rels@ == self.relation_entries(),
                verdict_check(*self, self.annotation_entries()) is None,
                anchor_check(*self, self.anchor_entries()) is None,
                forall|t: int|
                    0 <= t < j ==> !((#[trigger] rels@[t]).1@.kind == RelationKind::Disputes
                        && !self.publet_map().dom().contains(cid_string(rels@[t].1@.from))),
            decreases rels.len() - j,
        {
            if rels[j].1.kind() == RelationKind::Disputes {
                let from = cid_to_string(rels[j].1.from());
                if self.publets.get(from.as_str()).is_none() {
                    return Err(GraphError::DisputeWithoutGrounds);
                }
            }
            j = j + 1;
        }
        Ok(())
    }
}

/// Once a fault is found among the first `n` entries, it is the first
/// fault of the whole list.
proof fn lemma_first_fault_kept(g: Graph, anns: Seq<(String, Annotation)>, n: int)
    requires
        0 <= n <= anns.len(),
        verdict_check(g, anns.take(n)) is Some,
    ensures
        verdict_check(g, anns) == verdict_check(g, anns.take(n)),
    decreases anns.len() - n,
{
    if n == anns.len() {
        assert(anns.take(n) =~= anns);
    } else {
        assert(anns.take(n + 1).drop_last() =~= anns.take(n));
        lemma_first_fault_kept(g, anns, n + 1);
    }
}

proof fn lemma_anchor_fault_kept(g: Graph, anchors: Seq<(String, Anchor)>, n: int)
    requires
        0 <= n <= anchors.len(),
        anchor_check(g, anchors.take(n)) is Some,
    ensures
        anchor_check(g, anchors) == anchor_check(g, anchors.take(n)),
    decreases anchors.len() - n,
{
    if n == anchors.len() {
        assert(anchors.take(n) =~= anchors);
    } else {
        assert(anchors.take(n + 1).drop_last() =~= anchors.take(n));
        lemma_anchor_fault_kept(g, anchors, n + 1);
    }
}

/// The links the `equivalent` relations among `rels` make, in both
/// directions, counting only those whose flag is set.
pub open spec fn equivalence_links(rels: Seq<(String, Relation)>, flags: Seq<bool>) -> Seq<Link>
    decreases rels.len(),
{
    if rels.len() == 0 {
        Seq::empty()
    } else {
        let prev = equivalence_links(rels.drop_last(), flags);
        let r = rels.last().1@;
        if r.kind == RelationKind::Equivalent && flags[rels.len() - 1] {
            prev.push((cid_string(r.from), cid_string(r.to))).push((cid_string(r.to), cid_string(r.from)))
        } else {
            prev
        }
    }
}

/// Whether `flags` records, for each `equivalent` relation, what the
/// predicate answered about its author.
pub open spec fn answered<F: Fn(&Cid) -> bool>(rels: Seq<(String, Relation)>, trusted: F, flags: Seq<bool>) -> bool {
    &&& flags.len() == rels.len()
    &&& forall|i: int|
        0 <= i < rels.len() && (#[trigger] rels[i]).1@.kind == RelationKind::Equivalent ==> trusted.ensures(
            (&rels[i].1.author_key(),),
            flags[i],
        )
}

impl Graph {
    /// Ask `trusted` about the author of each `equivalent` relation.
    pub(crate) fn trusted_flags<F: Fn(&Cid) -> bool>(&self, trusted: &F) -> (r: Vec<bool>)
        requires
            forall|c: &Cid| trusted.requires((c,)),
        ensures
            answered(self.relation_entries(), *trusted, r@),
    {
        let rels = self.relations.entries();
        let mut out: Vec<bool> = Vec::new();
        let mut i: usize = 0;
        while i < rels.len()
            invariant
                i <= rels.len(),
                rels@ == self.relation_entries(),
                forall|c: &Cid| trusted.requires((c,)),
                out.len() == i,
                forall|t: int|
                    0 <= t < i && (#[trigger] rels@[t]).1@.kind == RelationKind::Equivalent ==> trusted.ensures(
                        (&rels@[t].1.author_key(),),
                        out@[t],
                    ),
            decreases rels.len() - i,
        {
            if rels[i].1.kind() == RelationKind::Equivalent {
                let author = rels[i].1.author();
                let b = trusted(author);
                out.push(b);
            } else {
                out.push(false);
            }
            i = i + 1;
        }
        out
    }

    /// The links the trusted `equivalent` relations make.
    pub(crate) fn equivalence_pairs(&self, flags: &Vec<bool>) -> (r: Vec<(String, String)>)
        requires
            flags.len() == self.relation_entries().len(),
        ensures
            links_view(r@) == equivalence_links(self.relation_entries(), flags@),
    {
        let rels = self.relations.entries();
        let mut out: Vec<(String, String)> = Vec::new();
        let mut i: usize = 0;
        assert(rels@.take(0) =~= Seq::<(String, Relation)>::empty());
        assert(links_view(out@) =~= Seq::<Link>::empty());
        while i < rels.len()
            invariant
                i <= rels.len(),
                rels@ == self.relation_entries(),
                flags.len() == rels.len(),
                links_view(out@) == equivalence_links(rels@.take(i as int), flags@),
            decreases rels.len() - i,
        {
            assert(rels@.take(i + 1).drop_last() =~= rels@.take(i as int));
            assert(rels@.take(i + 1).last() == rels@[i as int]);
            assert(rels@.take(i + 1).len() - 1 == i);
            if rels[i].1.kind() == RelationKind::Equivalent && flags[i] {
                let from = cid_to_string(rels[i].1.from());
                let to = cid_to_string(rels[i].1.to());
                let ghost before = links_view(out@);
                out.push((copy_text(from.as_str()), copy_text(to.as_str())));
                out.push((to, from));
                assert(links_view(out@) =~= before.push((from@, to@)).push((to@, from@)));
            }
            i = i + 1;
        }
        assert(rels@.take(rels.len() as int) =~= rels@);
        out
    }
}

} // verus!
