//! Domain manifests and their constraints.
//!
//! A domain is closed under `depends`, contains no blobs, and respects a
//! declared size bound. These are normative because without them
//! local-first operation fails silently rather than loudly.

use crate::cbor::{entry_models, mlookup, model, models, Model, Value};
use crate::fields::{cid_entry, cid_from_text, cid_in, cid_string, cview, entry, lemma_models_index, mitems, mref, mtext, muint, opt_cid, sview, text_in, uint_in};
use crate::domain::generation::result_view;
use crate::graph::closure::{holds, keys_view, reach};
use crate::graph::graph::{depends_cycle, depends_links};
use crate::graph::Graph;
use crate::text::{copy_text, text_eq};
use crate::{Cid, HashAlg, Object};
use vstd::prelude::*;

verus! {

/// A domain manifest.
#[derive(Debug, Clone, PartialEq, Eq)]
pub struct Manifest {
    /// Human-readable label. Advisory only.
    pub label: String,
    /// The membership snapshot this manifest names.
    pub snapshot: Cid,
    /// Declared byte ceiling.
    pub bound: u64,
    /// Actual size in bytes.
    pub size: u64,
    /// Relations the domain is closed under.
    pub closed_under: Vec<String>,
    /// The predecessor, when this manifest was produced by a split.
    pub split_of: Option<Cid>,
}

/// What a manifest says.
pub struct ManifestView {
    pub label: Seq<char>,
    pub snapshot: (HashAlg, Seq<u8>),
    pub bound: u64,
    pub size: u64,
    pub closed_under: Seq<Seq<char>>,
    pub split_of: Option<(HashAlg, Seq<u8>)>,
}

impl View for Manifest {
    type V = ManifestView;

    open spec fn view(&self) -> ManifestView {
        ManifestView {
            label: self.label@,
            snapshot: self.snapshot@,
            bound: self.bound,
            size: self.size,
            closed_under: self.closed_under@.map_values(|s: String| s@),
            split_of: cview(self.split_of),
        }
    }
}

/// Why a manifest is invalid.
#[derive(Debug, PartialEq, Eq, Clone)]
#[non_exhaustive]
pub enum ManifestError {
    /// A required field was absent.
    MissingField {
        /// The absent field.
        field: &'static str,
    },
    /// A field had the wrong type.
    BadField {
        /// The offending field.
        field: &'static str,
        /// What is required.
        expected: &'static str,
    },
    /// The domain exceeds the bound it declared.
    OverBound {
        /// Actual size.
        size: u64,
        /// Declared ceiling.
        bound: u64,
    },
    /// The domain is not closed under `depends`.
    NotClosed {
        /// The missing dependency.
        cid: String,
    },
}

/// A manifest error with its texts as character sequences.
pub enum ManifestFault {
    MissingField(Seq<char>),
    BadField(Seq<char>, Seq<char>),
    OverBound(u64, u64),
    NotClosed(Seq<char>),
}

impl View for ManifestError {
    type V = ManifestFault;

    open spec fn view(&self) -> ManifestFault {
        match *self {
            ManifestError::MissingField { field } => ManifestFault::MissingField(field@),
            ManifestError::BadField { field, expected } => ManifestFault::BadField(field@, expected@),
            ManifestError::OverBound { size, bound } => ManifestFault::OverBound(size, bound),
            ManifestError::NotClosed { cid } => ManifestFault::NotClosed(cid@),
        }
    }
}

/// The texts among a list of items, in order; other items are skipped.
pub open spec fn texts_of(items: Seq<Model>) -> Seq<Seq<char>>
    decreases items.len(),
{
    if items.len() == 0 {
        Seq::empty()
    } else {
        match items.last() {
            Model::Text(t) => texts_of(items.drop_last()).push(t),
            _ => texts_of(items.drop_last()),
        }
    }
}

/// How a manifest body reads. `label` defaults to empty, a non-array
/// `closed_under` reads as empty, and an unparsable `split_of` as absent.
pub open spec fn manifest_reading(es: Seq<(Seq<char>, Model)>) -> Result<ManifestView, ManifestFault> {
    let snapshot = opt_cid(mtext(mlookup(es, "snapshot"@)));
    let bound = muint(mlookup(es, "bound"@));
    let size = muint(mlookup(es, "size"@));
    if snapshot is None {
        Err(ManifestFault::BadField("snapshot"@, "a CID string"@))
    } else if bound is None {
        Err(ManifestFault::MissingField("bound"@))
    } else if size is None {
        Err(ManifestFault::MissingField("size"@))
    } else if size->0 > bound->0 {
        Err(ManifestFault::OverBound(size->0, bound->0))
    } else {
        Ok(
            ManifestView {
                label: match mtext(mlookup(es, "label"@)) {
                    Some(t) => t,
                    None => Seq::empty(),
                },
                snapshot: snapshot->0,
                bound: bound->0,
                size: size->0,
                closed_under: match mitems(mlookup(es, "closed_under"@)) {
                    Some(items) => texts_of(items),
                    None => Seq::empty(),
                },
                split_of: opt_cid(mtext(mlookup(es, "split_of"@))),
            },
        )
    }
}

/// Collect the texts among some values.
fn collect_texts(items: &Vec<Value>) -> (r: Vec<String>)
    ensures
        r@.map_values(|s: String| s@) == texts_of(models(items@)),
{
    let mut out: Vec<String> = Vec::new();
    let mut i: usize = 0;
    proof {
        crate::cbor::encode::lemma_models_len(items@);
        assert(models(items@).take(0) =~= Seq::<Model>::empty());
        assert(out@.map_values(|s: String| s@) =~= Seq::<Seq<char>>::empty());
    }
    while i < items.len()
        invariant
            i <= items.len(),
            models(items@).len() == items.len(),
            out@.map_values(|s: String| s@) == texts_of(models(items@).take(i as int)),
        decreases items.len() - i,
    {
        proof {
            lemma_models_index(items@, i as int);
            assert(models(items@).take(i + 1).drop_last() =~= models(items@).take(i as int));
            assert(models(items@).take(i + 1).last() == model(items@[i as int]));
        }
        let ghost before = out@;
        match &items[i] {
            Value::Text(t) => {
                out.push(copy_text(t.as_str()));
                assert(out@.map_values(|s: String| s@) =~= before.map_values(|s: String| s@).push(t@));
            },
            _ => {},
        }
        i = i + 1;
    }
    assert(models(items@).take(items.len() as int) =~= models(items@));
    out
}

impl Manifest {
    /// Read a manifest from a verified object.
    ///
    /// Fails when a field is absent or ill-typed, or when the declared size
    /// exceeds the declared bound; see [`manifest_reading`].
    pub fn from_object(object: &Object) -> (r: Result<Self, ManifestError>)
        ensures
            result_view(r) == manifest_reading(object@.body),
    {
        let body = object.body();
        let label = match text_in(entry(body, "label")) {
            Some(t) => copy_text(t),
            None => String::new(),
        };
        let snapshot = match cid_entry(body, "snapshot") {
            Some(c) => c,
            None => return Err(ManifestError::BadField { field: "snapshot", expected: "a CID string" }),
        };
        let bound = match uint_in(entry(body, "bound")) {
            Some(n) => n,
            None => return Err(ManifestError::MissingField { field: "bound" }),
        };
        let size = match uint_in(entry(body, "size")) {
            Some(n) => n,
            None => return Err(ManifestError::MissingField { field: "size" }),
        };
        let closed_under = match entry(body, "closed_under") {
            Some(Value::Array(items)) => collect_texts(items),
            _ => {
                let v: Vec<String> = Vec::new();
                assert(v@.map_values(|s: String| s@) =~= Seq::<Seq<char>>::empty());
                v
            },
        };
        let split_of = cid_entry(body, "split_of");
        if size > bound {
            return Err(ManifestError::OverBound { size, bound });
        }
        proof {
            assert(label@ == match mtext(mlookup(object@.body, "label"@)) {
                Some(t) => t,
                None => Seq::<char>::empty(),
            });
        }
        Ok(Manifest { label, snapshot, bound, size, closed_under, split_of })
    }

    /// Whether the manifest claims closure under `depends`.
    pub fn claims_depends_closure(&self) -> (r: bool)
        ensures
            r == self@.closed_under.contains("depends"@),
    {
        let mut i: usize = 0;
        while i < self.closed_under.len()
            invariant
                i <= self.closed_under.len(),
                forall|j: int| 0 <= j < i ==> self.closed_under@[j]@ != "depends"@,
            decreases self.closed_under.len() - i,
        {
            if text_eq(self.closed_under[i].as_str(), "depends") {
                assert(self@.closed_under[i as int] == "depends"@);
                return true;
            }
            i = i + 1;
        }
        proof {
            if self@.closed_under.contains("depends"@) {
                let j = choose|j: int| 0 <= j < self@.closed_under.len() && self@.closed_under[j] == "depends"@;
                assert(self.closed_under@[j]@ != "depends"@);
            }
        }
        false
    }
}

/// Whether `x` is in the `depends` closure of the member `m` but is not
/// itself a member. A member that does not parse as an identifier, or
/// whose closure is cyclic, contributes nothing.
pub open spec fn escapes(g: Graph, members: Seq<Seq<char>>, m: Seq<char>, x: Seq<char>) -> bool {
    &&& cid_from_text(m) is Some
    &&& !depends_cycle(g, cid_string(cid_from_text(m)->0))
    &&& reach(depends_links(g), cid_string(cid_from_text(m)->0), x)
    &&& x != cid_string(cid_from_text(m)->0)
    &&& !members.contains(x)
}

/// Whether some member's `depends` closure leaves the members.
pub open spec fn not_closed(g: Graph, members: Seq<Seq<char>>) -> bool {
    exists|i: int, x: Seq<char>| 0 <= i < members.len() && #[trigger] escapes(g, members, members[i], x)
}

/// A dependency of the member at `i` that is not a member, if any.
fn escaping(graph: &Graph, members: &Vec<String>, i: usize) -> (r: Option<String>)
    requires
        i < members.len(),
    ensures
        match r {
            Some(x) => escapes(*graph, keys_view(members@), keys_view(members@)[i as int], x@),
            None => forall|x: Seq<char>| !#[trigger] escapes(*graph, keys_view(members@), keys_view(members@)[i as int], x),
        },
{
    let ghost ms = keys_view(members@);
    assert(ms[i as int] == members@[i as int]@);
    let cid = match cid_in(Some(members[i].as_str())) {
        Some(c) => c,
        None => return None,
    };
    let deps = match graph.depends_keys(&cid) {
        Ok(d) => d,
        Err(_) => return None,
    };
    let mut j: usize = 0;
    while j < deps.len()
        invariant
            j <= deps.len(),
            i < members.len(),
            ms == keys_view(members@),
            ms.len() == members.len(),
            cid_from_text(ms[i as int]) == Some(cid@),
            !depends_cycle(*graph, cid_string(cid@)),
            forall|x: Seq<char>|
                keys_view(deps@).contains(x) <==> (reach(depends_links(*graph), cid_string(cid@), x) && x != cid_string(
                    cid@,
                )),
            forall|t: int| 0 <= t < j ==> ms.contains(#[trigger] keys_view(deps@)[t]),
        decreases deps.len() - j,
    {
        assert(keys_view(deps@)[j as int] == deps@[j as int]@);
        if !holds(members, deps[j].as_str()) {
            assert(keys_view(deps@).contains(deps@[j as int]@));
            return Some(copy_text(deps[j].as_str()));
        }
        j = j + 1;
    }
    proof {
        assert forall|x: Seq<char>| !#[trigger] escapes(*graph, ms, ms[i as int], x) by {
            if escapes(*graph, ms, ms[i as int], x) {
                assert(keys_view(deps@).contains(x));
                let t = choose|t: int| 0 <= t < keys_view(deps@).len() && keys_view(deps@)[t] == x;
            }
        }
    }
    None
}

/// Check that every member's `depends` closure is inside the domain.
///
/// Fails with [`ManifestError::NotClosed`] naming a dependency outside it.
pub fn check_depends_closure(graph: &Graph, members: &Vec<String>) -> (r: Result<(), ManifestError>)
    ensures
        r is Ok <==> !not_closed(*graph, keys_view(members@)),
        r is Err ==> r->Err_0 is NotClosed && exists|i: int|
            0 <= i < members.len() && #[trigger] escapes(
                *graph,
                keys_view(members@),
                keys_view(members@)[i],
                r->Err_0->cid@,
            ),
{
    let ghost ms = keys_view(members@);
    let mut i: usize = 0;
    while i < members.len()
        invariant
            i <= members.len(),
            ms == keys_view(members@),
            forall|k: int, x: Seq<char>| 0 <= k < i ==> !#[trigger] escapes(*graph, ms, ms[k], x),
        decreases members.len() - i,
    {
        match escaping(graph, members, i) {
            Some(missing) => {
                let e = ManifestError::NotClosed { cid: missing };
                assert(e->cid@ == missing@);
                assert(escapes(*graph, keys_view(members@), keys_view(members@)[i as int], e->cid@));
                return Err(e);
            },
            None => {},
        }
        i = i + 1;
    }
    Ok(())
}

} // verus!
