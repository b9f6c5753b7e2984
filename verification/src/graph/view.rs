//! Typed views over the object types the graph indexes.
//!
//! An [`Object`] carries an untyped body. These views read the fields each
//! type is required to have, failing rather than defaulting when one is
//! absent, so a malformed object never enters the graph wearing a shape it
//! does not have.

use crate::cbor::{mlookup, model, models, Model, Value};
use crate::domain::generation::result_view;
use crate::fields::{
    cid_list, cid_in, cids_view, entry, lemma_models_index, member, mget, mref, mtext, opt_cid,
    read_cid_list, text_in,
};
use crate::graph::error::{GraphError, GraphFault};
use crate::text::{before, before_char, copy_text, lowercased, text_eq, to_lowercase, trim_text, trimmed};
use crate::{Cid, HashAlg, Object};
use vstd::prelude::*;

verus! {

/// A claim class.
#[derive(Debug, Clone, Copy, PartialEq, Eq, Hash, Structural)]
#[non_exhaustive]
pub enum Class {
    /// A mathematical or logical statement, settled by proof checking.
    Formal,
    /// A claim about the observable world, settled by reproduction.
    Empirical,
    /// "X said Y", verified on the provenance of the attribution.
    Attributive,
    /// A stipulated meaning, described by usage rather than voted true.
    Definitional,
    /// An ought-claim. Not truth-apt.
    Normative,
    /// Poetry, fiction, testimony. Not truth-apt.
    Expressive,
    /// A primary-source record, verified on provenance and custody.
    Archival,
    /// An instruction or method, settled by reproduction reports.
    Procedural,
}

/// The identifier of a class.
pub open spec fn class_id(c: Class) -> Seq<char> {
    match c {
        Class::Formal => "formal"@,
        Class::Empirical => "empirical"@,
        Class::Attributive => "attributive"@,
        Class::Definitional => "definitional"@,
        Class::Normative => "normative"@,
        Class::Expressive => "expressive"@,
        Class::Archival => "archival"@,
        Class::Procedural => "procedural"@,
    }
}

/// The class an identifier names, if any.
pub open spec fn class_from_id(id: Seq<char>) -> Option<Class> {
    if id == "formal"@ {
        Some(Class::Formal)
    } else if id == "empirical"@ {
        Some(Class::Empirical)
    } else if id == "attributive"@ {
        Some(Class::Attributive)
    } else if id == "definitional"@ {
        Some(Class::Definitional)
    } else if id == "normative"@ {
        Some(Class::Normative)
    } else if id == "expressive"@ {
        Some(Class::Expressive)
    } else if id == "archival"@ {
        Some(Class::Archival)
    } else if id == "procedural"@ {
        Some(Class::Procedural)
    } else {
        None
    }
}

/// Whether a class is truth-apt, so that a verdict may target it.
pub open spec fn truth_apt(c: Class) -> bool {
    !(c is Definitional || c is Normative || c is Expressive)
}

impl Class {
    /// Resolve the identifier used in a publet body.
    pub fn from_id(id: &str) -> (r: Option<Self>)
        ensures
            r == class_from_id(id@),
    {
        if text_eq(id, "formal") {
            Some(Class::Formal)
        } else if text_eq(id, "empirical") {
            Some(Class::Empirical)
        } else if text_eq(id, "attributive") {
            Some(Class::Attributive)
        } else if text_eq(id, "definitional") {
            Some(Class::Definitional)
        } else if text_eq(id, "normative") {
            Some(Class::Normative)
        } else if text_eq(id, "expressive") {
            Some(Class::Expressive)
        } else if text_eq(id, "archival") {
            Some(Class::Archival)
        } else if text_eq(id, "procedural") {
            Some(Class::Procedural)
        } else {
            None
        }
    }

    /// The identifier used in a publet body.
    pub fn id(self) -> (r: &'static str)
        ensures
            r@ == class_id(self),
    {
        match self {
            Class::Formal => "formal",
            Class::Empirical => "empirical",
            Class::Attributive => "attributive",
            Class::Definitional => "definitional",
            Class::Normative => "normative",
            Class::Expressive => "expressive",
            Class::Archival => "archival",
            Class::Procedural => "procedural",
        }
    }

    /// Whether a verdict annotation may target a publet of this class.
    ///
    /// `definitional`, `normative`, and `expressive` are not truth-apt, and
    /// a verdict on one is a category error rather than a disagreement.
    pub fn accepts_verdict(self) -> (r: bool)
        ensures
            r == truth_apt(self),
    {
        !matches!(self, Class::Definitional | Class::Normative | Class::Expressive)
    }

    /// Whether this class's content is itself the assertion.
    pub fn content_is_assertion(self) -> (r: bool)
        ensures
            r == (self is Formal || self is Empirical || self is Definitional || self is Normative),
    {
        matches!(self, Class::Formal | Class::Empirical | Class::Definitional | Class::Normative)
    }

    /// Whether a verdict on this class is confined to provenance.
    pub fn verdict_confined_to_provenance(self) -> (r: bool)
        ensures
            r == (self is Attributive || self is Archival),
    {
        matches!(self, Class::Attributive | Class::Archival)
    }
}

/// What a key declares itself to be.
#[derive(Debug, Clone, Copy, PartialEq, Eq, Hash, Structural)]
#[non_exhaustive]
pub enum Principal {
    /// A person. Only human principals may author, be counted toward a
    /// replication floor, or hold stewardship.
    Human,
    /// An organization. It may sign, fund, and operate infrastructure.
    Organization,
    /// An automated system.
    Automated,
}

/// The identifier of a principal.
pub open spec fn principal_id(p: Principal) -> Seq<char> {
    match p {
        Principal::Human => "human"@,
        Principal::Organization => "organization"@,
        Principal::Automated => "automated"@,
    }
}

/// The principal an identifier names, if any.
pub open spec fn principal_from_id(id: Seq<char>) -> Option<Principal> {
    if id == "human"@ {
        Some(Principal::Human)
    } else if id == "organization"@ {
        Some(Principal::Organization)
    } else if id == "automated"@ {
        Some(Principal::Automated)
    } else {
        None
    }
}

impl Principal {
    /// Resolve the identifier used in a key object.
    pub fn from_id(id: &str) -> (r: Option<Self>)
        ensures
            r == principal_from_id(id@),
    {
        if text_eq(id, "human") {
            Some(Principal::Human)
        } else if text_eq(id, "organization") {
            Some(Principal::Organization)
        } else if text_eq(id, "automated") {
            Some(Principal::Automated)
        } else {
            None
        }
    }

    /// The identifier used in a key object.
    pub fn id(self) -> (r: &'static str)
        ensures
            r@ == principal_id(self),
    {
        match self {
            Principal::Human => "human",
            Principal::Organization => "organization",
            Principal::Automated => "automated",
        }
    }

    /// Whether this principal may author and be counted: only humans
    /// carry authorship weight.
    pub fn is_human(self) -> (r: bool)
        ensures
            r == (self is Human),
    {
        matches!(self, Principal::Human)
    }
}

/// A relation kind.
#[derive(Debug, Clone, Copy, PartialEq, Eq, Hash, PartialOrd, Ord, Structural)]
#[non_exhaustive]
pub enum RelationKind {
    /// `from` replaces `to`. Acyclic; constitutes lineage.
    Supersedes,
    /// `from` translates `to`.
    Translates,
    /// `from` presupposes `to`. Acyclic.
    Depends,
    /// `from` argues against `to`.
    Disputes,
    /// `from` argues for `to`.
    Supports,
    /// `from` and `to` express the same claim.
    Equivalent,
    /// The signer withdraws a prior assertion.
    Retracts,
    /// `from` copies or adapts `to`. Acyclic.
    DerivedFrom,
    /// `from` authorizes `to` to continue a line of work.
    Delegates,
}

/// The identifier of a relation kind.
pub open spec fn kind_id(k: RelationKind) -> Seq<char> {
    match k {
        RelationKind::Supersedes => "supersedes"@,
        RelationKind::Translates => "translates"@,
        RelationKind::Depends => "depends"@,
        RelationKind::Disputes => "disputes"@,
        RelationKind::Supports => "supports"@,
        RelationKind::Equivalent => "equivalent"@,
        RelationKind::Retracts => "retracts"@,
        RelationKind::DerivedFrom => "derived-from"@,
        RelationKind::Delegates => "delegates"@,
    }
}

/// The relation kind an identifier names, if any.
pub open spec fn kind_from_id(id: Seq<char>) -> Option<RelationKind> {
    if id == "supersedes"@ {
        Some(RelationKind::Supersedes)
    } else if id == "translates"@ {
        Some(RelationKind::Translates)
    } else if id == "depends"@ {
        Some(RelationKind::Depends)
    } else if id == "disputes"@ {
        Some(RelationKind::Disputes)
    } else if id == "supports"@ {
        Some(RelationKind::Supports)
    } else if id == "equivalent"@ {
        Some(RelationKind::Equivalent)
    } else if id == "retracts"@ {
        Some(RelationKind::Retracts)
    } else if id == "derived-from"@ {
        Some(RelationKind::DerivedFrom)
    } else if id == "delegates"@ {
        Some(RelationKind::Delegates)
    } else {
        None
    }
}

/// Whether edges of a kind must not close a cycle.
pub open spec fn acyclic_kind(k: RelationKind) -> bool {
    k is Supersedes || k is Depends || k is DerivedFrom
}

impl RelationKind {
    /// Resolve the identifier used in a relation body.
    pub fn from_id(id: &str) -> (r: Option<Self>)
        ensures
            r == kind_from_id(id@),
    {
        if text_eq(id, "supersedes") {
            Some(RelationKind::Supersedes)
        } else if text_eq(id, "translates") {
            Some(RelationKind::Translates)
        } else if text_eq(id, "depends") {
            Some(RelationKind::Depends)
        } else if text_eq(id, "disputes") {
            Some(RelationKind::Disputes)
        } else if text_eq(id, "supports") {
            Some(RelationKind::Supports)
        } else if text_eq(id, "equivalent") {
            Some(RelationKind::Equivalent)
        } else if text_eq(id, "retracts") {
            Some(RelationKind::Retracts)
        } else if text_eq(id, "derived-from") {
            Some(RelationKind::DerivedFrom)
        } else if text_eq(id, "delegates") {
            Some(RelationKind::Delegates)
        } else {
            None
        }
    }

    /// The identifier used in a relation body.
    pub fn id(self) -> (r: &'static str)
        ensures
            r@ == kind_id(self),
    {
        match self {
            RelationKind::Supersedes => "supersedes",
            RelationKind::Translates => "translates",
            RelationKind::Depends => "depends",
            RelationKind::Disputes => "disputes",
            RelationKind::Supports => "supports",
            RelationKind::Equivalent => "equivalent",
            RelationKind::Retracts => "retracts",
            RelationKind::DerivedFrom => "derived-from",
            RelationKind::Delegates => "delegates",
        }
    }

    /// Whether an edge of this kind closing a cycle must be rejected:
    /// `supersedes`, `depends` and `derived-from` express a lineage or a
    /// presupposition, which a cycle would make incoherent.
    pub fn is_acyclic(self) -> (r: bool)
        ensures
            r == acyclic_kind(self),
    {
        matches!(self, RelationKind::Supersedes | RelationKind::Depends | RelationKind::DerivedFrom)
    }
}

/// How a required text field reads.
pub open spec fn text_reading(m: Option<Model>, f: Seq<char>) -> Result<Seq<char>, GraphFault> {
    match m {
        Some(Model::Text(t)) => Ok(t),
        Some(_) => Err(GraphFault::BadField(f, "a text string"@)),
        None => Err(GraphFault::MissingField(f)),
    }
}

/// How a required identifier field reads.
pub open spec fn cid_reading(m: Option<Model>, f: Seq<char>) -> Result<(HashAlg, Seq<u8>), GraphFault> {
    match text_reading(m, f) {
        Err(e) => Err(e),
        Ok(t) => match opt_cid(Some(t)) {
            Some(c) => Ok(c),
            None => Err(GraphFault::BadField(f, "a CID string"@)),
        },
    }
}

/// Read a required text field.
pub(crate) fn text(value: Option<&Value>, field: &'static str) -> (r: Result<String, GraphError>)
    ensures
        match text_reading(mref(value), field@) {
            Ok(t) => r matches Ok(s) && s@ == t,
            Err(e) => r matches Err(x) && x@ == e,
        },
{
    match value {
        Some(Value::Text(s)) => Ok(copy_text(s.as_str())),
        Some(_) => Err(GraphError::BadField { field, expected: "a text string" }),
        None => Err(GraphError::MissingField { field }),
    }
}

/// Read a required identifier field.
pub(crate) fn cid_field(value: Option<&Value>, field: &'static str) -> (r: Result<Cid, GraphError>)
    ensures
        match cid_reading(mref(value), field@) {
            Ok(c) => r matches Ok(x) && x@ == c,
            Err(e) => r matches Err(x) && x@ == e,
        },
{
    let t = match text(value, field) {
        Ok(t) => t,
        Err(e) => return Err(e),
    };
    match Cid::parse(t.as_str()) {
        Ok(c) => Ok(c),
        Err(_) => Err(GraphError::BadField { field, expected: "a CID string" }),
    }
}

/// Whether an evidence list carries an entry with `role: "method"`.
pub open spec fn names_a_method(evidence: Option<Model>) -> bool {
    match evidence {
        Some(Model::Array(entries)) => exists|i: int|
            0 <= i < entries.len() && mtext(mget(#[trigger] entries[i], "role"@)) == Some("method"@),
        _ => false,
    }
}

/// Check an evidence list for a method entry.
fn has_method(evidence: Option<&Value>) -> (r: bool)
    ensures
        r == names_a_method(mref(evidence)),
{
    match evidence {
        Some(Value::Array(entries)) => {
            let mut i: usize = 0;
            proof {
                crate::cbor::encode::lemma_models_len(entries@);
            }
            while i < entries.len()
                invariant
                    i <= entries.len(),
                    models(entries@).len() == entries.len(),
                    mref(evidence) == Some(Model::Array(models(entries@))),
                    forall|j: int|
                        0 <= j < i ==> mtext(mget(#[trigger] models(entries@)[j], "role"@)) != Some(
                            "method"@,
                        ),
                decreases entries.len() - i,
            {
                proof {
                    lemma_models_index(entries@, i as int);
                }
                match text_in(member(&entries[i], "role")) {
                    Some(t) => {
                        if text_eq(t, "method") {
                            assert(mtext(mget(models(entries@)[i as int], "role"@)) == Some("method"@));
                            return true;
                        }
                    },
                    None => {},
                }
                i = i + 1;
            }
            false
        },
        _ => false,
    }
}

/// A publet.
#[derive(Debug, Clone)]
pub struct Publet {
    cid: Cid,
    class: Class,
    lang: String,
    content: String,
    depends: Vec<Cid>,
}

/// What a publet holds.
pub struct PubletView {
    pub cid: (HashAlg, Seq<u8>),
    pub class: Class,
    pub lang: Seq<char>,
    pub content: Seq<char>,
    pub depends: Seq<(HashAlg, Seq<u8>)>,
}

impl View for Publet {
    type V = PubletView;

    closed spec fn view(&self) -> PubletView {
        PubletView {
            cid: self.cid@,
            class: self.class,
            lang: self.lang@,
            content: self.content@,
            depends: cids_view(self.depends@),
        }
    }
}

/// How a publet object reads. The object's type must be `publet`; then
/// `class`, `depends`, the method rule for empirical claims, `lang` and
/// `content` are checked in that order.
#[verifier::opaque]
pub open spec fn publet_reading(cid: (HashAlg, Seq<u8>), kind: Seq<char>, es: Seq<(Seq<char>, Model)>) -> Result<
    PubletView,
    GraphFault,
> {
    let class_text = text_reading(mlookup(es, "class"@), "class"@);
    let depends = match mlookup(es, "depends"@) {
        Some(Model::Array(items)) => match cid_list(items) {
            Some(c) => Ok(c),
            None => Err(GraphFault::BadField("depends"@, "an array of CID strings"@)),
        },
        Some(_) => Err(GraphFault::BadField("depends"@, "an array"@)),
        None => Ok(Seq::empty()),
    };
    let lang = text_reading(mlookup(es, "lang"@), "lang"@);
    let content = text_reading(mlookup(es, "content"@), "content"@);
    if kind != "publet"@ {
        Err(GraphFault::WrongKind("publet"@, kind))
    } else if class_text is Err {
        Err(class_text->Err_0)
    } else if class_from_id(class_text->Ok_0) is None {
        Err(GraphFault::UnknownClass(class_text->Ok_0))
    } else if depends is Err {
        Err(depends->Err_0)
    } else if class_from_id(class_text->Ok_0) == Some(Class::Empirical) && !names_a_method(
        mlookup(es, "evidence"@),
    ) {
        Err(GraphFault::EmpiricalWithoutMethod)
    } else if lang is Err {
        Err(lang->Err_0)
    } else if content is Err {
        Err(content->Err_0)
    } else {
        Ok(
            PubletView {
                cid,
                class: class_from_id(class_text->Ok_0)->0,
                lang: lang->Ok_0,
                content: content->Ok_0,
                depends: depends->Ok_0,
            },
        )
    }
}

impl Publet {
    /// Read a publet from a verified object; see [`publet_reading`].
    pub fn from_object(cid: Cid, object: &Object) -> (r: Result<Self, GraphError>)
        ensures
            result_view(r) == publet_reading(cid@, object@.kind, object@.body),
    {
        proof {
            reveal(publet_reading);
        }
        if !text_eq(object.kind(), "publet") {
            return Err(GraphError::WrongKind { expected: "publet", found: copy_text(object.kind()) });
        }
        let body = object.body();
        let class_text = match text(entry(body, "class"), "class") {
            Ok(t) => t,
            Err(e) => return Err(e),
        };
        let class = match Class::from_id(class_text.as_str()) {
            Some(c) => c,
            None => return Err(GraphError::UnknownClass { found: class_text }),
        };
        let depends = match entry(body, "depends") {
            Some(Value::Array(items)) => match read_cid_list(items) {
                Some(d) => d,
                None => return Err(
                    GraphError::BadField { field: "depends", expected: "an array of CID strings" },
                ),
            },
            Some(_) => return Err(GraphError::BadField { field: "depends", expected: "an array" }),
            None => {
                let v: Vec<Cid> = Vec::new();
                assert(cids_view(v@) =~= Seq::empty());
                v
            },
        };
        if class == Class::Empirical && !has_method(entry(body, "evidence")) {
            return Err(GraphError::EmpiricalWithoutMethod);
        }
        let lang = match text(entry(body, "lang"), "lang") {
            Ok(t) => t,
            Err(e) => return Err(e),
        };
        let content = match text(entry(body, "content"), "content") {
            Ok(t) => t,
            Err(e) => return Err(e),
        };
        Ok(Publet { cid, class, lang, content, depends })
    }

    /// This publet's identifier.
    pub fn cid(&self) -> (r: &Cid)
        ensures
            r@ == self@.cid,
    {
        &self.cid
    }

    /// The claim class.
    pub fn class(&self) -> (r: Class)
        ensures
            r == self@.class,
    {
        self.class
    }

    /// The BCP 47 language tag.
    pub fn lang(&self) -> (r: &str)
        ensures
            r@ == self@.lang,
    {
        self.lang.as_str()
    }

    /// The assertion.
    pub fn content(&self) -> (r: &str)
        ensures
            r@ == self@.content,
    {
        self.content.as_str()
    }

    /// Publets whose meaning this one presupposes.
    pub fn depends(&self) -> (r: &[Cid])
        ensures
            cids_view(r@) == self@.depends,
    {
        self.depends.as_slice()
    }
}

/// A key object.
#[derive(Debug, Clone)]
pub struct Key {
    cid: Cid,
    principal: Principal,
}

impl View for Key {
    type V = ((HashAlg, Seq<u8>), Principal);

    closed spec fn view(&self) -> ((HashAlg, Seq<u8>), Principal) {
        (self.cid@, self.principal)
    }
}

/// How a key object reads: its type must be `key` and its `principal` a
/// known one.
pub open spec fn key_reading(cid: (HashAlg, Seq<u8>), kind: Seq<char>, es: Seq<(Seq<char>, Model)>) -> Result<
    ((HashAlg, Seq<u8>), Principal),
    GraphFault,
> {
    let declared = text_reading(mlookup(es, "principal"@), "principal"@);
    if kind != "key"@ {
        Err(GraphFault::WrongKind("key"@, kind))
    } else if declared is Err {
        Err(declared->Err_0)
    } else {
        match principal_from_id(declared->Ok_0) {
            Some(p) => Ok((cid, p)),
            None => Err(GraphFault::UnknownPrincipal(declared->Ok_0)),
        }
    }
}

impl Key {
    /// Read a key from a verified object; see [`key_reading`]. The
    /// principal is required because every rule that turns on who may
    /// author depends on it.
    pub fn from_object(cid: Cid, object: &Object) -> (r: Result<Self, GraphError>)
        ensures
            result_view(r) == key_reading(cid@, object@.kind, object@.body),
    {
        if !text_eq(object.kind(), "key") {
            return Err(GraphError::WrongKind { expected: "key", found: copy_text(object.kind()) });
        }
        let declared = match text(entry(object.body(), "principal"), "principal") {
            Ok(t) => t,
            Err(e) => return Err(e),
        };
        match Principal::from_id(declared.as_str()) {
            Some(principal) => Ok(Key { cid, principal }),
            None => Err(GraphError::UnknownPrincipal { found: declared }),
        }
    }

    /// This key's identifier.
    pub fn cid(&self) -> (r: &Cid)
        ensures
            r@ == self@.0,
    {
        &self.cid
    }

    /// What the key declares itself to be.
    pub fn principal(&self) -> (r: Principal)
        ensures
            r == self@.1,
    {
        self.principal
    }
}

/// A relation.
#[derive(Debug, Clone)]
pub struct Relation {
    cid: Cid,
    author: Cid,
    kind: RelationKind,
    from: Cid,
    to: Cid,
}

/// What a relation asserts.
pub struct RelationView {
    pub cid: (HashAlg, Seq<u8>),
    pub author: (HashAlg, Seq<u8>),
    pub kind: RelationKind,
    pub from: (HashAlg, Seq<u8>),
    pub to: (HashAlg, Seq<u8>),
}

impl View for Relation {
    type V = RelationView;

    closed spec fn view(&self) -> RelationView {
        RelationView {
            cid: self.cid@,
            author: self.author@,
            kind: self.kind,
            from: self.from@,
            to: self.to@,
        }
    }
}

/// How a relation object reads: type `rel`, a known `kind`, then `from`
/// and `to` identifiers.
#[verifier::opaque]
pub open spec fn relation_reading(
    cid: (HashAlg, Seq<u8>),
    author: (HashAlg, Seq<u8>),
    kind: Seq<char>,
    es: Seq<(Seq<char>, Model)>,
) -> Result<RelationView, GraphFault> {
    let k = text_reading(mlookup(es, "kind"@), "kind"@);
    let from = cid_reading(mlookup(es, "from"@), "from"@);
    let to = cid_reading(mlookup(es, "to"@), "to"@);
    if kind != "rel"@ {
        Err(GraphFault::WrongKind("rel"@, kind))
    } else if k is Err {
        Err(k->Err_0)
    } else if kind_from_id(k->Ok_0) is None {
        Err(GraphFault::UnknownKind(k->Ok_0))
    } else if from is Err {
        Err(from->Err_0)
    } else if to is Err {
        Err(to->Err_0)
    } else {
        Ok(
            RelationView {
                cid,
                author,
                kind: kind_from_id(k->Ok_0)->0,
                from: from->Ok_0,
                to: to->Ok_0,
            },
        )
    }
}

impl Relation {
    /// Read a relation from a verified object; see [`relation_reading`].
    pub fn from_object(cid: Cid, object: &Object) -> (r: Result<Self, GraphError>)
        ensures
            result_view(r) == relation_reading(cid@, object@.author, object@.kind, object@.body),
    {
        proof {
            reveal(relation_reading);
        }
        if !text_eq(object.kind(), "rel") {
            return Err(GraphError::WrongKind { expected: "rel", found: copy_text(object.kind()) });
        }
        let body = object.body();
        let kind_text = match text(entry(body, "kind"), "kind") {
            Ok(t) => t,
            Err(e) => return Err(e),
        };
        let kind = match RelationKind::from_id(kind_text.as_str()) {
            Some(k) => k,
            None => return Err(GraphError::UnknownKind { found: kind_text }),
        };
        let from = match cid_field(entry(body, "from"), "from") {
            Ok(c) => c,
            Err(e) => return Err(e),
        };
        let to = match cid_field(entry(body, "to"), "to") {
            Ok(c) => c,
            Err(e) => return Err(e),
        };
        Ok(Relation { cid, author: object.author().clone(), kind, from, to })
    }

    /// This relation's identifier.
    pub fn cid(&self) -> (r: &Cid)
        ensures
            r@ == self@.cid,
    {
        &self.cid
    }

    /// The key that authored the relation, as held.
    pub closed spec fn author_key(self) -> Cid {
        self.author
    }

    /// The key that authored the relation.
    pub fn author(&self) -> (r: &Cid)
        ensures
            r@ == self@.author,
            *r == self.author_key(),
    {
        &self.author
    }

    /// The relation kind.
    pub fn kind(&self) -> (r: RelationKind)
        ensures
            r == self@.kind,
    {
        self.kind
    }

    /// The subject of the assertion.
    pub fn from(&self) -> (r: &Cid)
        ensures
            r@ == self@.from,
    {
        &self.from
    }

    /// The object of the assertion.
    pub fn to(&self) -> (r: &Cid)
        ensures
            r@ == self@.to,
    {
        &self.to
    }
}

/// An annotation.
#[derive(Debug, Clone)]
pub struct Annotation {
    cid: Cid,
    author: Cid,
    kind: String,
    target: Cid,
    aspect: Option<String>,
}

/// What an annotation says.
pub struct AnnotationView {
    pub cid: (HashAlg, Seq<u8>),
    pub author: (HashAlg, Seq<u8>),
    pub kind: Seq<char>,
    pub target: (HashAlg, Seq<u8>),
    pub aspect: Option<Seq<char>>,
}

impl View for Annotation {
    type V = AnnotationView;

    closed spec fn view(&self) -> AnnotationView {
        AnnotationView {
            cid: self.cid@,
            author: self.author@,
            kind: self.kind@,
            target: self.target@,
            aspect: match self.aspect {
                Some(a) => Some(a@),
                None => None,
            },
        }
    }
}

/// How an annotation object reads: type `ann`, then `kind`, `target`, and
/// an optional text `aspect`.
#[verifier::opaque]
pub open spec fn annotation_reading(
    cid: (HashAlg, Seq<u8>),
    author: (HashAlg, Seq<u8>),
    kind: Seq<char>,
    es: Seq<(Seq<char>, Model)>,
) -> Result<AnnotationView, GraphFault> {
    let k = text_reading(mlookup(es, "kind"@), "kind"@);
    let target = cid_reading(mlookup(es, "target"@), "target"@);
    let aspect = match mlookup(es, "aspect"@) {
        Some(Model::Text(s)) => Ok(Some(s)),
        Some(_) => Err(GraphFault::BadField("aspect"@, "a text string"@)),
        None => Ok(None),
    };
    if kind != "ann"@ {
        Err(GraphFault::WrongKind("ann"@, kind))
    } else if k is Err {
        Err(k->Err_0)
    } else if target is Err {
        Err(target->Err_0)
    } else if aspect is Err {
        Err(aspect->Err_0)
    } else {
        Ok(AnnotationView { cid, author, kind: k->Ok_0, target: target->Ok_0, aspect: aspect->Ok_0 })
    }
}

impl Annotation {
    /// Read an annotation from a verified object; see
    /// [`annotation_reading`].
    pub fn from_object(cid: Cid, object: &Object) -> (r: Result<Self, GraphError>)
        ensures
            result_view(r) == annotation_reading(cid@, object@.author, object@.kind, object@.body),
    {
        proof {
            reveal(annotation_reading);
        }
        if !text_eq(object.kind(), "ann") {
            return Err(GraphError::WrongKind { expected: "ann", found: copy_text(object.kind()) });
        }
        let body = object.body();
        let kind = match text(entry(body, "kind"), "kind") {
            Ok(t) => t,
            Err(e) => return Err(e),
        };
        let target = match cid_field(entry(body, "target"), "target") {
            Ok(c) => c,
            Err(e) => return Err(e),
        };
        let aspect = match entry(body, "aspect") {
            Some(Value::Text(s)) => Some(copy_text(s.as_str())),
            Some(_) => return Err(GraphError::BadField { field: "aspect", expected: "a text string" }),
            None => None,
        };
        Ok(Annotation { cid, author: object.author().clone(), kind, target, aspect })
    }

    /// This annotation's identifier.
    pub fn cid(&self) -> (r: &Cid)
        ensures
            r@ == self@.cid,
    {
        &self.cid
    }

    /// The key that authored the annotation.
    pub fn author(&self) -> (r: &Cid)
        ensures
            r@ == self@.author,
    {
        &self.author
    }

    /// The annotation kind.
    pub fn kind(&self) -> (r: &str)
        ensures
            r@ == self@.kind,
    {
        self.kind.as_str()
    }

    /// What the annotation is about.
    pub fn target(&self) -> (r: &Cid)
        ensures
            r@ == self@.target,
    {
        &self.target
    }

    /// The narrowing aspect, if the annotation names one.
    pub fn aspect(&self) -> (r: Option<&str>)
        ensures
            match r {
                Some(a) => self@.aspect == Some(a@),
                None => self@.aspect is None,
            },
    {
        match &self.aspect {
            Some(a) => Some(a.as_str()),
            None => None,
        }
    }
}

/// The term a publet of `class` with `content` defines, given the
/// extension fields of its object: only a `definitional` publet defines
/// one. An extension `term` wins; otherwise the content up to the first
/// `:` with any parenthesized qualifier dropped, so `quantum (adj.,
/// physics)` and `quantum (n.)` yield the same term. White space is
/// trimmed and the term lower-cased; an empty term is none.
pub open spec fn term_of(class: Class, content: Seq<char>, ext: Option<Seq<(Seq<char>, Model)>>) -> Option<
    Seq<char>,
> {
    if class != Class::Definitional {
        None
    } else if ext is Some && mtext(mlookup(ext->0, "term"@)) is Some {
        Some(lowercased(trimmed(mtext(mlookup(ext->0, "term"@))->0)))
    } else {
        let head = trimmed(before_char(before_char(content, ':'), '('));
        if head.len() == 0 {
            None
        } else {
            Some(lowercased(head))
        }
    }
}

/// An extension `term` wins over the content: a definitional publet whose
/// object's extension fields hold a text `term` defines that text, trimmed
/// and lower-cased, whatever its content says; two such publets with the
/// same extension term define the same term.
pub proof fn law_extension_term_wins(content: Seq<char>, other: Seq<char>, ext: Seq<(Seq<char>, Model)>, t: Seq<char>)
    requires
        mtext(mlookup(ext, "term"@)) == Some(t),
    ensures
        term_of(Class::Definitional, content, Some(ext)) == Some(lowercased(trimmed(t))),
        term_of(Class::Definitional, content, Some(ext)) == term_of(Class::Definitional, other, Some(ext)),
{
}

impl Publet {
    /// The term this publet defines, read as [`term_of`] says. Competing
    /// definitions for one term are the normal case, not a conflict.
    pub fn term(&self, object: &Object) -> (r: Option<String>)
        ensures
            match r {
                Some(t) => term_of(self@.class, self@.content, object@.ext) == Some(t@),
                None => term_of(self@.class, self@.content, object@.ext) is None,
            },
    {
        if self.class != Class::Definitional {
            return None;
        }
        match object.ext() {
            Some(ext) => match text_in(entry(ext, "term")) {
                Some(t) => {
                    return Some(to_lowercase(trim_text(t)));
                },
                None => {},
            },
            None => {},
        }
        let head = trim_text(before(before(self.content.as_str(), ':'), '('));
        if head.is_empty() {
            None
        } else {
            Some(to_lowercase(head))
        }
    }
}

} // verus!
