//! Documents and lineage anchors.
//!
//! A document contains no assertions of its own: its glosses are
//! presentational connective tissue, and what it cites it cites with an
//! explicit role.

use crate::cbor::{mlookup, model, models, Model, Value};
use crate::domain::generation::result_view;
use crate::fields::{
    cid_entry, cid_from_text, cid_in, cid_string, cid_to_string, cids_view, cview, entry, lemma_models_index, member,
    mget, mitems, mref, mtext, muint, opt_cid, text_in, uint_in,
};
use crate::graph::error::{GraphError, GraphFault};
use crate::graph::graph::{Graph, Lineage};
use crate::graph::lineage::lineage_member;
use crate::text::{copy_text, text_eq};
use crate::{Cid, HashAlg, Object};
use vstd::prelude::*;

verus! {

/// How a document item refers to what it cites.
#[derive(Debug, Clone, Copy, PartialEq, Eq, Structural)]
#[non_exhaustive]
pub enum Bind {
    /// The citation is permanently fixed to one object.
    Object,
    /// The citation tracks a lineage; the head is resolved per viewpoint.
    Lineage,
}

/// The binding an identifier names, if any.
pub open spec fn bind_from_id(id: Seq<char>) -> Option<Bind> {
    if id == "object"@ {
        Some(Bind::Object)
    } else if id == "lineage"@ {
        Some(Bind::Lineage)
    } else {
        None
    }
}

impl Bind {
    /// Resolve the identifier used in a document item.
    pub fn from_id(id: &str) -> (r: Option<Self>)
        ensures
            r == bind_from_id(id@),
    {
        if text_eq(id, "object") {
            Some(Bind::Object)
        } else if text_eq(id, "lineage") {
            Some(Bind::Lineage)
        } else {
            None
        }
    }

    /// The identifier used in a document item.
    pub fn id(self) -> (r: &'static str)
        ensures
            r@ == (match self {
                Bind::Object => "object"@,
                Bind::Lineage => "lineage"@,
            }),
    {
        match self {
            Bind::Object => "object",
            Bind::Lineage => "lineage",
        }
    }
}

/// What a document does with the publet it cites.
#[derive(Debug, Clone, Copy, PartialEq, Eq, Structural)]
#[non_exhaustive]
pub enum Role {
    /// The document asserts this.
    Assert,
    /// The document quotes it.
    Quote,
    /// The document sets it against something else.
    Contrast,
    /// The document supplies it as background.
    Background,
    /// The document presents it as an opposing view.
    Counterpoint,
}

/// The role an identifier names, if any.
pub open spec fn role_from_id(id: Seq<char>) -> Option<Role> {
    if id == "assert"@ {
        Some(Role::Assert)
    } else if id == "quote"@ {
        Some(Role::Quote)
    } else if id == "contrast"@ {
        Some(Role::Contrast)
    } else if id == "background"@ {
        Some(Role::Background)
    } else if id == "counterpoint"@ {
        Some(Role::Counterpoint)
    } else {
        None
    }
}

impl Role {
    /// Resolve the identifier used in a document item.
    pub fn from_id(id: &str) -> (r: Option<Self>)
        ensures
            r == role_from_id(id@),
    {
        if text_eq(id, "assert") {
            Some(Role::Assert)
        } else if text_eq(id, "quote") {
            Some(Role::Quote)
        } else if text_eq(id, "contrast") {
            Some(Role::Contrast)
        } else if text_eq(id, "background") {
            Some(Role::Background)
        } else if text_eq(id, "counterpoint") {
            Some(Role::Counterpoint)
        } else {
            None
        }
    }

    /// The identifier used in a document item.
    pub fn id(self) -> (r: &'static str)
        ensures
            r@ == (match self {
                Role::Assert => "assert"@,
                Role::Quote => "quote"@,
                Role::Contrast => "contrast"@,
                Role::Background => "background"@,
                Role::Counterpoint => "counterpoint"@,
            }),
    {
        match self {
            Role::Assert => "assert",
            Role::Quote => "quote",
            Role::Contrast => "contrast",
            Role::Background => "background",
            Role::Counterpoint => "counterpoint",
        }
    }
}

/// One cited publet within a document.
#[derive(Debug, Clone, PartialEq, Eq)]
pub struct Item {
    /// What is cited: an object, or a lineage genesis.
    pub reference: Cid,
    /// Whether the citation is fixed or tracking.
    pub bind: Bind,
    /// The head the author actually read, for a tracking citation.
    pub at: Option<Cid>,
    /// How the document uses it.
    pub role: Role,
    /// Presentational connective tissue. Carries no claims.
    pub gloss: Option<String>,
}

/// What an item says.
pub struct ItemView {
    pub reference: (HashAlg, Seq<u8>),
    pub bind: Bind,
    pub at: Option<(HashAlg, Seq<u8>)>,
    pub role: Role,
    pub gloss: Option<Seq<char>>,
}

/// The view of an item.
pub open spec fn item_view(i: Item) -> ItemView {
    ItemView {
        reference: i.reference@,
        bind: i.bind,
        at: cview(i.at),
        role: i.role,
        gloss: match i.gloss {
            Some(g) => Some(g@),
            None => None,
        },
    }
}

/// How one document item reads. Binding defaults to `object` and role to
/// `assert`; a lineage binding must name the head its author read.
pub open spec fn item_reading(v: Model) -> Result<ItemView, GraphFault> {
    let reference = opt_cid(mtext(mget(v, "ref"@)));
    let bind_text = mtext(mget(v, "bind"@));
    let bind = match bind_text {
        None => Some(Bind::Object),
        Some(id) => bind_from_id(id),
    };
    let at = opt_cid(mtext(mget(v, "at"@)));
    let role_text = mtext(mget(v, "role"@));
    let role = match role_text {
        None => Some(Role::Assert),
        Some(id) => role_from_id(id),
    };
    if reference is None {
        Err(GraphFault::BadField("items.ref"@, "a CID string"@))
    } else if bind is None {
        Err(GraphFault::BadField("items.bind"@, "`object` or `lineage`"@))
    } else if bind == Some(Bind::Lineage) && at is None {
        Err(GraphFault::LineageBindWithoutHead(cid_string(reference->0)))
    } else if role is None {
        Err(
            GraphFault::BadField(
                "items.role"@,
                "assert, quote, contrast, background, or counterpoint"@,
            ),
        )
    } else {
        Ok(
            ItemView {
                reference: reference->0,
                bind: bind->0,
                at,
                role: role->0,
                gloss: mtext(mget(v, "gloss"@)),
            },
        )
    }
}

/// How a list of item values reads, appended to `acc`.
pub open spec fn items_reading(acc: Result<Seq<ItemView>, GraphFault>, vs: Seq<Model>) -> Result<
    Seq<ItemView>,
    GraphFault,
>
    decreases vs.len(),
{
    if vs.len() == 0 {
        acc
    } else {
        match items_reading(acc, vs.drop_last()) {
            Err(e) => Err(e),
            Ok(prev) => match item_reading(vs.last()) {
                Err(e) => Err(e),
                Ok(i) => Ok(prev.push(i)),
            },
        }
    }
}

/// How the sections of a document read: the items of each section that
/// has an `items` array, in order.
pub open spec fn sections_reading(sections: Seq<Model>) -> Result<Seq<ItemView>, GraphFault>
    decreases sections.len(),
{
    if sections.len() == 0 {
        Ok(Seq::empty())
    } else {
        let prev = sections_reading(sections.drop_last());
        match mitems(mget(sections.last(), "items"@)) {
            Some(vs) => items_reading(prev, vs),
            None => prev,
        }
    }
}

/// A document manifest.
#[derive(Debug, Clone, PartialEq, Eq)]
pub struct Document {
    cid: Cid,
    title: String,
    items: Vec<Item>,
}

/// What a document holds.
pub struct DocumentView {
    pub cid: (HashAlg, Seq<u8>),
    pub title: Seq<char>,
    pub items: Seq<ItemView>,
}

impl View for Document {
    type V = DocumentView;

    closed spec fn view(&self) -> DocumentView {
        DocumentView {
            cid: self.cid@,
            title: self.title@,
            items: self.items@.map_values(|i: Item| item_view(i)),
        }
    }
}

/// How a document object reads: type `doc`, an optional title, then its
/// sections' items.
#[verifier::opaque]
pub open spec fn document_reading(cid: (HashAlg, Seq<u8>), kind: Seq<char>, es: Seq<(Seq<char>, Model)>) -> Result<
    DocumentView,
    GraphFault,
> {
    let items = match mlookup(es, "sections"@) {
        Some(Model::Array(sections)) => sections_reading(sections),
        _ => Ok(Seq::empty()),
    };
    if kind != "doc"@ {
        Err(GraphFault::WrongKind("doc"@, kind))
    } else if items is Err {
        Err(items->Err_0)
    } else {
        Ok(
            DocumentView {
                cid,
                title: match mtext(mlookup(es, "title"@)) {
                    Some(t) => t,
                    None => Seq::empty(),
                },
                items: items->Ok_0,
            },
        )
    }
}

/// Read one item.
fn parse_item(value: &Value) -> (r: Result<Item, GraphError>)
    ensures
        match item_reading(model(*value)) {
            Ok(x) => r matches Ok(i) && item_view(i) == x,
            Err(e) => r matches Err(x) && x@ == e,
        },
{
    let reference = match cid_in(text_in(member(value, "ref"))) {
        Some(c) => c,
        None => return Err(GraphError::BadField { field: "items.ref", expected: "a CID string" }),
    };
    let bind = match text_in(member(value, "bind")) {
        None => Bind::Object,
        Some(id) => match Bind::from_id(id) {
            Some(b) => b,
            None => return Err(
                GraphError::BadField { field: "items.bind", expected: "`object` or `lineage`" },
            ),
        },
    };
    let at = cid_in(text_in(member(value, "at")));
    if bind == Bind::Lineage && at.is_none() {
        return Err(GraphError::LineageBindWithoutHead { reference: cid_to_string(&reference) });
    }
    let role = match text_in(member(value, "role")) {
        None => Role::Assert,
        Some(id) => match Role::from_id(id) {
            Some(r) => r,
            None => return Err(
                GraphError::BadField {
                    field: "items.role",
                    expected: "assert, quote, contrast, background, or counterpoint",
                },
            ),
        },
    };
    let gloss = match text_in(member(value, "gloss")) {
        Some(g) => Some(copy_text(g)),
        None => None,
    };
    Ok(Item { reference, bind, at, role, gloss })
}

/// Once a prefix of items fails, the whole list fails the same way.
proof fn lemma_items_prefix(acc: Result<Seq<ItemView>, GraphFault>, s: Seq<Model>, i: int)
    requires
        0 <= i <= s.len(),
        items_reading(acc, s.take(i)) is Err,
    ensures
        items_reading(acc, s) == items_reading(acc, s.take(i)),
    decreases s.len() - i,
{
    if i == s.len() {
        assert(s.take(i) =~= s);
    } else {
        assert(s.take(i + 1).drop_last() =~= s.take(i));
        lemma_items_prefix(acc, s, i + 1);
    }
}

/// Once a prefix of sections fails, the whole list fails the same way.
proof fn lemma_sections_prefix(s: Seq<Model>, i: int)
    requires
        0 <= i <= s.len(),
        sections_reading(s.take(i)) is Err,
    ensures
        sections_reading(s) == sections_reading(s.take(i)),
    decreases s.len() - i,
{
    if i == s.len() {
        assert(s.take(i) =~= s);
    } else {
        assert(s.take(i + 1).drop_last() =~= s.take(i));
        lemma_items_err(sections_reading(s.take(i)), match mitems(mget(s.take(i + 1).last(), "items"@)) {
            Some(vs) => vs,
            None => Seq::empty(),
        });
        lemma_sections_prefix(s, i + 1);
    }
}

/// Reading items onto a failure keeps the failure.
proof fn lemma_items_err(acc: Result<Seq<ItemView>, GraphFault>, vs: Seq<Model>)
    requires
        acc is Err,
    ensures
        items_reading(acc, vs) == acc,
    decreases vs.len(),
{
    if vs.len() > 0 {
        lemma_items_err(acc, vs.drop_last());
    }
}

/// The views of a list of items.
pub open spec fn items_view(s: Seq<Item>) -> Seq<ItemView> {
    s.map_values(|i: Item| item_view(i))
}

impl Document {
    /// Read a document from a verified object; see [`document_reading`].
    #[verifier::rlimit(50)]
    #[verifier::spinoff_prover]
    pub fn from_object(cid: Cid, object: &Object) -> (r: Result<Self, GraphError>)
        ensures
            result_view(r) == document_reading(cid@, object@.kind, object@.body),
    {
        proof {
            reveal(document_reading);
        }
        if !text_eq(object.kind(), "doc") {
            return Err(GraphError::WrongKind { expected: "doc", found: copy_text(object.kind()) });
        }
        let body = object.body();
        let title = match text_in(entry(body, "title")) {
            Some(t) => copy_text(t),
            None => String::new(),
        };
        let mut items: Vec<Item> = Vec::new();
        assert(items_view(items@) =~= Seq::empty());
        match entry(body, "sections") {
            Some(Value::Array(sections)) => {
                let ghost ss = models(sections@);
                let mut s: usize = 0;
                proof {
                    crate::cbor::encode::lemma_models_len(sections@);
                    assert(ss.take(0) =~= Seq::<Model>::empty());
                }
                while s < sections.len()
                    invariant
                        s <= sections.len(),
                        ss == models(sections@),
                        ss.len() == sections.len(),
                        object@.kind == "doc"@,
                        mlookup(object@.body, "sections"@) == Some(Model::Array(ss)),
                        sections_reading(ss.take(s as int)) == Ok::<Seq<ItemView>, GraphFault>(
                            items_view(items@),
                        ),
                    decreases sections.len() - s,
                {
                    proof {
                        lemma_models_index(sections@, s as int);
                        assert(ss.take(s + 1).drop_last() =~= ss.take(s as int));
                        assert(ss.take(s + 1).last() == model(sections@[s as int]));
                    }
                    let ghost acc = Ok::<Seq<ItemView>, GraphFault>(items_view(items@));
                    match member(&sections[s], "items") {
                        Some(Value::Array(entries)) => {
                            let ghost vs = models(entries@);
                            let mut j: usize = 0;
                            proof {
                                crate::cbor::encode::lemma_models_len(entries@);
                                assert(vs.take(0) =~= Seq::<Model>::empty());
                            }
                            proof {
                                assert(mitems(mget(ss[s as int], "items"@)) == Some(vs));
                                assert(sections_reading(ss.take(s + 1)) == items_reading(acc, vs));
                            }
                            while j < entries.len()
                                invariant
                                    j <= entries.len(),
                                    vs == models(entries@),
                                    vs.len() == entries.len(),
                                    s < sections.len(),
                                    ss.len() == sections.len(),
                                    sections_reading(ss.take(s + 1)) == items_reading(acc, vs),
                                    object@.kind == "doc"@,
                                    mlookup(object@.body, "sections"@) == Some(Model::Array(ss)),
                                    items_reading(acc, vs.take(j as int)) == Ok::<Seq<ItemView>, GraphFault>(
                                        items_view(items@),
                                    ),
                                decreases entries.len() - j,
                            {
                                proof {
                                    lemma_models_index(entries@, j as int);
                                    assert(vs.take(j + 1).drop_last() =~= vs.take(j as int));
                                    assert(vs.take(j + 1).last() == model(entries@[j as int]));
                                }
                                match parse_item(&entries[j]) {
                                    Ok(it) => {
                                        let ghost before = items@;
                                        items.push(it);
                                        assert(items_view(items@) =~= items_view(before).push(item_view(it)));
                                    },
                                    Err(e) => {
                                        proof {
                                            reveal(document_reading);
                                            lemma_items_prefix(acc, vs, j + 1);
                                            lemma_sections_prefix(ss, s + 1);
                                        }
                                        return Err(e);
                                    },
                                }
                                j = j + 1;
                            }
                            assert(vs.take(entries.len() as int) =~= vs);
                        },
                        _ => {},
                    }
                    s = s + 1;
                }
                assert(ss.take(sections.len() as int) =~= ss);
            },
            _ => {},
        }
        proof {
            assert(title@ == match mtext(mlookup(object@.body, "title"@)) {
                Some(t) => t,
                None => Seq::<char>::empty(),
            });
        }
        Ok(Document { cid, title, items })
    }

    /// This document's identifier.
    pub fn cid(&self) -> (r: &Cid)
        ensures
            r@ == self@.cid,
    {
        &self.cid
    }

    /// The title.
    pub fn title(&self) -> (r: &str)
        ensures
            r@ == self@.title,
    {
        self.title.as_str()
    }

    /// The cited items, in order.
    pub fn items(&self) -> (r: &[Item])
        ensures
            items_view(r@) == self@.items,
    {
        self.items.as_slice()
    }

    /// Identifiers this document cites, in order.
    pub fn references(&self) -> (r: Vec<Cid>)
        ensures
            cids_view(r@) == self@.items.map_values(|i: ItemView| i.reference),
    {
        let mut out: Vec<Cid> = Vec::new();
        let mut i: usize = 0;
        let ghost refs = self@.items.map_values(|i: ItemView| i.reference);
        while i < self.items.len()
            invariant
                i <= self.items.len(),
                out.len() == i,
                refs == self@.items.map_values(|i: ItemView| i.reference),
                refs.len() == self.items.len(),
                cids_view(out@) == refs.take(i as int),
            decreases self.items.len() - i,
        {
            let ghost before = out@;
            out.push(self.items[i].reference.clone());
            proof {
                assert(refs[i as int] == self.items@[i as int].reference@);
                assert forall|k: int| 0 <= k < out.len() implies cids_view(out@)[k] == refs.take(i + 1)[k] by {
                    if k < i {
                        assert(out@[k] == before[k]);
                        assert(cids_view(before)[k] == refs.take(i as int)[k]);
                    }
                }
            }
            i = i + 1;
            assert(cids_view(out@) =~= refs.take(i as int));
        }
        assert(refs.take(self.items.len() as int) =~= refs);
        out
    }
}

/// A lineage anchor.
#[derive(Debug, Clone, PartialEq, Eq)]
pub struct Anchor {
    cid: Cid,
    lineage: Cid,
    current: Cid,
    stewards: Vec<Cid>,
    threshold: u64,
}

/// What an anchor holds.
pub struct AnchorView {
    pub cid: (HashAlg, Seq<u8>),
    pub lineage: (HashAlg, Seq<u8>),
    pub current: (HashAlg, Seq<u8>),
    pub stewards: Seq<(HashAlg, Seq<u8>)>,
    pub threshold: u64,
}

impl View for Anchor {
    type V = AnchorView;

    closed spec fn view(&self) -> AnchorView {
        AnchorView {
            cid: self.cid@,
            lineage: self.lineage@,
            current: self.current@,
            stewards: cids_view(self.stewards@),
            threshold: self.threshold,
        }
    }
}

/// The identifiers among a list of items, in order; other items are
/// skipped.
pub open spec fn cids_among(items: Seq<Model>) -> Seq<(HashAlg, Seq<u8>)>
    decreases items.len(),
{
    if items.len() == 0 {
        Seq::empty()
    } else {
        match opt_cid(mtext(Some(items.last()))) {
            Some(c) => cids_among(items.drop_last()).push(c),
            None => cids_among(items.drop_last()),
        }
    }
}

/// How an anchor object reads: type `anchor`, then `lineage` and
/// `current` identifiers; unreadable stewards are skipped and the
/// threshold defaults to one.
#[verifier::opaque]
pub open spec fn anchor_reading(cid: (HashAlg, Seq<u8>), kind: Seq<char>, es: Seq<(Seq<char>, Model)>) -> Result<
    AnchorView,
    GraphFault,
> {
    let lineage = opt_cid(mtext(mlookup(es, "lineage"@)));
    let current = opt_cid(mtext(mlookup(es, "current"@)));
    if kind != "anchor"@ {
        Err(GraphFault::WrongKind("anchor"@, kind))
    } else if lineage is None {
        Err(GraphFault::BadField("lineage"@, "a CID string"@))
    } else if current is None {
        Err(GraphFault::BadField("current"@, "a CID string"@))
    } else {
        Ok(
            AnchorView {
                cid,
                lineage: lineage->0,
                current: current->0,
                stewards: match mitems(mlookup(es, "stewards"@)) {
                    Some(items) => cids_among(items),
                    None => Seq::empty(),
                },
                threshold: match muint(mlookup(es, "threshold"@)) {
                    Some(n) => n,
                    None => 1,
                },
            },
        )
    }
}

/// The identifiers among some values.
fn collect_cids(items: &Vec<Value>) -> (r: Vec<Cid>)
    ensures
        cids_view(r@) == cids_among(models(items@)),
{
    let mut out: Vec<Cid> = Vec::new();
    let mut i: usize = 0;
    proof {
        crate::cbor::encode::lemma_models_len(items@);
        assert(models(items@).take(0) =~= Seq::<Model>::empty());
        assert(cids_view(out@) =~= Seq::empty());
    }
    while i < items.len()
        invariant
            i <= items.len(),
            models(items@).len() == items.len(),
            cids_view(out@) == cids_among(models(items@).take(i as int)),
        decreases items.len() - i,
    {
        proof {
            lemma_models_index(items@, i as int);
            assert(models(items@).take(i + 1).drop_last() =~= models(items@).take(i as int));
            assert(models(items@).take(i + 1).last() == model(items@[i as int]));
        }
        match cid_in(text_in(Some(&items[i]))) {
            Some(c) => {
                let ghost before = out@;
                out.push(c);
                assert(cids_view(out@) =~= cids_view(before).push(c@));
            },
            None => {},
        }
        i = i + 1;
    }
    assert(models(items@).take(items.len() as int) =~= models(items@));
    out
}

impl Anchor {
    /// Read an anchor from a verified object; see [`anchor_reading`].
    pub fn from_object(cid: Cid, object: &Object) -> (r: Result<Self, GraphError>)
        ensures
            result_view(r) == anchor_reading(cid@, object@.kind, object@.body),
    {
        proof {
            reveal(anchor_reading);
        }
        if !text_eq(object.kind(), "anchor") {
            return Err(GraphError::WrongKind { expected: "anchor", found: copy_text(object.kind()) });
        }
        let body = object.body();
        let lineage = match cid_entry(body, "lineage") {
            Some(c) => c,
            None => return Err(GraphError::BadField { field: "lineage", expected: "a CID string" }),
        };
        let current = match cid_entry(body, "current") {
            Some(c) => c,
            None => return Err(GraphError::BadField { field: "current", expected: "a CID string" }),
        };
        let stewards = match entry(body, "stewards") {
            Some(Value::Array(items)) => collect_cids(items),
            _ => {
                let v: Vec<Cid> = Vec::new();
                assert(cids_view(v@) =~= Seq::empty());
                v
            },
        };
        let threshold = match uint_in(entry(body, "threshold")) {
            Some(n) => n,
            None => 1,
        };
        Ok(Anchor { cid, lineage, current, stewards, threshold })
    }

    /// This anchor's identifier.
    pub fn cid(&self) -> (r: &Cid)
        ensures
            r@ == self@.cid,
    {
        &self.cid
    }

    /// The lineage it names, by genesis identifier.
    pub fn lineage(&self) -> (r: &Cid)
        ensures
            r@ == self@.lineage,
    {
        &self.lineage
    }

    /// The object it currently recommends.
    pub fn current(&self) -> (r: &Cid)
        ensures
            r@ == self@.current,
    {
        &self.current
    }

    /// The steward circle.
    pub fn stewards(&self) -> (r: &[Cid])
        ensures
            cids_view(r@) == self@.stewards,
    {
        self.stewards.as_slice()
    }

    /// How many steward signatures an update requires.
    pub fn threshold(&self) -> (r: u64)
        ensures
            r == self@.threshold,
    {
        self.threshold
    }
}

/// Whether an anchor's recommended object belongs to the full lineage it
/// names. An anchor recommending an object outside that lineage is not a
/// selection among members; it is a different claim wearing the shape of
/// one.
pub open spec fn anchor_in_lineage(g: Graph, a: AnchorView) -> bool {
    exists|m: Seq<char>|
        #![trigger cid_from_text(m)]
        lineage_member(g, cid_string(a.lineage), Lineage::Full, m) && cid_from_text(m) == Some(a.current)
}

impl Anchor {
    /// Check that the recommended object belongs to the named lineage.
    pub fn check_against(&self, graph: &Graph) -> (r: Result<(), GraphError>)
        ensures
            match r {
                Ok(()) => anchor_in_lineage(*graph, self@),
                Err(e) => !anchor_in_lineage(*graph, self@) && e@ == GraphFault::AnchorOutsideLineage(
                    cid_string(self@.current),
                    cid_string(self@.lineage),
                ),
            },
    {
        let view = graph.lineage(&self.lineage, Lineage::Full);
        let mut i: usize = 0;
        while i < view.members.len()
            invariant
                i <= view.members.len(),
                forall|j: int| 0 <= j < i ==> (#[trigger] view.members@[j])@ != self@.current,
                forall|c: (HashAlg, Seq<u8>)|
                    cids_view(view.members@).contains(c) <==> exists|m: Seq<char>|
                        #![trigger cid_from_text(m)]
                        lineage_member(*graph, cid_string(self@.lineage), Lineage::Full, m) && cid_from_text(m)
                            == Some(c),
            decreases view.members.len() - i,
        {
            if view.members[i].same(&self.current) {
                assert(cids_view(view.members@)[i as int] == self@.current);
                assert(cids_view(view.members@).contains(self@.current));
                return Ok(());
            }
            i = i + 1;
        }
        proof {
            if anchor_in_lineage(*graph, self@) {
                assert(cids_view(view.members@).contains(self@.current));
                let j = choose|j: int| 0 <= j < cids_view(view.members@).len() && cids_view(view.members@)[j] == self@.current;
                assert(view.members@[j]@ == self@.current);
            }
        }
        Err(
            GraphError::AnchorOutsideLineage {
                current: cid_to_string(&self.current),
                lineage: cid_to_string(&self.lineage),
            },
        )
    }
}

} // verus!
