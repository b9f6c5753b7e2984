//! Objects and the verification type state.
//!
//! Parsing yields an [`Unverified<Object>`]. Only [`Verified<Object>`] is
//! accepted by the graph and evaluation code, and the sole way to obtain
//! one is [`Unverified::verify`], which checks the bytes against the
//! identifier the caller asked for.

use crate::cbor::{
    accepts, decode, dict_insert, enc, encode, encodes, entry_models, keys_sorted, lemma_entry_index,
    lemma_lookup_model, mlookup, model, Model, Value, DEFAULT_MAX_DEPTH, MAX_OBJECT_BYTES,
};
use crate::cbor::scan::scan;
use crate::cid::{cid_text, digest_of, parse_outcome, read_cid, CidReading};
use crate::text::{copy_text, text_eq};
use crate::{CanonError, Cid, CidError, HashAlg};
use vstd::prelude::*;
use vstd::utf8::*;

verus! {

broadcast use vstd::utf8::group_utf8_lib;

/// Reasons an object is not well formed.
#[derive(Debug, PartialEq, Eq, Clone)]
#[non_exhaustive]
pub enum ObjectError {
    /// The bytes were not canonical CBOR.
    Canonical(CanonError),
    /// The top-level item was not a map.
    NotAMap {
        /// What the top-level item actually was.
        found: &'static str,
    },
    /// A required header field was absent.
    MissingField {
        /// The absent field.
        field: &'static str,
    },
    /// A header field had the wrong type.
    WrongType {
        /// The offending field.
        field: &'static str,
        /// What the protocol requires.
        expected: &'static str,
    },
    /// An unrecognized field appeared at the top level.
    UnknownField {
        /// The offending field.
        field: String,
    },
    /// A CID-valued field did not parse.
    BadCid {
        /// The offending field.
        field: &'static str,
        /// Why it did not parse.
        source: CidError,
    },
    /// The bytes did not hash to the identifier the caller asked for.
    IdentifierMismatch {
        /// The identifier requested.
        expected: String,
        /// The identifier the bytes actually have.
        actual: String,
    },
}

/// The content of an object.
pub struct ObjectView {
    pub protocol: Seq<char>,
    pub kind: Seq<char>,
    pub created: Seq<char>,
    pub author: (HashAlg, Seq<u8>),
    pub body: Seq<(Seq<char>, Model)>,
    pub prev: Option<(HashAlg, Seq<u8>)>,
    pub ext: Option<Seq<(Seq<char>, Model)>>,
    pub bytes: Seq<u8>,
}

/// A parsed object: its header, its body, and the bytes it came from.
#[derive(Debug, Clone, PartialEq, Eq)]
pub struct Object {
    protocol: String,
    kind: String,
    created: String,
    author: Cid,
    body: Vec<(String, Value)>,
    prev: Option<Cid>,
    ext: Option<Vec<(String, Value)>>,
    bytes: Vec<u8>,
}

impl View for Object {
    type V = ObjectView;

    closed spec fn view(&self) -> ObjectView {
        ObjectView {
            protocol: self.protocol@,
            kind: self.kind@,
            created: self.created@,
            author: self.author@,
            body: entry_models(self.body@),
            prev: match self.prev {
                Some(c) => Some(c@),
                None => None,
            },
            ext: match self.ext {
                Some(e) => Some(entry_models(e@)),
                None => None,
            },
            bytes: self.bytes@,
        }
    }
}

/// How reading an object's top-level map turns out.
pub enum ObjectReading {
    NotAMap(Seq<char>),
    UnknownField(Seq<char>),
    MissingField(Seq<char>),
    WrongType(Seq<char>, Seq<char>),
    BadCid(Seq<char>, CidReading),
    Read(ObjectView),
}

/// The names of the header fields, the only keys allowed at the top level.
pub open spec fn is_header(k: Seq<char>) -> bool {
    ||| k == "author"@
    ||| k == "body"@
    ||| k == "created"@
    ||| k == "ext"@
    ||| k == "prev"@
    ||| k == "pub"@
    ||| k == "type"@
}

/// How an item that is not a map is described.
pub open spec fn describe_model(m: Model) -> Seq<char> {
    match m {
        Model::Uint(_) | Model::Nint(_) => "an integer"@,
        Model::Bytes(_) => "a byte string"@,
        Model::Text(_) => "a text string"@,
        Model::Array(_) => "an array"@,
        Model::Dict(_) => "a map"@,
        Model::Bool(_) => "a boolean"@,
        Model::Null => "null"@,
    }
}

/// Whether `i` is the first entry whose key is not a header field.
pub open spec fn first_unknown_at(es: Seq<(Seq<char>, Model)>, i: int) -> bool {
    &&& 0 <= i < es.len()
    &&& !is_header(es[i].0)
    &&& forall|j: int| 0 <= j < i ==> is_header(#[trigger] es[j].0)
}

/// A text-valued header field.
pub open spec fn text_field_spec(es: Seq<(Seq<char>, Model)>, f: Seq<char>) -> Result<
    Seq<char>,
    ObjectReading,
> {
    match mlookup(es, f) {
        Some(Model::Text(t)) => Ok(t),
        Some(_) => Err(ObjectReading::WrongType(f, "a text string"@)),
        None => Err(ObjectReading::MissingField(f)),
    }
}

/// A CID-valued header field.
pub open spec fn cid_field_spec(es: Seq<(Seq<char>, Model)>, f: Seq<char>) -> Result<
    (HashAlg, Seq<u8>),
    ObjectReading,
> {
    match text_field_spec(es, f) {
        Err(e) => Err(e),
        Ok(t) => match read_cid(encode_utf8(t)) {
            CidReading::Parsed(d) => Ok((HashAlg::Sha2_256, d)),
            rd => Err(ObjectReading::BadCid(f, rd)),
        },
    }
}

/// A map-valued header field that may be absent.
pub open spec fn map_field_spec(es: Seq<(Seq<char>, Model)>, f: Seq<char>) -> Result<
    Option<Seq<(Seq<char>, Model)>>,
    ObjectReading,
> {
    match mlookup(es, f) {
        Some(Model::Dict(m)) => Ok(Some(m)),
        Some(_) => Err(ObjectReading::WrongType(f, "a map"@)),
        None => Ok(None),
    }
}

/// The optional `prev` field.
pub open spec fn prev_field_spec(es: Seq<(Seq<char>, Model)>) -> Result<
    Option<(HashAlg, Seq<u8>)>,
    ObjectReading,
> {
    if mlookup(es, "prev"@) is None {
        Ok(None)
    } else {
        match cid_field_spec(es, "prev"@) {
            Ok(c) => Ok(Some(c)),
            Err(e) => Err(e),
        }
    }
}

/// How [`Object::parse`] reads the top-level map of a decoded object whose
/// bytes are `bytes`. Checks go in this order: the kind of item, unknown
/// fields in key order, then `pub`, `type`, `created`, `author`, `body`,
/// `prev`, `ext`.
pub open spec fn read_object(m: Model, bytes: Seq<u8>) -> ObjectReading {
    match m {
        Model::Dict(es) => {
            if exists|i: int| first_unknown_at(es, i) {
                let i = choose|i: int| first_unknown_at(es, i);
                ObjectReading::UnknownField(es[i].0)
            } else {
                let p = text_field_spec(es, "pub"@);
                let t = text_field_spec(es, "type"@);
                let c = text_field_spec(es, "created"@);
                let a = cid_field_spec(es, "author"@);
                let b = map_field_spec(es, "body"@);
                let pv = prev_field_spec(es);
                let x = map_field_spec(es, "ext"@);
                if p is Err {
                    p->Err_0
                } else if t is Err {
                    t->Err_0
                } else if c is Err {
                    c->Err_0
                } else if a is Err {
                    a->Err_0
                } else if b is Err {
                    b->Err_0
                } else if b->Ok_0 is None {
                    ObjectReading::MissingField("body"@)
                } else if pv is Err {
                    pv->Err_0
                } else if x is Err {
                    x->Err_0
                } else {
                    ObjectReading::Read(
                        ObjectView {
                            protocol: p->Ok_0,
                            kind: t->Ok_0,
                            created: c->Ok_0,
                            author: a->Ok_0,
                            body: b->Ok_0->0,
                            prev: pv->Ok_0,
                            ext: x->Ok_0,
                            bytes,
                        },
                    )
                }
            }
        },
        _ => ObjectReading::NotAMap(describe_model(m)),
    }
}

/// Whether `e` is the error reported for a reading that failed as `rd`.
pub open spec fn error_reads(e: ObjectError, rd: ObjectReading) -> bool {
    match rd {
        ObjectReading::NotAMap(s) => e matches ObjectError::NotAMap { found } && found@ == s,
        ObjectReading::UnknownField(k) => e matches ObjectError::UnknownField { field } && field@ == k,
        ObjectReading::MissingField(f) => e matches ObjectError::MissingField { field } && field@ == f,
        ObjectReading::WrongType(f, x) => e matches ObjectError::WrongType { field, expected }
            && field@ == f && expected@ == x,
        ObjectReading::BadCid(f, cr) => e matches ObjectError::BadCid { field, source } && field@ == f
            && parse_outcome(Err(source), cr),
        ObjectReading::Read(_) => false,
    }
}

/// An object whose identity has not been checked.
///
/// Deliberately opaque: the inner object is reachable only by verifying it,
/// or by [`Unverified::peek`] for diagnostics that must not feed the graph.
#[derive(Debug, Clone, PartialEq, Eq)]
pub struct Unverified<T>(T);

/// An object whose bytes have been confirmed against its identifier.
#[derive(Debug, Clone, PartialEq, Eq)]
pub struct Verified<T>(T);

impl<T> Unverified<T> {
    /// The object inside.
    pub closed spec fn inner(self) -> T {
        self.0
    }
}

impl<T> Verified<T> {
    /// The object inside.
    pub closed spec fn inner(self) -> T {
        self.0
    }
}

/// Whether `r` is what [`Object::parse`] returns when the top-level map
/// reads as `rd`.
pub open spec fn parse_reads(r: Result<Unverified<Object>, ObjectError>, rd: ObjectReading) -> bool {
    match rd {
        ObjectReading::Read(v) => r matches Ok(u) && u.inner()@ == v,
        _ => r matches Err(e) && error_reads(e, rd),
    }
}

/// Whether `k` names a header field.
fn header_name(k: &str) -> (r: bool)
    ensures
        r == is_header(k@),
{
    text_eq(k, "author") || text_eq(k, "body") || text_eq(k, "created") || text_eq(k, "ext")
        || text_eq(k, "prev") || text_eq(k, "pub") || text_eq(k, "type")
}

/// A phrase for the kind of a value, for error messages.
fn describe(value: &Value) -> (r: &'static str)
    ensures
        r@ == describe_model(model(*value)),
{
    match value {
        Value::Uint(_) | Value::Nint(_) => "an integer",
        Value::Bytes(_) => "a byte string",
        Value::Text(_) => "a text string",
        Value::Array(_) => "an array",
        Value::Dict(_) => "a map",
        Value::Bool(_) => "a boolean",
        Value::Null => "null",
    }
}

/// Whether a reading's error carries over to a reading that failed first.
spec fn failed_as(r: Result<String, ObjectError>, x: Result<Seq<char>, ObjectReading>) -> bool {
    match x {
        Ok(t) => r matches Ok(s) && s@ == t,
        Err(rd) => r matches Err(e) && error_reads(e, rd),
    }
}

/// Read a text-valued header field.
fn text_field(entries: &Vec<(String, Value)>, field: &'static str) -> (r: Result<String, ObjectError>)
    ensures
        failed_as(r, text_field_spec(entry_models(entries@), field@)),
{
    proof {
        lemma_lookup_model(entries@, field@);
    }
    match crate::cbor::dict_get(entries, field) {
        Some(Value::Text(s)) => Ok(copy_text(s.as_str())),
        Some(_) => Err(ObjectError::WrongType { field, expected: "a text string" }),
        None => Err(ObjectError::MissingField { field }),
    }
}

/// Read a CID-valued header field.
fn cid_field(entries: &Vec<(String, Value)>, field: &'static str) -> (r: Result<Cid, ObjectError>)
    ensures
        match cid_field_spec(entry_models(entries@), field@) {
            Ok(c) => r matches Ok(x) && x@ == c,
            Err(rd) => r matches Err(e) && error_reads(e, rd),
        },
{
    let text = match text_field(entries, field) {
        Ok(t) => t,
        Err(e) => return Err(e),
    };
    match Cid::parse(text.as_str()) {
        Ok(c) => Ok(c),
        Err(source) => Err(ObjectError::BadCid { field, source }),
    }
}

/// Read a map-valued header field that may be absent.
fn map_field(entries: &Vec<(String, Value)>, field: &'static str) -> (r: Result<
    Option<Vec<(String, Value)>>,
    ObjectError,
>)
    ensures
        match map_field_spec(entry_models(entries@), field@) {
            Ok(Some(m)) => r matches Ok(Some(x)) && entry_models(x@) == m,
            Ok(None) => r matches Ok(None),
            Err(rd) => r matches Err(e) && error_reads(e, rd),
        },
{
    proof {
        lemma_lookup_model(entries@, field@);
    }
    match crate::cbor::dict_get(entries, field) {
        Some(v) => match v {
            Value::Dict(m) => {
                let c = crate::cbor::clone_value(v);
                match c {
                    Value::Dict(x) => Ok(Some(x)),
                    _ => {
                        assert(false);
                        Ok(None)
                    },
                }
            },
            _ => Err(ObjectError::WrongType { field, expected: "a map" }),
        },
        None => Ok(None),
    }
}

/// Two accepted readings of the same bytes are the same value.
proof fn lemma_accepts_unique(b: Seq<u8>, m1: Model, m2: Model)
    requires
        accepts(b, m1, MAX_OBJECT_BYTES as int, DEFAULT_MAX_DEPTH as int),
        accepts(b, m2, MAX_OBJECT_BYTES as int, DEFAULT_MAX_DEPTH as int),
    ensures
        m1 == m2,
{
    crate::cbor::law_reading_unique(b, m1, m2, MAX_OBJECT_BYTES as int, DEFAULT_MAX_DEPTH as int);
}

impl Object {
    /// Parse canonical bytes into an object whose identity is not yet
    /// checked.
    ///
    /// Bytes that decode are read by [`read_object`]; bytes that do not are
    /// refused with [`ObjectError::Canonical`], carrying the violation the
    /// decoder names.
    pub fn parse(bytes: &[u8]) -> (r: Result<Unverified<Self>, ObjectError>)
        ensures
            match scan(bytes@, MAX_OBJECT_BYTES as int, DEFAULT_MAX_DEPTH as int) {
                Err(f) => r matches Err(ObjectError::Canonical(e)) && e@ == f,
                Ok(_) => !(r matches Err(ObjectError::Canonical(_))),
            },
            (bytes.len() > MAX_OBJECT_BYTES) <==> r == Err::<Unverified<Self>, ObjectError>(
                ObjectError::Canonical(CanonError::TooLarge { size: bytes.len(), limit: MAX_OBJECT_BYTES }),
            ),
            forall|m: Model|
                #[trigger] accepts(bytes@, m, MAX_OBJECT_BYTES as int, DEFAULT_MAX_DEPTH as int) && !(r matches Err(
                    ObjectError::Canonical(_),
                )) ==> parse_reads(r, read_object(m, bytes@)),
            forall|m: Model|
                #[trigger] encodes(bytes@, m, MAX_OBJECT_BYTES as int, DEFAULT_MAX_DEPTH as int) ==> !(r matches Err(
                    ObjectError::Canonical(_),
                )),
            !(r matches Err(ObjectError::Canonical(_))) ==> exists|m: Model|
                #[trigger] accepts(bytes@, m, MAX_OBJECT_BYTES as int, DEFAULT_MAX_DEPTH as int),
    {
        let value = match decode(bytes) {
            Ok(v) => v,
            Err(e) => return Err(ObjectError::Canonical(e)),
        };
        let ghost mv = model(value);
        proof {
            assert forall|m: Model| #[trigger]
                accepts(bytes@, m, MAX_OBJECT_BYTES as int, DEFAULT_MAX_DEPTH as int) implies m == mv by {
                lemma_accepts_unique(bytes@, m, mv);
            }
        }
        let entries = match value {
            Value::Dict(es) => es,
            other => {
                return Err(ObjectError::NotAMap { found: describe(&other) });
            },
        };
        let ghost es = entry_models(entries@);
        assert(mv == Model::Dict(es));
        proof {
            crate::cbor::encode::lemma_entry_models_len(entries@);
        }
        let mut i: usize = 0;
        while i < entries.len()
            invariant
                i <= entries.len(),
                es == entry_models(entries@),
                es.len() == entries.len(),
                mv == Model::Dict(es),
                bytes.len() <= MAX_OBJECT_BYTES,
                accepts(bytes@, mv, MAX_OBJECT_BYTES as int, DEFAULT_MAX_DEPTH as int),
                scan(bytes@, MAX_OBJECT_BYTES as int, DEFAULT_MAX_DEPTH as int) is Ok,
                forall|m: Model| #[trigger]
                    accepts(bytes@, m, MAX_OBJECT_BYTES as int, DEFAULT_MAX_DEPTH as int) ==> m == mv,
                forall|j: int| 0 <= j < i ==> is_header(#[trigger] es[j].0),
            decreases entries.len() - i,
        {
            proof {
                lemma_entry_index(entries@, i as int);
            }
            if !header_name(entries[i].0.as_str()) {
                proof {
                    assert(first_unknown_at(es, i as int));
                    let k = choose|k: int| first_unknown_at(es, k);
                    if k < i {
                        assert(is_header(es[k].0));
                    } else if k > i {
                        assert(is_header(es[i as int].0));
                    }
                }
                return Err(ObjectError::UnknownField { field: copy_text(entries[i].0.as_str()) });
            }
            i = i + 1;
        }
        assert(!exists|k: int| first_unknown_at(es, k));
        let protocol = match text_field(&entries, "pub") {
            Ok(x) => x,
            Err(e) => return Err(e),
        };
        let kind = match text_field(&entries, "type") {
            Ok(x) => x,
            Err(e) => return Err(e),
        };
        let created = match text_field(&entries, "created") {
            Ok(x) => x,
            Err(e) => return Err(e),
        };
        let author = match cid_field(&entries, "author") {
            Ok(x) => x,
            Err(e) => return Err(e),
        };
        let body = match map_field(&entries, "body") {
            Ok(Some(x)) => x,
            Ok(None) => return Err(ObjectError::MissingField { field: "body" }),
            Err(e) => return Err(e),
        };
        proof {
            lemma_lookup_model(entries@, "prev"@);
        }
        let prev = match crate::cbor::dict_get(&entries, "prev") {
            Some(_) => match cid_field(&entries, "prev") {
                Ok(c) => Some(c),
                Err(e) => return Err(e),
            },
            None => None,
        };
        let ext = match map_field(&entries, "ext") {
            Ok(x) => x,
            Err(e) => return Err(e),
        };
        let object = Object {
            protocol,
            kind,
            created,
            author,
            body,
            prev,
            ext,
            bytes: crate::text::copy_bytes(bytes),
        };
        Ok(Unverified(object))
    }

    /// Start building an object of `kind` authored by `author`.
    pub fn builder(kind: &str, author: &str) -> (r: Builder)
        ensures
            r@ == (BuilderView {
                kind: kind@,
                author: author@,
                protocol: "1"@,
                created: None,
                body: Seq::empty(),
                prev: None,
            }),
    {
        let b = Builder {
            kind: copy_text(kind),
            author: copy_text(author),
            protocol: copy_text("1"),
            created: None,
            body: Vec::new(),
            prev: None,
        };
        assert(b.body@ =~= Seq::<(String, Value)>::empty());
        assert(entry_models(b.body@) =~= Seq::empty());
        b
    }

    /// The protocol major version.
    pub fn protocol(&self) -> (r: &str)
        ensures
            r@ == self@.protocol,
    {
        self.protocol.as_str()
    }

    /// The object type.
    pub fn kind(&self) -> (r: &str)
        ensures
            r@ == self@.kind,
    {
        self.kind.as_str()
    }

    /// The author's claimed creation instant.
    ///
    /// This is an unverified claim. Use a timestamp
    /// attestation where correctness depends on time.
    pub fn created(&self) -> (r: &str)
        ensures
            r@ == self@.created,
    {
        self.created.as_str()
    }

    /// The identifier of the signing key object.
    pub fn author(&self) -> (r: &Cid)
        ensures
            r@ == self@.author,
    {
        &self.author
    }

    /// The type-specific payload.
    pub fn body(&self) -> (r: &Vec<(String, Value)>)
        ensures
            entry_models(r@) == self@.body,
    {
        &self.body
    }

    /// The author's previous object, if this one names it.
    pub fn prev(&self) -> (r: Option<&Cid>)
        ensures
            match r {
                Some(c) => self@.prev == Some(c@),
                None => self@.prev is None,
            },
    {
        match &self.prev {
            Some(c) => Some(c),
            None => None,
        }
    }

    /// Extension fields, if present.
    pub fn ext(&self) -> (r: Option<&Vec<(String, Value)>>)
        ensures
            match r {
                Some(e) => self@.ext == Some(entry_models(e@)),
                None => self@.ext is None,
            },
    {
        match &self.ext {
            Some(e) => Some(e),
            None => None,
        }
    }

    /// The canonical bytes this object was parsed from.
    pub fn bytes(&self) -> (r: &[u8])
        ensures
            r@ == self@.bytes,
    {
        self.bytes.as_slice()
    }
}

impl Unverified<Object> {
    /// Confirm the bytes hash to `expected`.
    ///
    /// Fails with [`ObjectError::IdentifierMismatch`], naming both
    /// identifiers, exactly when they do not.
    pub fn verify(self, expected: &Cid) -> (r: Result<Verified<Object>, ObjectError>)
        ensures
            (digest_of(expected@.0, self.inner()@.bytes) == expected@.1) ==> (r matches Ok(v)
                && v.inner() == self.inner()),
            (digest_of(expected@.0, self.inner()@.bytes) != expected@.1) ==> (r matches Err(
                ObjectError::IdentifierMismatch { expected: e, actual: a },
            ) && encode_utf8(e@) == cid_text(expected@) && encode_utf8(a@) == cid_text(
                (expected@.0, digest_of(expected@.0, self.inner()@.bytes)),
            )),
    {
        if expected.verifies(self.0.bytes.as_slice()) {
            Ok(Verified(self.0))
        } else {
            let actual = Cid::of(self.0.bytes.as_slice(), expected.alg());
            Err(
                ObjectError::IdentifierMismatch {
                    expected: expected.to_string(),
                    actual: actual.to_string(),
                },
            )
        }
    }

    /// Borrow the object without verifying it.
    ///
    /// For error messages and inspection tools only. Nothing that indexes,
    /// evaluates, or stores should take this path.
    pub fn peek(&self) -> (r: &Object)
        ensures
            *r == self.inner(),
    {
        &self.0
    }
}

impl Verified<Object> {
    /// Borrow the verified object.
    pub fn object(&self) -> (r: &Object)
        ensures
            *r == self.inner(),
    {
        &self.0
    }

    /// Take ownership of the verified object.
    pub fn into_inner(self) -> (r: Object)
        ensures
            r == self.inner(),
    {
        self.0
    }
}

/// What a builder holds.
pub struct BuilderView {
    pub kind: Seq<char>,
    pub author: Seq<char>,
    pub protocol: Seq<char>,
    pub created: Option<Seq<char>>,
    pub body: Seq<(Seq<char>, Model)>,
    pub prev: Option<Seq<char>>,
}

/// Builds an object and emits its canonical bytes.
#[derive(Debug)]
pub struct Builder {
    kind: String,
    author: String,
    protocol: String,
    created: Option<String>,
    body: Vec<(String, Value)>,
    prev: Option<String>,
}

impl View for Builder {
    type V = BuilderView;

    closed spec fn view(&self) -> BuilderView {
        BuilderView {
            kind: self.kind@,
            author: self.author@,
            protocol: self.protocol@,
            created: match self.created {
                Some(c) => Some(c@),
                None => None,
            },
            body: entry_models(self.body@),
            prev: match self.prev {
                Some(p) => Some(p@),
                None => None,
            },
        }
    }
}

impl Builder {
    /// The body's keys ascend, so the body encodes canonically as it is.
    #[verifier::type_invariant]
    spec fn body_sorted(self) -> bool {
        keys_sorted(self.body@)
    }

    /// Set the creation instant (RFC 3339 UTC, second precision).
    pub fn created(self, when: &str) -> (r: Self)
        ensures
            r@ == (BuilderView { created: Some(when@), ..self@ }),
    {
        proof {
            use_type_invariant(&self);
        }
        let mut b = self;
        b.created = Some(copy_text(when));
        b
    }

    /// Insert a body field, replacing one with the same key.
    pub fn field(self, key: &str, value: Value) -> (r: Self)
        ensures
            r@ == (BuilderView { body: r@.body, ..self@ }),
            mlookup(r@.body, key@) == Some(model(value)),
            forall|k: Seq<char>| k != key@ ==> #[trigger] mlookup(r@.body, k) == mlookup(self@.body, k),
    {
        proof {
            use_type_invariant(&self);
        }
        let ghost old_body = self.body@;
        let ghost v0 = value;
        let mut b = self;
        let mut body = Vec::new();
        std::mem::swap(&mut body, &mut b.body);
        dict_insert(&mut body, copy_text(key), value);
        b.body = body;
        proof {
            lemma_lookup_model(b.body@, key@);
            assert forall|k: Seq<char>| k != key@ implies #[trigger] mlookup(entry_models(b.body@), k)
                == mlookup(entry_models(old_body), k) by {
                lemma_lookup_model(b.body@, k);
                lemma_lookup_model(old_body, k);
            }
        }
        b
    }

    /// Name the author's previous object.
    pub fn prev(self, cid: &str) -> (r: Self)
        ensures
            r@ == (BuilderView { prev: Some(cid@), ..self@ }),
    {
        proof {
            use_type_invariant(&self);
        }
        let mut b = self;
        b.prev = Some(copy_text(cid));
        b
    }

    /// Emit canonical bytes.
    ///
    /// Fails when no creation instant was set, or when the author or the
    /// previous object does not parse as an identifier, in that order.
    /// Identifiers are written in their normal text form, and every map in
    /// ascending key order, as [`encode`](crate::cbor::encode) writes it.
    pub fn build(self) -> (r: Result<Vec<u8>, ObjectError>)
        ensures
            match build_reading(self@) {
                Ok(m) => r matches Ok(b) && b@ == enc(crate::cbor::normal(m)),
                Err(rd) => r matches Err(e) && error_reads(e, rd),
            },
    {
        proof {
            use_type_invariant(&self);
        }
        let ghost v = self@;
        let Builder { kind, author, protocol, created, body, prev } = self;
        let created = match created {
            Some(c) => c,
            None => return Err(ObjectError::MissingField { field: "created" }),
        };
        let author = match Cid::parse(author.as_str()) {
            Ok(c) => c,
            Err(source) => return Err(ObjectError::BadCid { field: "author", source }),
        };
        let prev = match prev {
            Some(p) => match Cid::parse(p.as_str()) {
                Ok(c) => Some(c),
                Err(source) => return Err(ObjectError::BadCid { field: "prev", source }),
            },
            None => None,
        };
        let mut entries: Vec<(String, Value)> = Vec::new();
        assert(entry_models(entries@) =~= Seq::empty());
        let author_text = author.to_string();
        proof {
            assert(decode_utf8(encode_utf8(author_text@)) == author_text@);
        }
        push_entry(&mut entries, "author", Value::Text(author_text));
        push_entry(&mut entries, "body", Value::Dict(body));
        push_entry(&mut entries, "created", Value::Text(created));
        let ghost head = entry_models(entries@);
        assert(head =~= seq![
            ("author"@, Model::Text(decode_utf8(cid_text(author@)))),
            ("body"@, Model::Dict(v.body)),
            ("created"@, Model::Text(v.created->0)),
        ]);
        match &prev {
            Some(p) => {
                let t = p.to_string();
                proof {
                    assert(decode_utf8(encode_utf8(t@)) == t@);
                }
                push_entry(&mut entries, "prev", Value::Text(t));
            },
            None => {},
        }
        push_entry(&mut entries, "pub", Value::Text(protocol));
        push_entry(&mut entries, "type", Value::Text(kind));
        let ghost pv = match prev {
            Some(p) => Some(p@),
            None => None,
        };
        assert(model(Value::Dict(entries)) == built_model(v, author@, pv));
        Ok(encode(&Value::Dict(entries)))
    }
}

/// Append an entry, tracking the model of the list.
fn push_entry(entries: &mut Vec<(String, Value)>, key: &str, value: Value)
    ensures
        entry_models(final(entries)@) == entry_models(old(entries)@).push((key@, model(value))),
{
    let k = copy_text(key);
    proof {
        crate::cbor::lemma_entry_models_push(entries@, k, value);
    }
    entries.push((k, value));
}

/// The map a builder emits, given the identifiers its texts parse to.
pub open spec fn built_model(
    v: BuilderView,
    author: (HashAlg, Seq<u8>),
    prev: Option<(HashAlg, Seq<u8>)>,
) -> Model {
    let head = seq![
        ("author"@, Model::Text(decode_utf8(cid_text(author)))),
        ("body"@, Model::Dict(v.body)),
        ("created"@, Model::Text(v.created->0)),
    ];
    let with_prev = match prev {
        Some(p) => head.push(("prev"@, Model::Text(decode_utf8(cid_text(p))))),
        None => head,
    };
    Model::Dict(with_prev.push(("pub"@, Model::Text(v.protocol))).push(("type"@, Model::Text(v.kind))))
}

/// What [`Builder::build`] emits for a builder holding `v`: the map to
/// encode, or the reason it fails.
pub open spec fn build_reading(v: BuilderView) -> Result<Model, ObjectReading> {
    if v.created is None {
        Err(ObjectReading::MissingField("created"@))
    } else {
        match read_cid(encode_utf8(v.author)) {
            CidReading::Parsed(a) => match v.prev {
                None => Ok(built_model(v, (HashAlg::Sha2_256, a), None)),
                Some(p) => match read_cid(encode_utf8(p)) {
                    CidReading::Parsed(d) => Ok(
                        built_model(v, (HashAlg::Sha2_256, a), Some((HashAlg::Sha2_256, d))),
                    ),
                    rd => Err(ObjectReading::BadCid("prev"@, rd)),
                },
            },
            rd => Err(ObjectReading::BadCid("author"@, rd)),
        }
    }
}

} // verus!
