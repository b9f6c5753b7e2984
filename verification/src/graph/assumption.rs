//! Assumed accountability and machine-proposed objects
//!.
//!
//! Both let something outside the graph bear on it without acquiring
//! authority inside it.

use crate::cbor::{mlookup, Model};
use crate::fields::{cid_entry, entry, member, member_of, mget, mref, mtext, opt_cid, text_in};
use crate::text::{copy_text, string_from_utf8, text_eq};
use crate::{Cid, HashAlg, Object};
use vstd::prelude::*;
use vstd::utf8::*;

verus! {

broadcast use vstd::utf8::group_utf8_lib;

/// What an assumer knows about the key they stand behind.
#[derive(Debug, Clone, Copy, PartialEq, Eq, Structural)]
#[non_exhaustive]
pub enum Basis {
    /// A person holds the link in memory.
    IdentityKnownToMe,
    /// The assumer has reviewed the work rather than knowing the author.
    WorkReviewedByMe,
    /// An institution stands behind it.
    Institutional,
}

/// The basis an identifier names, if any.
pub open spec fn basis_from_id(id: Seq<char>) -> Option<Basis> {
    if id == "identity-known-to-me"@ {
        Some(Basis::IdentityKnownToMe)
    } else if id == "work-reviewed-by-me"@ {
        Some(Basis::WorkReviewedByMe)
    } else if id == "institutional"@ {
        Some(Basis::Institutional)
    } else {
        None
    }
}

impl Basis {
    /// Resolve the identifier used in an annotation.
    pub fn from_id(id: &str) -> (r: Option<Self>)
        ensures
            r == basis_from_id(id@),
    {
        if text_eq(id, "identity-known-to-me") {
            Some(Basis::IdentityKnownToMe)
        } else if text_eq(id, "work-reviewed-by-me") {
            Some(Basis::WorkReviewedByMe)
        } else if text_eq(id, "institutional") {
            Some(Basis::Institutional)
        } else {
            None
        }
    }

    /// The identifier used in an annotation.
    pub fn id(self) -> (r: &'static str)
        ensures
            r@ == (match self {
                Basis::IdentityKnownToMe => "identity-known-to-me"@,
                Basis::WorkReviewedByMe => "work-reviewed-by-me"@,
                Basis::Institutional => "institutional"@,
            }),
    {
        match self {
            Basis::IdentityKnownToMe => "identity-known-to-me",
            Basis::WorkReviewedByMe => "work-reviewed-by-me",
            Basis::Institutional => "institutional",
        }
    }
}

/// A key publicly standing behind another key's output.
///
/// Published rather than hidden: the record names two keys and a basis,
/// and nothing that links the assumed key to a person.
#[derive(Debug, Clone, PartialEq, Eq)]
pub struct Assumption {
    /// The key doing the vouching.
    pub assumer: Cid,
    /// The key vouched for.
    pub assumed: Cid,
    /// What the assumer is going on.
    pub basis: Basis,
}

/// An assumption's keys and basis.
pub open spec fn assumption_view(a: Assumption) -> ((HashAlg, Seq<u8>), (HashAlg, Seq<u8>), Basis) {
    (a.assumer@, a.assumed@, a.basis)
}

/// How an annotation reads as an assumption; `None` when it is not one.
pub open spec fn assumption_reading(author: (HashAlg, Seq<u8>), es: Seq<(Seq<char>, Model)>) -> Option<
    ((HashAlg, Seq<u8>), (HashAlg, Seq<u8>), Basis),
> {
    let assumed = opt_cid(mtext(mlookup(es, "target"@)));
    let basis = match mlookup(es, "value"@) {
        Some(v) => match mtext(mget(v, "basis"@)) {
            Some(t) => basis_from_id(t),
            None => None,
        },
        None => None,
    };
    if mtext(mlookup(es, "kind"@)) != Some("assumes-accountability"@) || assumed is None || basis is None {
        None
    } else {
        Some((author, assumed->0, basis->0))
    }
}

impl Assumption {
    /// Read an assumption from a verified annotation object.
    pub fn from_object(object: &Object) -> (r: Option<Self>)
        ensures
            match assumption_reading(object@.author, object@.body) {
                Some(v) => r matches Some(a) && assumption_view(a) == v,
                None => r is None,
            },
    {
        let body = object.body();
        match text_in(entry(body, "kind")) {
            Some(k) => {
                if !text_eq(k, "assumes-accountability") {
                    return None;
                }
            },
            None => return None,
        }
        let assumed = match cid_entry(body, "target") {
            Some(c) => c,
            None => return None,
        };
        let basis = match text_in(member_of(entry(body, "value"), "basis")) {
            Some(t) => match Basis::from_id(t) {
                Some(b) => b,
                None => return None,
            },
            None => return None,
        };
        Some(Assumption { assumer: object.author().clone(), assumed, basis })
    }
}

/// What a machine-assisted judgement found. Advisory by
/// construction: nothing in the evaluation reads one.
#[derive(Debug, Clone, PartialEq, Eq)]
pub struct Triage {
    /// The object judged.
    pub target: Cid,
    /// What the model reported.
    pub finding: String,
    /// The model and version, so the run can be repeated.
    pub engine: String,
}

/// A triage annotation's target, finding, and engine text.
pub open spec fn triage_view(t: Triage) -> ((HashAlg, Seq<u8>), Seq<char>, Seq<char>) {
    (t.target@, t.finding@, t.engine@)
}

/// `model version`: the two texts joined by a space.
pub open spec fn engine_text(model: Seq<char>, version: Seq<char>) -> Seq<char> {
    decode_utf8(encode_utf8(model) + seq![32u8] + encode_utf8(version))
}

/// How an annotation reads as a triage record; `None` when it is not one
/// or when its engine is undeclared.
pub open spec fn triage_reading(es: Seq<(Seq<char>, Model)>) -> Option<((HashAlg, Seq<u8>), Seq<char>, Seq<char>)> {
    let value = mlookup(es, "value"@);
    let engine = match value {
        Some(v) => mget(v, "engine"@),
        None => None,
    };
    let model = match engine {
        Some(e) => mtext(mget(e, "model"@)),
        None => None,
    };
    let version = match engine {
        Some(e) => mtext(mget(e, "version"@)),
        None => None,
    };
    let target = opt_cid(mtext(mlookup(es, "target"@)));
    let finding = match value {
        Some(v) => mtext(mget(v, "finding"@)),
        None => None,
    };
    if mtext(mlookup(es, "kind"@)) != Some("triage"@) || value is None || engine is None || model is None
        || version is None || target is None || finding is None {
        None
    } else {
        Some((target->0, finding->0, engine_text(model->0, version->0)))
    }
}

/// Two texts joined by a space.
fn join_space(a: &str, b: &str) -> (r: String)
    ensures
        r@ == engine_text(a@, b@),
{
    let ab = a.as_bytes();
    let bb = b.as_bytes();
    let mut out: Vec<u8> = Vec::new();
    let mut i: usize = 0;
    while i < ab.len()
        invariant
            i <= ab.len(),
            out@ == ab@.take(i as int),
        decreases ab.len() - i,
    {
        out.push(ab[i]);
        i = i + 1;
        assert(out@ =~= ab@.take(i as int));
    }
    out.push(32);
    let ghost mid = out@;
    let mut j: usize = 0;
    while j < bb.len()
        invariant
            j <= bb.len(),
            out@ == mid + bb@.take(j as int),
        decreases bb.len() - j,
    {
        out.push(bb[j]);
        j = j + 1;
        assert(out@ =~= mid + bb@.take(j as int));
    }
    proof {
        assert(ab@.take(ab.len() as int) =~= ab@);
        assert(bb@.take(bb.len() as int) =~= bb@);
        assert(out@ =~= encode_utf8(a@) + seq![32u8] + encode_utf8(b@));
        assert(valid_utf8(seq![32u8])) by {
            crate::cid::lemma_ascii_valid(seq![32u8]);
        }
        assert(valid_utf8(encode_utf8(a@) + seq![32u8]));
    }
    match string_from_utf8(out) {
        Some(s) => s,
        None => {
            assert(false);
            String::new()
        },
    }
}

impl Triage {
    /// Read a triage annotation, requiring its disclosure block: an
    /// undisclosed machine judgement cannot be re-run.
    pub fn from_object(object: &Object) -> (r: Option<Self>)
        ensures
            match triage_reading(object@.body) {
                Some(v) => r matches Some(t) && triage_view(t) == v,
                None => r is None,
            },
    {
        let body = object.body();
        match text_in(entry(body, "kind")) {
            Some(k) => {
                if !text_eq(k, "triage") {
                    return None;
                }
            },
            None => return None,
        }
        let value = entry(body, "value");
        if value.is_none() {
            return None;
        }
        let engine = member_of(value, "engine");
        if engine.is_none() {
            return None;
        }
        let model = match text_in(member_of(engine, "model")) {
            Some(m) => m,
            None => return None,
        };
        let version = match text_in(member_of(engine, "version")) {
            Some(v) => v,
            None => return None,
        };
        let target = match cid_entry(body, "target") {
            Some(c) => c,
            None => return None,
        };
        let finding = match text_in(member_of(value, "finding")) {
            Some(f) => copy_text(f),
            None => return None,
        };
        Some(Triage { target, finding, engine: join_space(model, version) })
    }
}

} // verus!
