//! Personhood attestation.
//!
//! An anonymous credential proves that a human-issued credential underlies
//! a key without revealing which human, and bounds keys per person within
//! a scope by a nullifier. This module is the shape a real scheme drops
//! into; it implements none.
//!
//! Verification is offline and must stay so: [`Scheme::verify`] takes
//! bytes and returns a nullifier, and the trait gives it no way to make a
//! network call. A check that contacted a service would tell it who is
//! verifying what and when.
//!
//! [`Anonymity`] records what a scheme claims. Those are properties of the
//! scheme, checked by reading its documentation; running a proof says
//! nothing about whether the issuer can correlate presentations.

use crate::cbor::{mlookup, Model};
use crate::fields::{bytes_in, cid_in, entry, member, member_of, mbytes, mget, mref, mtext, opt_cid, sview, text_in};
use crate::graph::table::Table;
use crate::text::{copy_bytes, copy_text, text_eq};
use crate::{Cid, HashAlg, Object};
use vstd::prelude::*;

verus! {

/// A per-person, per-scope pseudonym. Two keys presenting the same
/// nullifier in one scope are held by the same person; keys in different
/// scopes are unlinkable.
#[derive(Debug, Clone, PartialEq, Eq, PartialOrd, Ord, Hash)]
pub struct Nullifier(pub Vec<u8>);

/// What a scheme claims about linkability. Every field is a claim about
/// the scheme, not a measurement of it.
#[derive(Debug, Clone, Copy, PartialEq, Eq, Structural)]
pub struct Anonymity {
    /// Whether presentations in different scopes are unlinkable.
    pub unlinkable_across_scopes: bool,
    /// Whether the issuer, colluding with a verifier, can link presentations.
    pub issuer_can_link: bool,
    /// Whether revocation traffic leaks linkage.
    pub revocation_leaks_linkage: bool,
}

/// Why a presentation did not verify.
#[derive(Debug, PartialEq, Eq, Clone)]
#[non_exhaustive]
pub enum SchemeError {
    /// The proof did not verify against the issuer set.
    BadProof {
        /// The issuer set it was checked against.
        issuer_set: String,
    },
    /// The scheme is not one this implementation carries.
    UnknownScheme {
        /// The unrecognized identifier.
        found: String,
    },
    /// This nullifier has already been seen in this scope: one person, one
    /// key, per scope.
    NullifierReused {
        /// The scope in which uniqueness is claimed.
        scope: String,
    },
    /// The issuer set was drawn from a single jurisdiction.
    SingleJurisdiction,
}

/// A refusal as a mathematical value, its texts as character sequences.
pub enum SchemeFault {
    BadProof { issuer_set: Seq<char> },
    UnknownScheme { found: Seq<char> },
    NullifierReused { scope: Seq<char> },
    SingleJurisdiction,
}

impl View for SchemeError {
    type V = SchemeFault;

    open spec fn view(&self) -> SchemeFault {
        match self {
            SchemeError::BadProof { issuer_set } => SchemeFault::BadProof { issuer_set: issuer_set@ },
            SchemeError::UnknownScheme { found } => SchemeFault::UnknownScheme { found: found@ },
            SchemeError::NullifierReused { scope } => SchemeFault::NullifierReused { scope: scope@ },
            SchemeError::SingleJurisdiction => SchemeFault::SingleJurisdiction,
        }
    }
}

/// A personhood scheme. A real implementation wraps a proof-system
/// verifier and a published issuer set. Nothing about this trait permits a
/// network call, and nothing downstream needs one.
pub trait Scheme {
    /// Whether the scheme keeps the promises stated below: that
    /// [`Scheme::id`] reports [`Scheme::scheme_id`] and that
    /// [`Scheme::verify`] answers as [`Scheme::answer`] says. A scheme
    /// whose implementation was not verified makes no such promise.
    open spec fn obeys_scheme_spec(&self) -> bool {
        false
    }

    /// The identifier the scheme reports.
    open spec fn scheme_id(&self) -> Seq<char> {
        vstd::pervasive::arbitrary()
    }

    /// What the scheme answers a presentation of `proof` against
    /// `issuer_set` in `scope`: the nullifier it carries, or the refusal.
    open spec fn answer(&self, proof: Seq<u8>, issuer_set: (HashAlg, Seq<u8>), scope: Seq<char>) -> Result<
        Seq<u8>,
        SchemeFault,
    > {
        vstd::pervasive::arbitrary()
    }

    /// The identifier carried in a `personhood` annotation.
    fn id(&self) -> (r: &str)
        ensures
            self.obeys_scheme_spec() ==> r@ == self.scheme_id(),
    ;

    /// What this scheme claims about linkability.
    fn anonymity(&self) -> Anonymity;

    /// Verify a presentation, yielding the nullifier it carries; see
    /// [`Scheme::answer`].
    fn verify(&self, proof: &[u8], issuer_set: &Cid, scope: &str) -> (r: Result<Nullifier, SchemeError>)
        ensures
            self.obeys_scheme_spec() ==> match r {
                Ok(n) => self.answer(proof@, issuer_set@, scope@) == Ok::<Seq<u8>, SchemeFault>(n.0@),
                Err(e) => self.answer(proof@, issuer_set@, scope@) == Err::<Seq<u8>, SchemeFault>(e@),
            },
    ;
}

/// An attestation's subject, scheme, issuer set, scope, nullifier, proof
/// and claimed anonymity.
pub type AttestationView = (
    (HashAlg, Seq<u8>),
    Seq<char>,
    (HashAlg, Seq<u8>),
    Seq<char>,
    Seq<u8>,
    Seq<u8>,
    Anonymity,
);

/// A personhood attestation as it appears in the graph.
#[derive(Debug, Clone, PartialEq, Eq)]
pub struct Attestation {
    /// The key the attestation covers.
    pub subject: Cid,
    /// The scheme used.
    pub scheme: String,
    /// The issuer set, as a content-addressed document, so that which
    /// issuers are accepted is visible, dated, and disputable.
    pub issuer_set: Cid,
    /// The scope uniqueness is claimed within.
    pub scope: String,
    /// The nullifier.
    pub nullifier: Nullifier,
    /// The proof bytes.
    pub proof: Vec<u8>,
    /// What the scheme claims about linkability.
    pub anonymity: Anonymity,
}

/// The view of an attestation.
pub open spec fn attestation_view(a: Attestation) -> AttestationView {
    (a.subject@, a.scheme@, a.issuer_set@, a.scope@, a.nullifier.0@, a.proof@, a.anonymity)
}

/// Whether an anonymity map sets `name` to `true`.
pub open spec fn flag(anonymity: Model, name: Seq<char>) -> bool {
    mget(anonymity, name) == Some(Model::Bool(true))
}

/// What an annotation body reads as, if it is a personhood attestation:
/// kind `personhood`, a `value` with an `anonymity` entry, a subject and
/// an issuer set that parse as identifiers, a scheme, a scope and a
/// nullifier. The proof is empty when absent, and each anonymity claim is
/// made only by an explicit `true`.
pub open spec fn attestation_reading(body: Seq<(Seq<char>, Model)>) -> Option<AttestationView> {
    let value = mlookup(body, "value"@);
    if mtext(mlookup(body, "kind"@)) != Some("personhood"@) || value is None {
        None
    } else {
        let v = value->0;
        match mget(v, "anonymity"@) {
            None => None,
            Some(anonymity) => {
                let subject = opt_cid(mtext(mlookup(body, "target"@)));
                let scheme = mtext(mget(v, "scheme"@));
                let issuer_set = opt_cid(mtext(mget(v, "issuer_set"@)));
                let scope = mtext(mget(v, "scope"@));
                let nullifier = mbytes(mget(v, "nullifier"@));
                if subject is Some && scheme is Some && issuer_set is Some && scope is Some && nullifier is Some {
                    Some(
                        (
                            subject->0,
                            scheme->0,
                            issuer_set->0,
                            scope->0,
                            nullifier->0,
                            match mbytes(mget(v, "proof"@)) {
                                Some(p) => p,
                                None => Seq::empty(),
                            },
                            Anonymity {
                                unlinkable_across_scopes: flag(anonymity, "unlinkable_across_scopes"@),
                                issuer_can_link: flag(anonymity, "issuer_can_link"@),
                                revocation_leaks_linkage: flag(anonymity, "revocation_leaks_linkage"@),
                            },
                        ),
                    )
                } else {
                    None
                }
            },
        }
    }
}

fn is_true(v: Option<&crate::cbor::Value>) -> (r: bool)
    ensures
        r == (mref(v) == Some(Model::Bool(true))),
{
    match v {
        Some(crate::cbor::Value::Bool(b)) => *b,
        _ => false,
    }
}

impl Attestation {
    /// Read an attestation from a verified annotation object; see
    /// [`attestation_reading`].
    pub fn from_object(object: &Object) -> (r: Option<Self>)
        ensures
            match attestation_reading(object@.body) {
                Some(v) => r matches Some(a) && attestation_view(a) == v,
                None => r is None,
            },
    {
        let body = object.body();
        match text_in(entry(body, "kind")) {
            Some(k) => {
                if !text_eq(k, "personhood") {
                    return None;
                }
            },
            None => return None,
        }
        let value = match entry(body, "value") {
            Some(v) => v,
            None => return None,
        };
        let anonymity = match member(value, "anonymity") {
            Some(a) => a,
            None => return None,
        };
        let subject = match cid_in(text_in(entry(body, "target"))) {
            Some(c) => c,
            None => return None,
        };
        let scheme = match text_in(member(value, "scheme")) {
            Some(t) => copy_text(t),
            None => return None,
        };
        let issuer_set = match cid_in(text_in(member(value, "issuer_set"))) {
            Some(c) => c,
            None => return None,
        };
        let scope = match text_in(member(value, "scope")) {
            Some(t) => copy_text(t),
            None => return None,
        };
        let nullifier = match bytes_in(member(value, "nullifier")) {
            Some(b) => copy_bytes(b),
            None => return None,
        };
        let proof = match bytes_in(member(value, "proof")) {
            Some(b) => copy_bytes(b),
            None => Vec::new(),
        };
        let anonymity = Anonymity {
            unlinkable_across_scopes: is_true(member(anonymity, "unlinkable_across_scopes")),
            issuer_can_link: is_true(member(anonymity, "issuer_can_link")),
            revocation_leaks_linkage: is_true(member(anonymity, "revocation_leaks_linkage")),
        };
        Some(Attestation { subject, scheme, issuer_set, scope, nullifier: Nullifier(nullifier), proof, anonymity })
    }
}

/// One nullifier seen: its scope, its bytes, and the key that presented it.
pub type SeenView = (Seq<char>, Seq<u8>, (HashAlg, Seq<u8>));

/// What a log of presentations records: for each scope and nullifier, the
/// key that last presented it.
pub open spec fn seen_map(log: Seq<SeenView>) -> Map<(Seq<char>, Seq<u8>), (HashAlg, Seq<u8>)>
    decreases log.len(),
{
    if log.len() == 0 {
        Map::empty()
    } else {
        seen_map(log.drop_last()).insert((log.last().0, log.last().1), log.last().2)
    }
}

/// Whether presenting `nullifier` in `scope` from `subject` would be the
/// same person holding a second key there.
pub open spec fn reused(
    seen: Map<(Seq<char>, Seq<u8>), (HashAlg, Seq<u8>)>,
    scope: Seq<char>,
    nullifier: Seq<u8>,
    subject: (HashAlg, Seq<u8>),
) -> bool {
    seen.dom().contains((scope, nullifier)) && seen[(scope, nullifier)] != subject
}

/// The key that presented `nullifier` in `scope`, if any.
fn seen_by<'a>(log: &'a Vec<(String, Vec<u8>, Cid)>, scope: &str, nullifier: &[u8]) -> (r: Option<&'a Cid>)
    ensures
        match r {
            Some(c) => seen_map(seen_view(log@)).dom().contains((scope@, nullifier@)) && seen_map(seen_view(log@))[(scope@, nullifier@)] == c@,
            None => !seen_map(seen_view(log@)).dom().contains((scope@, nullifier@)),
        },
{
    let ghost v = seen_view(log@);
    let mut found: Option<&Cid> = None;
    let mut i: usize = 0;
    assert(v.take(0) =~= Seq::<SeenView>::empty());
    while i < log.len()
        invariant
            i <= log.len(),
            v == seen_view(log@),
            match found {
                Some(c) => seen_map(v.take(i as int)).dom().contains((scope@, nullifier@)) && seen_map(
                    v.take(i as int),
                )[(scope@, nullifier@)] == c@,
                None => !seen_map(v.take(i as int)).dom().contains((scope@, nullifier@)),
            },
        decreases log.len() - i,
    {
        assert(v.take(i + 1).drop_last() =~= v.take(i as int));
        assert(v.take(i + 1).last() == (log@[i as int].0@, log@[i as int].1@, log@[i as int].2@));
        if text_eq(log[i].0.as_str(), scope) && crate::text::bytes_eq(log[i].1.as_slice(), nullifier) {
            found = Some(&log[i].2);
        }
        i = i + 1;
    }
    assert(v.take(log.len() as int) =~= v);
    found
}

/// Record a presentation that its scheme accepted, unless the same
/// nullifier was already presented in the scope by a different key.
/// `outcome` is what the scheme's verification returned: a refusal is
/// passed on and records nothing.
fn enter_presentation(
    log: &mut Vec<(String, Vec<u8>, Cid)>,
    attestation: &Attestation,
    outcome: Result<Nullifier, SchemeError>,
) -> (r: Result<(), SchemeError>)
    ensures
        outcome is Err ==> r == Err::<(), SchemeError>(outcome->Err_0) && seen_map(seen_view(final(log)@))
            == seen_map(seen_view(old(log)@)),
        outcome is Ok && reused(
            seen_map(seen_view(old(log)@)),
            attestation.scope@,
            attestation.nullifier.0@,
            attestation.subject@,
        ) ==> (r matches Err(SchemeError::NullifierReused { scope }) && scope@ == attestation.scope@)
            && seen_map(seen_view(final(log)@)) == seen_map(seen_view(old(log)@)),
        outcome is Ok && !reused(
            seen_map(seen_view(old(log)@)),
            attestation.scope@,
            attestation.nullifier.0@,
            attestation.subject@,
        ) ==> r is Ok && seen_map(seen_view(final(log)@)) == seen_map(seen_view(old(log)@)).insert(
            (attestation.scope@, attestation.nullifier.0@),
            attestation.subject@,
        ),
{
    match outcome {
        Err(e) => Err(e),
        Ok(_) => {
            match seen_by(log, attestation.scope.as_str(), attestation.nullifier.0.as_slice()) {
                Some(existing) => {
                    if !existing.same(&attestation.subject) {
                        return Err(SchemeError::NullifierReused { scope: copy_text(attestation.scope.as_str()) });
                    }
                },
                None => {},
            }
            let ghost before = seen_view(log@);
            log.push(
                (
                    copy_text(attestation.scope.as_str()),
                    copy_bytes(attestation.nullifier.0.as_slice()),
                    attestation.subject.clone(),
                ),
            );
            assert(seen_view(log@) =~= before.push(
                (attestation.scope@, attestation.nullifier.0@, attestation.subject@),
            ));
            assert(seen_view(log@).drop_last() =~= before);
            Ok(())
        },
    }
}

/// The schemes an implementation carries, and the nullifiers it has seen.
///
/// The protocol requires at least two schemes and forbids presenting
/// personhood as binary, so [`Registry::verify`] reports the scheme that
/// verified rather than a boolean.
pub struct Registry {
    schemes: Table<Box<dyn Scheme>>,
    seen: Vec<(String, Vec<u8>, Cid)>,
}

spec fn seen_view(log: Seq<(String, Vec<u8>, Cid)>) -> Seq<SeenView> {
    log.map_values(|e: (String, Vec<u8>, Cid)| (e.0@, e.1@, e.2@))
}

impl Registry {
    /// The schemes carried, by identifier.
    pub closed spec fn scheme_map(self) -> Map<Seq<char>, Box<dyn Scheme>> {
        self.schemes.map()
    }

    /// For each scope and nullifier seen, the key that presented it.
    pub closed spec fn seen(self) -> Map<(Seq<char>, Seq<u8>), (HashAlg, Seq<u8>)> {
        seen_map(seen_view(self.seen@))
    }

    /// An empty registry.
    pub fn new() -> (r: Self)
        ensures
            r.scheme_map() == Map::<Seq<char>, Box<dyn Scheme>>::empty(),
            r.seen() == Map::<(Seq<char>, Seq<u8>), (HashAlg, Seq<u8>)>::empty(),
    {
        let r = Registry { schemes: Table::new(), seen: Vec::new() };
        assert(seen_view(r.seen@) =~= Seq::empty());
        r
    }

    /// Add a scheme under the identifier it reports, replacing one of the
    /// same identifier.
    pub fn register(&mut self, scheme: Box<dyn Scheme>)
        ensures
            scheme.obeys_scheme_spec() ==> final(self).scheme_map() == old(self).scheme_map().insert(
                scheme.scheme_id(),
                scheme,
            ),
            exists|id: Seq<char>| final(self).scheme_map() == #[trigger] old(self).scheme_map().insert(id, scheme),
            final(self).seen() == old(self).seen(),
    {
        let id = copy_text(scheme.id());
        let ghost k = id@;
        self.schemes.put(id, scheme);
        assert(self.scheme_map() == old(self).scheme_map().insert(k, scheme));
    }

    /// The schemes carried, in identifier order.
    pub fn schemes(&self) -> (r: Vec<&str>)
        ensures
            forall|i: int, j: int|
                0 <= i < j < r.len() ==> crate::cbor::lex_lt(
                    vstd::utf8::encode_utf8((#[trigger] r@[i])@),
                    vstd::utf8::encode_utf8((#[trigger] r@[j])@),
                ),
            forall|x: Seq<char>|
                #![trigger self.scheme_map().dom().contains(x)]
                (exists|i: int| 0 <= i < r.len() && (#[trigger] r@[i])@ == x) <==> self.scheme_map().dom().contains(x),
    {
        let es = self.schemes.entries();
        let mut out: Vec<&str> = Vec::new();
        let mut j: usize = 0;
        proof {
            crate::graph::table::lemma_to_map(es@);
        }
        while j < es.len()
            invariant
                j <= es.len(),
                out.len() == j,
                forall|s: int| 0 <= s < j ==> (#[trigger] out@[s])@ == es@[s].0@,
            decreases es.len() - j,
        {
            out.push(es[j].0.as_str());
            j = j + 1;
        }
        proof {
            assert forall|a: int, b: int| 0 <= a < b < out.len() implies crate::cbor::lex_lt(
                vstd::utf8::encode_utf8((#[trigger] out@[a])@),
                vstd::utf8::encode_utf8((#[trigger] out@[b])@),
            ) by {
                assert(out@[a]@ == es@[a].0@);
                assert(out@[b]@ == es@[b].0@);
            }
            assert forall|x: Seq<char>|
                (exists|i: int| 0 <= i < out.len() && (#[trigger] out@[i])@ == x) <==> self.scheme_map().dom().contains(
                    x,
                ) by {
                if exists|i: int| 0 <= i < out.len() && (#[trigger] out@[i])@ == x {
                    let i = choose|i: int| 0 <= i < out.len() && (#[trigger] out@[i])@ == x;
                    assert(es@[i].0@ == x);
                }
                if self.scheme_map().dom().contains(x) {
                    let i = choose|i: int| 0 <= i < es@.len() && es@[i].0@ == x;
                    assert(out@[i]@ == x);
                }
            }
        }
        out
    }

    /// Whether this implementation carries enough schemes to be conformant:
    /// at least two.
    pub fn meets_scheme_minimum(&self) -> (r: bool)
        ensures
            r == (self.scheme_map().dom().len() >= 2),
    {
        self.schemes.len() >= 2
    }

    /// Record a presentation that its scheme accepted, unless the same
    /// nullifier was already presented in the scope by a different key.
    /// `outcome` is what the scheme's verification returned: a refusal is
    /// passed on and records nothing.
    pub fn record(&mut self, attestation: &Attestation, outcome: Result<Nullifier, SchemeError>) -> (r: Result<
        (),
        SchemeError,
    >)
        ensures
            final(self).scheme_map() == old(self).scheme_map(),
            outcome is Err ==> r == Err::<(), SchemeError>(outcome->Err_0) && final(self).seen() == old(self).seen(),
            outcome is Ok && reused(
                old(self).seen(),
                attestation.scope@,
                attestation.nullifier.0@,
                attestation.subject@,
            ) ==> (r matches Err(SchemeError::NullifierReused { scope }) && scope@ == attestation.scope@)
                && final(self).seen() == old(self).seen(),
            outcome is Ok && !reused(
                old(self).seen(),
                attestation.scope@,
                attestation.nullifier.0@,
                attestation.subject@,
            ) ==> r is Ok && final(self).seen() == old(self).seen().insert(
                (attestation.scope@, attestation.nullifier.0@),
                attestation.subject@,
            ),
    {
        enter_presentation(&mut self.seen, attestation, outcome)
    }

    /// Verify an attestation and record its nullifier, returning the
    /// identifier of the scheme that verified it.
    ///
    /// An unknown scheme is refused rather than assumed valid. Otherwise
    /// the scheme decides whether the proof verifies, and [`Registry::record`]
    /// decides the rest: whatever the scheme answered, a nullifier already
    /// presented in the scope by another key is never accepted.
    pub fn verify(&mut self, attestation: &Attestation) -> (r: Result<&str, SchemeError>)
        ensures
            final(self).scheme_map() == old(self).scheme_map(),
            !old(self).scheme_map().dom().contains(attestation.scheme@) ==> (r matches Err(
                SchemeError::UnknownScheme { found },
            ) && found@ == attestation.scheme@ && final(self).seen() == old(self).seen()),
            r is Ok ==> old(self).scheme_map().dom().contains(attestation.scheme@) && r->Ok_0@ == attestation.scheme@
                && !reused(old(self).seen(), attestation.scope@, attestation.nullifier.0@, attestation.subject@)
                && final(self).seen() == old(self).seen().insert(
                (attestation.scope@, attestation.nullifier.0@),
                attestation.subject@,
            ),
            r is Err ==> final(self).seen() == old(self).seen(),
            reused(old(self).seen(), attestation.scope@, attestation.nullifier.0@, attestation.subject@) ==> r is Err,
            old(self).scheme_map().dom().contains(attestation.scheme@) && old(
                self,
            ).scheme_map()[attestation.scheme@].obeys_scheme_spec() ==> ({
                let a = old(self).scheme_map()[attestation.scheme@].answer(
                    attestation.proof@,
                    attestation.issuer_set@,
                    attestation.scope@,
                );
                let again = reused(old(self).seen(), attestation.scope@, attestation.nullifier.0@, attestation.subject@);
                &&& a is Err ==> (r matches Err(e) && e@ == a->Err_0)
                &&& (a is Ok && again) ==> (r matches Err(SchemeError::NullifierReused { scope }) && scope@
                    == attestation.scope@)
                &&& (a is Ok && !again) ==> (r matches Ok(id) && id@ == attestation.scheme@)
            }),
    {
        let entry = match self.schemes.find(attestation.scheme.as_str()) {
            Some(e) => e,
            None => return Err(SchemeError::UnknownScheme { found: copy_text(attestation.scheme.as_str()) }),
        };
        let outcome = entry.1.verify(attestation.proof.as_slice(), &attestation.issuer_set, attestation.scope.as_str());
        match enter_presentation(&mut self.seen, attestation, outcome) {
            Ok(()) => Ok(entry.0.as_str()),
            Err(e) => Err(e),
        }
    }
}

/// One person, one key, per scope: once a nullifier has been recorded
/// for one key in a scope, presenting it from any other key there is the
/// same person twice.
pub proof fn law_one_key_per_scope(
    seen: Map<(Seq<char>, Seq<u8>), (HashAlg, Seq<u8>)>,
    scope: Seq<char>,
    nullifier: Seq<u8>,
    first: (HashAlg, Seq<u8>),
    second: (HashAlg, Seq<u8>),
)
    requires
        first != second,
    ensures
        reused(seen.insert((scope, nullifier), first), scope, nullifier, second),
        !reused(seen.insert((scope, nullifier), first), scope, nullifier, first),
{
}

/// A nullifier is per scope: recording it in one scope has no bearing on
/// whether it may be presented in another.
pub proof fn law_scopes_unlinkable(
    seen: Map<(Seq<char>, Seq<u8>), (HashAlg, Seq<u8>)>,
    scope: Seq<char>,
    other: Seq<char>,
    nullifier: Seq<u8>,
    first: (HashAlg, Seq<u8>),
    second: (HashAlg, Seq<u8>),
)
    requires
        scope != other,
    ensures
        reused(seen.insert((scope, nullifier), first), other, nullifier, second) == reused(
            seen,
            other,
            nullifier,
            second,
        ),
{
}

/// A scheme that performs no cryptography.
///
/// Its `verify` accepts any non-empty proof and returns the proof itself
/// as the nullifier. It exists so that the rules above have something to
/// run against; its identifiers begin with `demo-` so that a deployment
/// cannot reach for one by accident.
pub struct Demo {
    id: &'static str,
    anonymity: Anonymity,
}

impl Demo {
    /// The scheme's identifier.
    pub closed spec fn spec_id(&self) -> Seq<char> {
        self.id@
    }

    /// What the scheme claims.
    pub closed spec fn spec_anonymity(&self) -> Anonymity {
        self.anonymity
    }
}

impl Scheme for Demo {
    open spec fn obeys_scheme_spec(&self) -> bool {
        true
    }

    open spec fn scheme_id(&self) -> Seq<char> {
        self.spec_id()
    }

    /// A non-empty proof is accepted, and is its own nullifier.
    open spec fn answer(&self, proof: Seq<u8>, issuer_set: (HashAlg, Seq<u8>), scope: Seq<char>) -> Result<
        Seq<u8>,
        SchemeFault,
    > {
        if proof.len() == 0 {
            Err(SchemeFault::BadProof { issuer_set: "a demonstration scheme requires a non-empty proof"@ })
        } else {
            Ok(proof)
        }
    }

    fn id(&self) -> (r: &str) {
        self.id
    }

    fn anonymity(&self) -> (r: Anonymity)
        ensures
            r == self.spec_anonymity(),
    {
        self.anonymity
    }

    fn verify(&self, proof: &[u8], issuer_set: &Cid, scope: &str) -> (r: Result<Nullifier, SchemeError>) {
        if proof.len() == 0 {
            return Err(SchemeError::BadProof {
                issuer_set: copy_text("a demonstration scheme requires a non-empty proof"),
            });
        }
        Ok(Nullifier(copy_bytes(proof)))
    }
}

/// What the carried demonstration scheme named `id` claims, if one is.
pub open spec fn demo_anonymity(id: Seq<char>) -> Option<Anonymity> {
    if id == "demo-unlinkable"@ {
        Some(Anonymity { unlinkable_across_scopes: true, issuer_can_link: false, revocation_leaks_linkage: false })
    } else if id == "demo-issuer-linkable"@ {
        Some(Anonymity { unlinkable_across_scopes: true, issuer_can_link: true, revocation_leaks_linkage: true })
    } else {
        None
    }
}

/// The demonstration scheme named `id`: `demo-unlinkable`, or
/// `demo-issuer-linkable`, whose anonymity claims differ so that they are
/// displayed rather than collapsed into "verified".
pub fn demo(id: &str) -> (r: Option<Demo>)
    ensures
        match demo_anonymity(id@) {
            Some(a) => r matches Some(d) && d.spec_id() == id@ && d.spec_anonymity() == a,
            None => r is None,
        },
{
    if text_eq(id, "demo-unlinkable") {
        Some(Demo {
            id: "demo-unlinkable",
            anonymity: Anonymity {
                unlinkable_across_scopes: true,
                issuer_can_link: false,
                revocation_leaks_linkage: false,
            },
        })
    } else if text_eq(id, "demo-issuer-linkable") {
        Some(Demo {
            id: "demo-issuer-linkable",
            anonymity: Anonymity {
                unlinkable_across_scopes: true,
                issuer_can_link: true,
                revocation_leaks_linkage: true,
            },
        })
    } else {
        None
    }
}

} // verus!
