//! Generation records and their validity rules.
//!
//! A generation states its membership change explicitly: a removal must be
//! declared, with a justification, as a condition of the generation
//! parsing at all. That is the difference between auditable and audited.

use crate::cbor::{entry_models, mlookup, model, models, Model, Value};
use crate::fields::{
    cid_entry, cid_from_text, cid_in, cid_string, cid_to_string, cids_view, cview, entry, items_in,
    lemma_models_index, member, mget, mitems, mref, mtext, muint, opt_cid, sview, text_in, uint_in,
};
use crate::text::{copy_text, text_eq};
use crate::{Cid, HashAlg, Object};
use vstd::prelude::*;

verus! {

/// Why an object accounts for a member leaving a generation.
#[derive(Debug, Clone, Copy, PartialEq, Eq, Structural)]
#[non_exhaustive]
pub enum RemovalCause {
    /// The member moved to a domain produced by splitting this one.
    Split,
    /// A node published a tombstone for it.
    Tombstone,
    /// The domain itself was superseded.
    SupersededDomain,
}

/// The identifier of a removal cause.
pub open spec fn cause_id(c: RemovalCause) -> Seq<char> {
    match c {
        RemovalCause::Split => "split"@,
        RemovalCause::Tombstone => "tombstone"@,
        RemovalCause::SupersededDomain => "superseded-domain"@,
    }
}

/// The cause an identifier names, if any.
pub open spec fn cause_from_id(id: Seq<char>) -> Option<RemovalCause> {
    if id == "split"@ {
        Some(RemovalCause::Split)
    } else if id == "tombstone"@ {
        Some(RemovalCause::Tombstone)
    } else if id == "superseded-domain"@ {
        Some(RemovalCause::SupersededDomain)
    } else {
        None
    }
}

impl RemovalCause {
    /// Resolve the identifier used in a generation record.
    pub fn from_id(id: &str) -> (r: Option<Self>)
        ensures
            r == cause_from_id(id@),
    {
        if text_eq(id, "split") {
            Some(RemovalCause::Split)
        } else if text_eq(id, "tombstone") {
            Some(RemovalCause::Tombstone)
        } else if text_eq(id, "superseded-domain") {
            Some(RemovalCause::SupersededDomain)
        } else {
            None
        }
    }

    /// The identifier used in a generation record.
    pub fn id(self) -> (r: &'static str)
        ensures
            r@ == cause_id(self),
    {
        match self {
            RemovalCause::Split => "split",
            RemovalCause::Tombstone => "tombstone",
            RemovalCause::SupersededDomain => "superseded-domain",
        }
    }
}

/// One declared removal.
#[derive(Debug, Clone, PartialEq, Eq)]
pub struct Removal {
    /// The member that left.
    pub cid: Cid,
    /// Why it left.
    pub cause: RemovalCause,
    /// The object accounting for it.
    pub reference: Cid,
}

/// A removal's identifiers and cause.
pub open spec fn removal_view(r: Removal) -> ((HashAlg, Seq<u8>), RemovalCause, (HashAlg, Seq<u8>)) {
    (r.cid@, r.cause, r.reference@)
}

/// A generation record.
#[derive(Debug, Clone, PartialEq, Eq)]
pub struct Generation {
    /// The domain this generation belongs to.
    pub domain: Cid,
    /// Monotonic index, with no gaps.
    pub index: u64,
    /// The previous generation record, absent only for index 0.
    pub parent: Option<Cid>,
    /// Membership root after this change.
    pub snapshot: Cid,
    /// Members added.
    pub added: Vec<Cid>,
    /// Members removed, each with its justification.
    pub removed: Vec<Removal>,
}

/// What a generation record says.
pub struct GenerationView {
    pub domain: (HashAlg, Seq<u8>),
    pub index: u64,
    pub parent: Option<(HashAlg, Seq<u8>)>,
    pub snapshot: (HashAlg, Seq<u8>),
    pub added: Seq<(HashAlg, Seq<u8>)>,
    pub removed: Seq<((HashAlg, Seq<u8>), RemovalCause, (HashAlg, Seq<u8>))>,
}

impl View for Generation {
    type V = GenerationView;

    open spec fn view(&self) -> GenerationView {
        GenerationView {
            domain: self.domain@,
            index: self.index,
            parent: cview(self.parent),
            snapshot: self.snapshot@,
            added: cids_view(self.added@),
            removed: self.removed@.map_values(|r: Removal| removal_view(r)),
        }
    }
}

/// Why a generation record is malformed.
#[derive(Debug, PartialEq, Eq, Clone)]
#[non_exhaustive]
pub enum GenerationError {
    /// A required field was absent.
    MissingField {
        /// The absent field.
        field: &'static str,
    },
    /// A field had the wrong type or shape.
    BadField {
        /// The offending field.
        field: &'static str,
        /// What is required.
        expected: &'static str,
    },
    /// A removal named no cause the protocol defines.
    UnknownCause {
        /// The member removed.
        cid: String,
        /// The unrecognized cause.
        cause: String,
    },
    /// A removal carried no accounting reference.
    UnaccountedRemoval {
        /// The member removed.
        cid: String,
    },
    /// The record's membership change does not match the roots.
    UndeclaredRemoval {
        /// The generation index.
        index: u64,
        /// How many removals were declared.
        declared: usize,
        /// How many the membership change implies.
        implied: usize,
    },
    /// The record declares an addition its membership does not contain.
    PhantomAddition {
        /// The generation index.
        index: u64,
        /// The member declared but absent.
        cid: String,
    },
    /// Indices did not advance by exactly one.
    IndexGap {
        /// The previous index.
        previous: u64,
        /// The index found.
        found: u64,
    },
    /// The record does not name the generation it follows.
    MissingParent {
        /// The generation index.
        index: u64,
    },
}

/// A generation error with its texts as character sequences.
pub enum GenerationFault {
    MissingField(Seq<char>),
    BadField(Seq<char>, Seq<char>),
    UnknownCause(Seq<char>, Seq<char>),
    UnaccountedRemoval(Seq<char>),
    UndeclaredRemoval(u64, usize, usize),
    PhantomAddition(u64, Seq<char>),
    IndexGap(u64, u64),
    MissingParent(u64),
}

impl View for GenerationError {
    type V = GenerationFault;

    open spec fn view(&self) -> GenerationFault {
        match *self {
            GenerationError::MissingField { field } => GenerationFault::MissingField(field@),
            GenerationError::BadField { field, expected } => GenerationFault::BadField(field@, expected@),
            GenerationError::UnknownCause { cid, cause } => GenerationFault::UnknownCause(cid@, cause@),
            GenerationError::UnaccountedRemoval { cid } => GenerationFault::UnaccountedRemoval(cid@),
            GenerationError::UndeclaredRemoval { index, declared, implied } => GenerationFault::UndeclaredRemoval(
                index,
                declared,
                implied,
            ),
            GenerationError::PhantomAddition { index, cid } => GenerationFault::PhantomAddition(index, cid@),
            GenerationError::IndexGap { previous, found } => GenerationFault::IndexGap(previous, found),
            GenerationError::MissingParent { index } => GenerationFault::MissingParent(index),
        }
    }
}

/// The view of a result.
pub open spec fn result_view<T: View, E: View>(r: Result<T, E>) -> Result<T::V, E::V> {
    match r {
        Ok(x) => Ok(x@),
        Err(e) => Err(e@),
    }
}

/// How one item of `removed` reads.
pub open spec fn removal_reading(v: Model) -> Result<
    ((HashAlg, Seq<u8>), RemovalCause, (HashAlg, Seq<u8>)),
    GenerationFault,
> {
    let c = opt_cid(mtext(mget(v, "cid"@)));
    let cause = mtext(mget(v, "cause"@));
    let reference = opt_cid(mtext(mget(v, "ref"@)));
    if c is None {
        Err(GenerationFault::BadField("removed.cid"@, "a CID string"@))
    } else if cause is None {
        Err(GenerationFault::BadField("removed.cause"@, "a text string"@))
    } else if cause_from_id(cause->0) is None {
        Err(GenerationFault::UnknownCause(cid_string(c->0), cause->0))
    } else if reference is None {
        Err(GenerationFault::UnaccountedRemoval(cid_string(c->0)))
    } else {
        Ok((c->0, cause_from_id(cause->0)->0, reference->0))
    }
}

/// How the items of `removed` read: the first failure, or every removal.
pub open spec fn removals_reading(items: Seq<Model>) -> Result<
    Seq<((HashAlg, Seq<u8>), RemovalCause, (HashAlg, Seq<u8>))>,
    GenerationFault,
>
    decreases items.len(),
{
    if items.len() == 0 {
        Ok(Seq::empty())
    } else {
        match removals_reading(items.drop_last()) {
            Err(e) => Err(e),
            Ok(prev) => match removal_reading(items.last()) {
                Err(e) => Err(e),
                Ok(r) => Ok(prev.push(r)),
            },
        }
    }
}

/// How the items of `added` read: every one must be an identifier's text.
pub open spec fn additions_reading(items: Seq<Model>) -> Result<Seq<(HashAlg, Seq<u8>)>, GenerationFault>
    decreases items.len(),
{
    if items.len() == 0 {
        Ok(Seq::empty())
    } else {
        match additions_reading(items.drop_last()) {
            Err(e) => Err(e),
            Ok(prev) => match opt_cid(mtext(Some(items.last()))) {
                None => Err(GenerationFault::BadField("added"@, "an array of CID strings"@)),
                Some(c) => Ok(prev.push(c)),
            },
        }
    }
}

/// How a generation body reads. Fields are checked in the order `added`,
/// `removed`, `domain`, `index`, `snapshot`; an unparsable `parent` reads
/// as absent.
pub open spec fn generation_reading(es: Seq<(Seq<char>, Model)>) -> Result<GenerationView, GenerationFault> {
    let added = match mlookup(es, "added"@) {
        Some(Model::Array(items)) => additions_reading(items),
        Some(_) => Err(GenerationFault::BadField("added"@, "an array"@)),
        None => Ok(Seq::empty()),
    };
    let removed = match mlookup(es, "removed"@) {
        Some(Model::Array(items)) => removals_reading(items),
        Some(_) => Err(GenerationFault::BadField("removed"@, "an array"@)),
        None => Ok(Seq::empty()),
    };
    let domain = opt_cid(mtext(mlookup(es, "domain"@)));
    let index = muint(mlookup(es, "index"@));
    let snapshot = opt_cid(mtext(mlookup(es, "snapshot"@)));
    if added is Err {
        Err(added->Err_0)
    } else if removed is Err {
        Err(removed->Err_0)
    } else if domain is None {
        Err(GenerationFault::BadField("domain"@, "a CID string"@))
    } else if index is None {
        Err(GenerationFault::MissingField("index"@))
    } else if snapshot is None {
        Err(GenerationFault::BadField("snapshot"@, "a CID string"@))
    } else {
        Ok(
            GenerationView {
                domain: domain->0,
                index: index->0,
                parent: opt_cid(mtext(mlookup(es, "parent"@))),
                snapshot: snapshot->0,
                added: added->Ok_0,
                removed: removed->Ok_0,
            },
        )
    }
}

/// Once a prefix of `added` fails, the whole list fails the same way.
proof fn lemma_additions_prefix(s: Seq<Model>, i: int)
    requires
        0 <= i <= s.len(),
        additions_reading(s.take(i)) is Err,
    ensures
        additions_reading(s) == additions_reading(s.take(i)),
    decreases s.len() - i,
{
    if i == s.len() {
        assert(s.take(i) =~= s);
    } else {
        assert(s.take(i + 1).drop_last() =~= s.take(i));
        lemma_additions_prefix(s, i + 1);
    }
}

/// Once a prefix of `removed` fails, the whole list fails the same way.
proof fn lemma_removals_prefix(s: Seq<Model>, i: int)
    requires
        0 <= i <= s.len(),
        removals_reading(s.take(i)) is Err,
    ensures
        removals_reading(s) == removals_reading(s.take(i)),
    decreases s.len() - i,
{
    if i == s.len() {
        assert(s.take(i) =~= s);
    } else {
        assert(s.take(i + 1).drop_last() =~= s.take(i));
        lemma_removals_prefix(s, i + 1);
    }
}

/// Read one removal.
fn parse_removal(value: &Value) -> (r: Result<Removal, GenerationError>)
    ensures
        match removal_reading(model(*value)) {
            Ok(x) => r matches Ok(rm) && removal_view(rm) == x,
            Err(f) => r matches Err(e) && e@ == f,
        },
{
    let cid = match cid_in(text_in(member(value, "cid"))) {
        Some(c) => c,
        None => return Err(GenerationError::BadField { field: "removed.cid", expected: "a CID string" }),
    };
    let cause_id = match text_in(member(value, "cause")) {
        Some(t) => t,
        None => return Err(
            GenerationError::BadField { field: "removed.cause", expected: "a text string" },
        ),
    };
    let cause = match RemovalCause::from_id(cause_id) {
        Some(c) => c,
        None => return Err(
            GenerationError::UnknownCause { cid: cid_to_string(&cid), cause: copy_text(cause_id) },
        ),
    };
    let reference = match cid_in(text_in(member(value, "ref"))) {
        Some(c) => c,
        None => return Err(GenerationError::UnaccountedRemoval { cid: cid_to_string(&cid) }),
    };
    Ok(Removal { cid, cause, reference })
}

impl Generation {
    /// Read a generation record from a verified object.
    ///
    /// Fails when a field is absent or ill-typed, when a removal names an
    /// unknown cause, or when a removal carries no `ref`; see
    /// [`generation_reading`].
    pub fn from_object(object: &Object) -> (r: Result<Self, GenerationError>)
        ensures
            result_view(r) == generation_reading(object@.body),
    {
        let body = object.body();
        let added: Vec<Cid> = match entry(body, "added") {
            Some(Value::Array(items)) => {
                let mut out: Vec<Cid> = Vec::new();
                let mut i: usize = 0;
                proof {
                    crate::cbor::encode::lemma_models_len(items@);
                    assert(models(items@).take(0) =~= Seq::<Model>::empty());
                    assert(cids_view(out@) =~= Seq::empty());
                }
                while i < items.len()
                    invariant
                        i <= items.len(),
                        models(items@).len() == items.len(),
                        mlookup(object@.body, "added"@) == Some(Model::Array(models(items@))),
                        additions_reading(models(items@).take(i as int)) == Ok::<
                            Seq<(HashAlg, Seq<u8>)>,
                            GenerationFault,
                        >(cids_view(out@)),
                    decreases items.len() - i,
                {
                    proof {
                        lemma_models_index(items@, i as int);
                        assert(models(items@).take(i + 1).drop_last() =~= models(items@).take(i as int));
                        assert(models(items@).take(i + 1).last() == model(items@[i as int]));
                    }
                    match cid_in(text_in(Some(&items[i]))) {
                        Some(c) => {
                            let ghost before = out@;
                            out.push(c);
                            proof {
                                assert(cids_view(out@) =~= cids_view(before).push(c@));
                                let t = models(items@).take(i + 1);
                                assert(additions_reading(t) == Ok::<Seq<(HashAlg, Seq<u8>)>, GenerationFault>(
                                    cids_view(before).push(c@),
                                ));
                            }
                        },
                        None => {
                            proof {
                                lemma_additions_prefix(models(items@), i + 1);
                            }
                            return Err(
                                GenerationError::BadField { field: "added", expected: "an array of CID strings" },
                            );
                        },
                    }
                    i = i + 1;
                }
                assert(models(items@).take(items.len() as int) =~= models(items@));
                out
            },
            Some(_) => return Err(GenerationError::BadField { field: "added", expected: "an array" }),
            None => {
                let out: Vec<Cid> = Vec::new();
                assert(cids_view(out@) =~= Seq::empty());
                out
            },
        };
        let removed: Vec<Removal> = match entry(body, "removed") {
            Some(Value::Array(items)) => {
                let mut out: Vec<Removal> = Vec::new();
                let mut i: usize = 0;
                proof {
                    crate::cbor::encode::lemma_models_len(items@);
                    assert(models(items@).take(0) =~= Seq::<Model>::empty());
                    assert(out@.map_values(|r: Removal| removal_view(r)) =~= Seq::empty());
                }
                while i < items.len()
                    invariant
                        i <= items.len(),
                        models(items@).len() == items.len(),
                        mlookup(object@.body, "removed"@) == Some(Model::Array(models(items@))),
                        additions_reading(match mlookup(object@.body, "added"@) {
                            Some(Model::Array(a)) => a,
                            _ => Seq::empty(),
                        }) is Ok || !(mlookup(object@.body, "added"@) matches Some(Model::Array(_))),
                        !(mlookup(object@.body, "added"@) matches Some(Model::Array(_))) ==> mlookup(object@.body, "added"@) is None,
                        removals_reading(models(items@).take(i as int)) == Ok::<
                            Seq<((HashAlg, Seq<u8>), RemovalCause, (HashAlg, Seq<u8>))>,
                            GenerationFault,
                        >(out@.map_values(|r: Removal| removal_view(r))),
                    decreases items.len() - i,
                {
                    proof {
                        lemma_models_index(items@, i as int);
                        assert(models(items@).take(i + 1).drop_last() =~= models(items@).take(i as int));
                        assert(models(items@).take(i + 1).last() == model(items@[i as int]));
                    }
                    match parse_removal(&items[i]) {
                        Ok(rm) => {
                            let ghost before = out@;
                            out.push(rm);
                            proof {
                                assert(out@.map_values(|r: Removal| removal_view(r)) =~= before.map_values(
                                    |r: Removal| removal_view(r),
                                ).push(removal_view(rm)));
                                let t = models(items@).take(i + 1);
                                assert(removals_reading(t) == Ok::<
                                    Seq<((HashAlg, Seq<u8>), RemovalCause, (HashAlg, Seq<u8>))>,
                                    GenerationFault,
                                >(before.map_values(|r: Removal| removal_view(r)).push(removal_view(rm))));
                            }
                        },
                        Err(e) => {
                            proof {
                                lemma_removals_prefix(models(items@), i + 1);
                            }
                            return Err(e);
                        },
                    }
                    i = i + 1;
                }
                assert(models(items@).take(items.len() as int) =~= models(items@));
                out
            },
            Some(_) => return Err(GenerationError::BadField { field: "removed", expected: "an array" }),
            None => {
                let out: Vec<Removal> = Vec::new();
                assert(out@.map_values(|r: Removal| removal_view(r)) =~= Seq::empty());
                out
            },
        };
        let domain = match cid_entry(body, "domain") {
            Some(c) => c,
            None => return Err(GenerationError::BadField { field: "domain", expected: "a CID string" }),
        };
        let index = match uint_in(entry(body, "index")) {
            Some(n) => n,
            None => return Err(GenerationError::MissingField { field: "index" }),
        };
        let parent = cid_entry(body, "parent");
        let snapshot = match cid_entry(body, "snapshot") {
            Some(c) => c,
            None => return Err(GenerationError::BadField { field: "snapshot", expected: "a CID string" }),
        };
        Ok(Generation { domain, index, parent, snapshot, added, removed })
    }

    /// Check that this record follows `previous`: the index advances by
    /// exactly one, and the parent is named.
    pub fn follows(&self, previous: &Self) -> (r: Result<(), GenerationError>)
        ensures
            self.index != previous.index + 1 ==> r == Err::<(), GenerationError>(
                GenerationError::IndexGap { previous: previous.index, found: self.index },
            ),
            self.index == previous.index + 1 && self.parent is None ==> r == Err::<(), GenerationError>(
                GenerationError::MissingParent { index: self.index },
            ),
            self.index == previous.index + 1 && self.parent is Some ==> r is Ok,
    {
        if previous.index == u64::MAX || self.index != previous.index + 1 {
            return Err(GenerationError::IndexGap { previous: previous.index, found: self.index });
        }
        if self.parent.is_none() {
            return Err(GenerationError::MissingParent { index: self.index });
        }
        Ok(())
    }
}

} // verus!
