//! Evaluation vectors.
//!
//! A vector is one canonical CBOR map holding a policy object, a trust
//! graph stated as edges, a claim class and the evidence gathered for the
//! claim. Evaluating it needs no graph, no clock and no network: the same
//! bytes give the same standing on every machine.

use crate::cbor::{accepts, bytes_of, decode, encodes, get_spec, model, text_of, uint_of, Model, Value,
    DEFAULT_MAX_DEPTH, MAX_OBJECT_BYTES};
use crate::eval::fixed::{clamp, Fixed6, SCALE};
use crate::eval::gather::{key_set, set_keys};
use crate::eval::policy::{policy_reading, Policy, PolicyError, PolicyView};
use crate::eval::propagate::{check_propagatable, propagatable, propagate, propagation, TrustEdge};
use crate::eval::standing::{
    check_evaluable, delta_spec, evaluable, evaluate, outcome_spec, reproducibility_from_id, weight_at, weight_sum,
    Evidence, Reproducibility, Reproductions, Standing,
};
use crate::eval::wmap::table_view;
use crate::graph::graph::ascending_keys;
use crate::graph::table::Table;
use crate::graph::view::{class_from_id, Class};
use crate::object::{error_reads, read_object, ObjectReading, ObjectView};
use crate::text::copy_text;
use crate::{CanonError, Object, ObjectError};
use vstd::prelude::*;

verus! {

/// Why a vector could not be read.
#[derive(Debug)]
pub enum VectorError {
    /// The bytes are not canonical CBOR.
    Canonical(CanonError),
    /// There is no `policy` byte string.
    MissingPolicy,
    /// The policy bytes are not an object.
    PolicyObject(ObjectError),
    /// The policy object is not a valid policy.
    Policy(PolicyError),
    /// An edge lacks the named endpoint.
    MissingEdgeField {
        /// `from` or `to`.
        field: &'static str,
    },
    /// There is no `class` text.
    MissingClass,
    /// The class is not one the protocol defines.
    UnknownClass(String),
    /// The vector reads, but its weights or evidence overflow the
    /// evaluation's arithmetic.
    Overflow,
}

/// A vector, read.
#[derive(Debug)]
pub struct Vector {
    /// The viewpoint.
    pub policy: Policy,
    /// The trust graph, stated directly.
    pub edges: Vec<TrustEdge>,
    /// The class of the claim evaluated.
    pub class: Class,
    /// The evidence gathered for the claim.
    pub evidence: Evidence,
}

/// An edge as plain values: source, target, scaled weight, age in days.
pub open spec fn edge_view(e: TrustEdge) -> (Seq<char>, Seq<char>, int, u64) {
    (e.from@, e.to@, e.weight@, e.age_days)
}

/// The plain values of a list of edges.
pub open spec fn edge_views(es: Seq<TrustEdge>) -> Seq<(Seq<char>, Seq<char>, int, u64)> {
    es.map_values(|e: TrustEdge| edge_view(e))
}

/// How one item of `edges` reads: both endpoints are required texts; the
/// weight is a whole number, one when absent; the age is zero when absent.
/// A missing endpoint is named, `from` first.
pub open spec fn edge_reading(item: Value) -> Result<(Seq<char>, Seq<char>, int, u64), Seq<char>> {
    match text_of(get_spec(item, "from"@)) {
        None => Err("from"@),
        Some(f) => match text_of(get_spec(item, "to"@)) {
            None => Err("to"@),
            Some(t) => Ok(
                (
                    f,
                    t,
                    match uint_of(get_spec(item, "weight"@)) {
                        Some(n) => n * SCALE,
                        None => SCALE as int,
                    },
                    match uint_of(get_spec(item, "age_days"@)) {
                        Some(n) => n,
                        None => 0,
                    },
                ),
            ),
        },
    }
}

/// How a list of edge items reads: the first failure, or every edge.
pub open spec fn edges_reading(items: Seq<Value>) -> Result<Seq<(Seq<char>, Seq<char>, int, u64)>, Seq<char>>
    decreases items.len(),
{
    if items.len() == 0 {
        Ok(Seq::empty())
    } else {
        match edges_reading(items.drop_last()) {
            Err(f) => Err(f),
            Ok(prev) => match edge_reading(items.last()) {
                Err(f) => Err(f),
                Ok(e) => Ok(prev.push(e)),
            },
        }
    }
}

/// The edges a vector states; a vector without an `edges` array states
/// none.
pub open spec fn vector_edges(v: Value) -> Result<Seq<(Seq<char>, Seq<char>, int, u64)>, Seq<char>> {
    match get_spec(v, "edges"@) {
        Some(Value::Array(items)) => edges_reading(items@),
        _ => Ok(Seq::empty()),
    }
}

/// Read one edge.
fn read_edge(item: &Value) -> (r: Result<TrustEdge, VectorError>)
    ensures
        match edge_reading(*item) {
            Ok(e) => r matches Ok(x) && edge_view(x) == e,
            Err(f) => r matches Err(VectorError::MissingEdgeField { field }) && field@ == f,
        },
{
    let from = match item.get("from") {
        Some(x) => match x.as_text() {
            Some(t) => t,
            None => return Err(VectorError::MissingEdgeField { field: "from" }),
        },
        None => return Err(VectorError::MissingEdgeField { field: "from" }),
    };
    let to = match item.get("to") {
        Some(x) => match x.as_text() {
            Some(t) => t,
            None => return Err(VectorError::MissingEdgeField { field: "to" }),
        },
        None => return Err(VectorError::MissingEdgeField { field: "to" }),
    };
    let count: u64 = match item.get("weight") {
        Some(x) => match x.as_uint() {
            Some(n) => n,
            None => 1,
        },
        None => 1,
    };
    let age_days: u64 = match item.get("age_days") {
        Some(x) => match x.as_uint() {
            Some(n) => n,
            None => 0,
        },
        None => 0,
    };
    assert(0 <= count * 1_000_000 <= u64::MAX * 1_000_000) by (nonlinear_arith)
        requires
            0 <= count <= u64::MAX,
    ;
    let weight = Fixed6::from_scaled((count as i128) * SCALE);
    Ok(TrustEdge { from: copy_text(from), to: copy_text(to), weight, age_days })
}

/// Read the trust edges a vector states, failing on the first edge that
/// lacks an endpoint.
pub fn read_edges(value: &Value) -> (r: Result<Vec<TrustEdge>, VectorError>)
    ensures
        match vector_edges(*value) {
            Ok(es) => r matches Ok(x) && edge_views(x@) == es,
            Err(f) => r matches Err(VectorError::MissingEdgeField { field }) && field@ == f,
        },
{
    let items = match value.get("edges") {
        Some(Value::Array(items)) => items,
        _ => {
            assert(edge_views(Seq::<TrustEdge>::empty()) =~= Seq::empty());
            return Ok(Vec::new());
        },
    };
    let ghost all = items@;
    let mut out: Vec<TrustEdge> = Vec::new();
    let mut i: usize = 0;
    assert(all.take(0) =~= Seq::<Value>::empty());
    assert(edge_views(out@) =~= Seq::empty());
    assert(vector_edges(*value) == edges_reading(all));
    while i < items.len()
        invariant
            i <= items.len(),
            all == items@,
            vector_edges(*value) == edges_reading(all),
            edges_reading(all.take(i as int)) == Ok::<Seq<(Seq<char>, Seq<char>, int, u64)>, Seq<char>>(
                edge_views(out@),
            ),
        decreases items.len() - i,
    {
        assert(all.take(i + 1).drop_last() =~= all.take(i as int));
        assert(all.take(i + 1).last() == all[i as int]);
        let ghost before = out@;
        match read_edge(&items[i]) {
            Ok(e) => {
                out.push(e);
                assert(out@.drop_last() == before);
                assert(edge_views(out@) =~= edge_views(before).push(edge_view(e)));
            },
            Err(e) => {
                proof {
                    lemma_edges_reading_fails(all, i as int);
                }
                return Err(e);
            },
        }
        i = i + 1;
    }
    assert(all.take(items.len() as int) =~= all);
    Ok(out)
}

/// A failure at one item is the failure of every longer prefix.
proof fn lemma_edges_reading_fails(items: Seq<Value>, i: int)
    requires
        0 <= i < items.len(),
        edges_reading(items.take(i)) is Ok,
        edge_reading(items[i]) is Err,
    ensures
        edges_reading(items) == Err::<Seq<(Seq<char>, Seq<char>, int, u64)>, Seq<char>>(
            edge_reading(items[i])->Err_0,
        ),
    decreases items.len() - i,
{
    if i + 1 == items.len() {
        assert(items.drop_last() =~= items.take(i));
    } else {
        assert(items.drop_last().take(i) =~= items.take(i));
        assert(items.drop_last()[i] == items[i]);
        lemma_edges_reading_fails(items.drop_last(), i);
    }
}

/// The texts among the items of an array field, as a set; none when the
/// field is absent or not an array.
pub open spec fn texts_at(v: Value, field: Seq<char>) -> Set<Seq<char>> {
    match get_spec(v, field) {
        Some(Value::Array(items)) => Set::new(
            |s: Seq<char>| exists|i: int| 0 <= i < items@.len() && text_of(Some(#[trigger] items@[i])) == Some(s),
        ),
        _ => Set::empty(),
    }
}

/// A reproduction count: a whole number that fits `u32`, zero otherwise.
pub open spec fn count_at(v: Value, field: Seq<char>) -> u32 {
    match get_spec(v, "reproductions"@) {
        Some(r) => match uint_of(get_spec(r, field)) {
            Some(n) => if n <= u32::MAX {
                n as u32
            } else {
                0
            },
            None => 0,
        },
        None => 0,
    }
}

/// Whether a field is the boolean `true`.
pub open spec fn flag_at(v: Value, field: Seq<char>) -> bool {
    get_spec(v, field) == Some(Value::Bool(true))
}

/// The reproducibility a vector names; `open` when it names none the
/// protocol defines.
pub open spec fn reproducibility_at(v: Value) -> Reproducibility {
    match text_of(get_spec(v, "reproducibility"@)) {
        Some(t) => match reproducibility_from_id(t) {
            Some(x) => x,
            None => Reproducibility::Open,
        },
        None => Reproducibility::Open,
    }
}

/// Whether a list of keys is the sorted, duplicate-free list of the texts
/// in an array field.
pub open spec fn keys_at(keys: Seq<String>, v: Value, field: Seq<char>) -> bool {
    ascending_keys(keys) && key_set(keys) == texts_at(v, field)
}

/// Whether `e` is the evidence a vector states. Judgements are not
/// inputs, so a vector states no assessment.
pub open spec fn evidence_read(v: Value, e: Evidence) -> bool {
    &&& keys_at(e.affirm@, v, "affirm"@)
    &&& keys_at(e.deny@, v, "deny"@)
    &&& keys_at(e.abstain@, v, "abstain"@)
    &&& keys_at(e.argued_disputes@, v, "argued_disputes"@)
    &&& keys_at(e.usage@, v, "usage"@)
    &&& e.proof_checked == flag_at(v, "proof_checked"@)
    &&& e.retracted == flag_at(v, "retracted"@)
    &&& e.reproducibility == reproducibility_at(v)
    &&& e.reproductions == Reproductions {
        consistent: count_at(v, "consistent"@),
        inconsistent: count_at(v, "inconsistent"@),
        inconclusive: count_at(v, "inconclusive"@),
        independent_consistent: count_at(v, "independent_consistent"@),
        independent_inconsistent: count_at(v, "independent_inconsistent"@),
    }
    &&& e.assessments@.len() == 0
}

/// The texts in an array field, sorted and deduplicated.
fn texts_in(value: &Value, field: &str) -> (r: Vec<String>)
    ensures
        keys_at(r@, *value, field@),
{
    let items = match value.get(field) {
        Some(Value::Array(items)) => items,
        _ => {
            let t: Table<bool> = Table::new();
            let r = set_keys(&t);
            assert(key_set(r@) =~= texts_at(*value, field@));
            return r;
        },
    };
    let ghost all = items@;
    let mut set: Table<bool> = Table::new();
    let mut i: usize = 0;
    assert(set.map().dom() =~= Set::<Seq<char>>::empty());
    while i < items.len()
        invariant
            i <= items.len(),
            all == items@,
            forall|s: Seq<char>|
                set.map().dom().contains(s) <==> exists|j: int|
                    0 <= j < i && text_of(Some(#[trigger] all[j])) == Some(s),
        decreases items.len() - i,
    {
        match items[i].as_text() {
            Some(s) => {
                set.put(copy_text(s), true);
            },
            None => {},
        }
        proof {
            assert forall|s: Seq<char>|
                set.map().dom().contains(s) implies exists|j: int|
                    0 <= j < i + 1 && text_of(Some(#[trigger] all[j])) == Some(s) by {
                if text_of(Some(all[i as int])) == Some(s) {
                } else {
                    let j = choose|j: int| 0 <= j < i && text_of(Some(#[trigger] all[j])) == Some(s);
                }
            }
        }
        i = i + 1;
    }
    let r = set_keys(&set);
    assert(key_set(r@) =~= texts_at(*value, field@));
    r
}

/// A reproduction count of a vector.
fn count_in(value: &Value, field: &str) -> (r: u32)
    ensures
        r == count_at(*value, field@),
{
    match value.get("reproductions") {
        Some(rep) => match rep.get(field) {
            Some(x) => match x.as_uint() {
                Some(n) => if n <= 4_294_967_295 {
                    n as u32
                } else {
                    0
                },
                None => 0,
            },
            None => 0,
        },
        None => 0,
    }
}

/// Whether a field of a vector is the boolean `true`.
fn flag_in(value: &Value, field: &str) -> (r: bool)
    ensures
        r == flag_at(*value, field@),
{
    match value.get(field) {
        Some(Value::Bool(b)) => *b,
        _ => false,
    }
}

/// Read the evidence a vector states: key sets sorted and deduplicated,
/// counts that do not fit `u32` as zero, an unknown reproducibility as
/// `open`, and no assessments.
pub fn read_evidence(value: &Value) -> (r: Evidence)
    ensures
        evidence_read(*value, r),
{
    let reproducibility = match value.get("reproducibility") {
        Some(x) => match x.as_text() {
            Some(t) => match Reproducibility::from_id(t) {
                Some(p) => p,
                None => Reproducibility::Open,
            },
            None => Reproducibility::Open,
        },
        None => Reproducibility::Open,
    };
    Evidence {
        affirm: texts_in(value, "affirm"),
        deny: texts_in(value, "deny"),
        abstain: texts_in(value, "abstain"),
        argued_disputes: texts_in(value, "argued_disputes"),
        proof_checked: flag_in(value, "proof_checked"),
        reproductions: Reproductions {
            consistent: count_in(value, "consistent"),
            inconsistent: count_in(value, "inconsistent"),
            inconclusive: count_in(value, "inconclusive"),
            independent_consistent: count_in(value, "independent_consistent"),
            independent_inconsistent: count_in(value, "independent_inconsistent"),
        },
        reproducibility,
        retracted: flag_in(value, "retracted"),
        usage: texts_in(value, "usage"),
        assessments: Vec::new(),
    }
}

/// Whether bytes parse into an object that reads as `o`.
#[verifier::opaque]
pub open spec fn object_from(b: Seq<u8>, o: ObjectView) -> bool {
    exists|m: Model|
        #[trigger] accepts(b, m, MAX_OBJECT_BYTES as int, DEFAULT_MAX_DEPTH as int) && read_object(m, b)
            == ObjectReading::Read(o)
}

/// Whether parsing bytes as an object is refused with `e`: as
/// non-canonical when they encode nothing, or as the reading of what they
/// decode to prescribes.
#[verifier::opaque]
pub open spec fn object_refused(b: Seq<u8>, e: ObjectError) -> bool {
    ||| (e is Canonical && forall|m: Model| !#[trigger] encodes(b, m, MAX_OBJECT_BYTES as int, DEFAULT_MAX_DEPTH as int))
    ||| exists|m: Model|
        #[trigger] accepts(b, m, MAX_OBJECT_BYTES as int, DEFAULT_MAX_DEPTH as int) && error_reads(
            e,
            read_object(m, b),
        )
}

/// Whether `r` is what the fields after the policy give, `p` being the
/// policy read: the edges, then the class, then the evidence.
pub open spec fn vector_rest(v: Value, p: PolicyView, r: Result<Vector, VectorError>) -> bool {
    match vector_edges(v) {
        Err(f) => r matches Err(VectorError::MissingEdgeField { field }) && field@ == f,
        Ok(es) => match text_of(get_spec(v, "class"@)) {
            None => r matches Err(VectorError::MissingClass),
            Some(id) => match class_from_id(id) {
                None => r matches Err(VectorError::UnknownClass(t)) && t@ == id,
                Some(c) => r matches Ok(x) && x.policy@ == p && edge_views(x.edges@) == es && x.class == c
                    && evidence_read(v, x.evidence),
            },
        },
    }
}

/// The policy part of a vector reading.
pub open spec fn policy_part(r: Result<Vector, VectorError>) -> Result<Policy, VectorError> {
    match r {
        Ok(x) => Ok(x.policy),
        Err(e) => Err(e),
    }
}

/// Whether `r` is what a decoded vector `v` reads as: its `policy` bytes
/// are required and must hold a valid policy object, as
/// [`policy_from`] states; the rest follows [`vector_rest`].
pub open spec fn vector_from(v: Value, r: Result<Vector, VectorError>) -> bool {
    match r {
        Err(VectorError::Canonical(_)) => false,
        Err(VectorError::MissingPolicy) => policy_from(v, policy_part(r)),
        Err(VectorError::PolicyObject(_)) => policy_from(v, policy_part(r)),
        Err(VectorError::Policy(_)) => policy_from(v, policy_part(r)),
        _ => exists|p: Policy| #[trigger] policy_from(v, Ok(p)) && vector_rest(v, p@, r),
    }
}

/// Whether `r` is what the bytes `b` read as: a refusal as non-canonical
/// only where they encode nothing, and otherwise the reading of the value
/// they decode to.
pub open spec fn vector_read(b: Seq<u8>, r: Result<Vector, VectorError>) -> bool {
    &&& forall|m: Model|
        #[trigger] encodes(b, m, MAX_OBJECT_BYTES as int, DEFAULT_MAX_DEPTH as int) ==> !(r matches Err(
            VectorError::Canonical(_),
        ))
    &&& !(r matches Err(VectorError::Canonical(_))) ==> exists|v: Value|
        #[trigger] accepts(b, model(v), MAX_OBJECT_BYTES as int, DEFAULT_MAX_DEPTH as int) && vector_from(v, r)
}

/// What a policy object reads as.
#[verifier::opaque]
pub open spec fn policy_of(o: ObjectView) -> Result<PolicyView, crate::eval::policy::PolicyFault> {
    policy_reading(o.body)
}

/// Whether `r` is what policy bytes give: the policy the object they
/// parse into reads as, or why there is none.
pub open spec fn policy_bytes_give(pb: Seq<u8>, r: Result<Policy, VectorError>) -> bool {
    match r {
        Ok(p) => exists|o: ObjectView|
            #[trigger] object_from(pb, o) && policy_of(o) == Ok::<_, crate::eval::policy::PolicyFault>(p@),
        Err(VectorError::PolicyObject(e)) => object_refused(pb, e),
        Err(VectorError::Policy(e)) => exists|o: ObjectView|
            #[trigger] object_from(pb, o) && policy_of(o) == Err::<PolicyView, _>(e@),
        _ => false,
    }
}

/// Whether `r` is what the `policy` field of a decoded vector gives.
pub open spec fn policy_from(v: Value, r: Result<Policy, VectorError>) -> bool {
    let f = bytes_of(get_spec(v, "policy"@));
    &&& (f is None ==> (r matches Err(VectorError::MissingPolicy)))
    &&& (f is Some ==> policy_bytes_give(f->0, r))
}

/// Parse bytes as an object, stating the outcome as [`object_from`] and
/// [`object_refused`] do.
pub(crate) fn parse_object(b: &[u8]) -> (r: Result<crate::object::Unverified<Object>, ObjectError>)
    ensures
        match r {
            Ok(u) => object_from(b@, u.inner()@),
            Err(e) => object_refused(b@, e),
        },
{
    let r = Object::parse(b);
    proof {
        reveal(object_from);
        reveal(object_refused);
        if !(r matches Err(ObjectError::Canonical(_))) {
            let m = choose|m: Model| #[trigger] accepts(b@, m, MAX_OBJECT_BYTES as int, DEFAULT_MAX_DEPTH as int);
            assert(crate::object::parse_reads(r, read_object(m, b@)));
        }
    }
    r
}

/// A policy read from an object the `policy` bytes parse into is the
/// policy those bytes give.
proof fn lemma_policy_read(v: Value, pb: Seq<u8>, o: ObjectView, p: Policy)
    requires
        bytes_of(get_spec(v, "policy"@)) == Some(pb),
        object_from(pb, o),
        policy_of(o) == Ok::<_, crate::eval::policy::PolicyFault>(p@),
    ensures
        policy_from(v, Ok(p)),
{
    let r: Result<Policy, VectorError> = Ok(p);
    assert(policy_bytes_give(pb, r));
    assert(policy_from(v, r));
}

/// Read the policy object a vector holds.
fn read_policy(value: &Value) -> (r: Result<Policy, VectorError>)
    ensures
        policy_from(*value, r),
{
    let policy_bytes = match value.get("policy") {
        Some(x) => match x.as_bytes() {
            Some(b) => b,
            None => return Err(VectorError::MissingPolicy),
        },
        None => return Err(VectorError::MissingPolicy),
    };
    let parsed = match parse_object(policy_bytes) {
        Ok(u) => u,
        Err(e) => return Err(VectorError::PolicyObject(e)),
    };
    let obj = parsed.peek();
    let ghost o = obj@;
    assert(object_from(policy_bytes@, o));
    assert(bytes_of(get_spec(*value, "policy"@)) == Some(policy_bytes@));
    let rp = Policy::from_object(obj);
    assert(crate::domain::generation::result_view(rp) == policy_of(o)) by {
        reveal(policy_of);
    }
    match rp {
        Ok(p) => {
            assert(policy_of(o) == Ok::<_, crate::eval::policy::PolicyFault>(p@));
            proof {
                lemma_policy_read(*value, policy_bytes@, o, p);
            }
            Ok(p)
        },
        Err(e) => Err(VectorError::Policy(e)),
    }
}

/// Read a vector: a canonical CBOR map holding a policy object's bytes,
/// trust edges, a claim class and the evidence for the claim.
pub fn read_vector(bytes: &[u8]) -> (r: Result<Vector, VectorError>)
    ensures
        vector_read(bytes@, r),
        match crate::cbor::scan::scan(bytes@, MAX_OBJECT_BYTES as int, DEFAULT_MAX_DEPTH as int) {
            Err(f) => r matches Err(VectorError::Canonical(e)) && e@ == f,
            Ok(_) => !(r matches Err(VectorError::Canonical(_))),
        },
        (bytes.len() > MAX_OBJECT_BYTES) <==> r == Err::<Vector, VectorError>(
            VectorError::Canonical(CanonError::TooLarge { size: bytes.len(), limit: MAX_OBJECT_BYTES }),
        ),
{
    let value = match decode(bytes) {
        Ok(v) => v,
        Err(e) => return Err(VectorError::Canonical(e)),
    };
    let policy = match read_policy(&value) {
        Ok(p) => p,
        Err(e) => return Err(e),
    };
    let edges = match read_edges(&value) {
        Ok(es) => es,
        Err(e) => return Err(e),
    };
    let class_id = match value.get("class") {
        Some(x) => match x.as_text() {
            Some(t) => t,
            None => return Err(VectorError::MissingClass),
        },
        None => return Err(VectorError::MissingClass),
    };
    let class = match Class::from_id(class_id) {
        Some(c) => c,
        None => return Err(VectorError::UnknownClass(copy_text(class_id))),
    };
    let evidence = read_evidence(&value);
    Ok(Vector { policy, edges, class, evidence })
}

/// The standing [`evaluate`] returns for a policy, a class, evidence and
/// weights: weights summed once per key, the active weight their
/// saturating total, the divergence factor and outcome as their
/// specifications say, and the evidence's counts carried through.
pub open spec fn standing_under(
    r: Standing,
    policy: Policy,
    class: Class,
    evidence: Evidence,
    weights: Seq<(String, Fixed6)>,
) -> bool {
    &&& r.affirm_weight@ == weight_sum(evidence.affirm@, weights)
    &&& r.deny_weight@ == weight_sum(evidence.deny@, weights)
    &&& r.abstain_weight@ == weight_sum(evidence.abstain@, weights)
    &&& r.active_weight@ == clamp(clamp(r.affirm_weight@ + r.deny_weight@) + r.abstain_weight@)
    &&& r.delta@ == delta_spec(policy.delta_max@, r.affirm_weight@, weight_sum(evidence.argued_disputes@, weights))
    &&& r.result == outcome_spec(
        policy.tau@,
        policy.replication_floor,
        class,
        evidence,
        r.affirm_weight@,
        r.deny_weight@,
        r.delta@,
    )
    &&& r.reproductions == evidence.reproductions
    &&& r.reproducibility_class == evidence.reproducibility
    &&& r.retracted == evidence.retracted
    &&& r.class == class
}

/// Whether a vector can be evaluated without leaving `i128`: its edges
/// propagate, and the weights they propagate to evaluate.
pub open spec fn computable(v: Vector) -> bool {
    &&& propagatable(v.policy, v.edges@)
    &&& forall|w: Seq<(String, Fixed6)>|
        #[trigger] table_view(w) == propagation(v.policy, v.edges@) ==> evaluable(
            v.policy,
            v.class,
            v.evidence,
            w,
        )
}

/// Two weight lists that read as one table give each key one weight.
proof fn lemma_weight_at_views(w1: Seq<(String, Fixed6)>, w2: Seq<(String, Fixed6)>, k: Seq<char>)
    requires
        table_view(w1) == table_view(w2),
    ensures
        weight_at(w1, k) == weight_at(w2, k),
    decreases w1.len(),
{
    assert(table_view(w1).len() == w1.len() && table_view(w2).len() == w2.len());
    if w1.len() > 0 {
        assert(table_view(w1.drop_last()) =~= table_view(w1).drop_last());
        assert(table_view(w2.drop_last()) =~= table_view(w2).drop_last());
        lemma_weight_at_views(w1.drop_last(), w2.drop_last(), k);
        assert(table_view(w1)[w1.len() - 1] == table_view(w2)[w2.len() - 1]);
    }
}

/// Two weight lists that read as one table give a set of keys one weight.
proof fn lemma_weight_sum_views(keys: Seq<String>, w1: Seq<(String, Fixed6)>, w2: Seq<(String, Fixed6)>)
    requires
        table_view(w1) == table_view(w2),
    ensures
        weight_sum(keys, w1) == weight_sum(keys, w2),
    decreases keys.len(),
{
    if keys.len() > 0 {
        lemma_weight_sum_views(keys.drop_last(), w1, w2);
        lemma_weight_at_views(w1, w2, keys.last()@);
    }
}

/// Whether a vector can be evaluated; see [`computable`].
pub fn check_computable(v: &Vector) -> (r: bool)
    ensures
        r == computable(*v),
{
    if !check_propagatable(&v.policy, v.edges.as_slice()) {
        return false;
    }
    let w = propagate(&v.policy, v.edges.as_slice());
    let ok = check_evaluable(&v.policy, v.class, &v.evidence, &w);
    proof {
        assert forall|w2: Seq<(String, Fixed6)>|
            #[trigger] table_view(w2) == propagation(v.policy, v.edges@) implies evaluable(
                v.policy,
                v.class,
                v.evidence,
                w2,
            ) == ok by {
            lemma_weight_sum_views(v.evidence.affirm@, w2, w@);
            lemma_weight_sum_views(v.evidence.deny@, w2, w@);
            lemma_weight_sum_views(v.evidence.argued_disputes@, w2, w@);
        }
    }
    ok
}

/// Evaluate a vector: propagate its edges under its policy, then evaluate
/// its evidence under the weights that gives.
pub fn evaluate_vector(v: &Vector) -> (r: Standing)
    requires
        computable(*v),
    ensures
        exists|w: Seq<(String, Fixed6)>|
            #[trigger] table_view(w) == propagation(v.policy, v.edges@) && standing_under(
                r,
                v.policy,
                v.class,
                v.evidence,
                w,
            ),
{
    let w = propagate(&v.policy, v.edges.as_slice());
    assert(table_view(w@) == propagation(v.policy, v.edges@));
    let r = evaluate(&v.policy, v.class, &v.evidence, &w);
    assert(standing_under(r, v.policy, v.class, v.evidence, w@));
    r
}

/// Read a vector and evaluate it, refusing with [`VectorError::Overflow`]
/// a vector whose arithmetic does not stay within `i128`.
pub fn run_vector(bytes: &[u8]) -> (r: Result<Standing, VectorError>)
    ensures
        match r {
            Err(VectorError::Overflow) => exists|x: Vector| #[trigger] vector_read(bytes@, Ok(x)) && !computable(x),
            Err(e) => vector_read(bytes@, Err(e)),
            Ok(s) => exists|x: Vector|
                #[trigger] vector_read(bytes@, Ok(x)) && computable(x) && exists|w: Seq<(String, Fixed6)>|
                    #[trigger] table_view(w) == propagation(x.policy, x.edges@) && standing_under(
                        s,
                        x.policy,
                        x.class,
                        x.evidence,
                        w,
                    ),
        },
{
    let v = match read_vector(bytes) {
        Ok(v) => v,
        Err(e) => {
            assert(!(e is Overflow));
            return Err(e);
        },
    };
    assert(vector_read(bytes@, Ok(v)));
    if !check_computable(&v) {
        return Err(VectorError::Overflow);
    }
    Ok(evaluate_vector(&v))
}

} // verus!
