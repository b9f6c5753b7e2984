//! The trust policy object.
//!
//! A viewpoint is fully specified by a signed, content-addressed policy, so
//! that any evaluation can be reproduced by anyone holding the policy, the
//! snapshot, and the protocol rules.

use crate::cbor::{mlookup, model, models, Model, Value};
use crate::domain::generation::result_view;
use crate::eval::fixed::{Fixed6, SCALE};
use crate::fields::{
    cid_in, entry, lemma_models_index, member, mget, mref, mtext, muint, opt_cid, text_in,
};
use crate::text::text_eq;
use crate::{Cid, HashAlg, Object};
use vstd::prelude::*;

verus! {

/// Upper bound on propagation iterations.
pub const MAX_ITERATIONS: u32 = 200;

/// Why a policy could not be read.
#[derive(Debug, PartialEq, Eq, Clone)]
#[non_exhaustive]
pub enum PolicyError {
    /// A required field was absent.
    MissingField {
        /// The absent field.
        field: &'static str,
    },
    /// A field had the wrong type.
    BadField {
        /// The offending field.
        field: &'static str,
        /// What is required.
        expected: &'static str,
    },
    /// No trust roots were declared.
    NoRoots,
    /// Iterations exceeded the protocol ceiling.
    TooManyIterations {
        /// The value declared.
        found: u32,
    },
}

/// A policy error with its texts as character sequences.
pub enum PolicyFault {
    MissingField(Seq<char>),
    BadField(Seq<char>, Seq<char>),
    NoRoots,
    TooManyIterations(u32),
}

impl View for PolicyError {
    type V = PolicyFault;

    open spec fn view(&self) -> PolicyFault {
        match *self {
            PolicyError::MissingField { field } => PolicyFault::MissingField(field@),
            PolicyError::BadField { field, expected } => PolicyFault::BadField(field@, expected@),
            PolicyError::NoRoots => PolicyFault::NoRoots,
            PolicyError::TooManyIterations { found } => PolicyFault::TooManyIterations(found),
        }
    }
}

/// One trust root and the weight the viewpoint seeds it with.
#[derive(Debug, Clone, PartialEq, Eq)]
pub struct Root {
    /// The key trusted a priori.
    pub key: Cid,
    /// Relative seed weight.
    pub weight: Fixed6,
}

/// A root's key and weight.
pub open spec fn root_view(r: Root) -> ((HashAlg, Seq<u8>), int) {
    (r.key@, r.weight@)
}

/// A fully specified viewpoint.
#[derive(Debug, Clone, PartialEq, Eq)]
pub struct Policy {
    /// Keys trusted a priori, and their seed weights.
    pub roots: Vec<Root>,
    /// Damping, scaled by 10^6.
    pub damping: Fixed6,
    /// Exactly how many iterations to run. Never a convergence criterion.
    pub iterations: u32,
    /// Base systemic threshold.
    pub tau: Fixed6,
    /// Ceiling on the divergence factor.
    pub delta_max: Fixed6,
    /// Minimum independent consistent reproductions for `accepted`.
    pub replication_floor: u32,
    /// Minimum trust-path distance for two reproductions to be independent.
    pub independence_distance: u32,
    /// Half-life for edge decay, in days. `None` disables decay.
    pub decay_half_life_days: Option<u64>,
    /// Whether equivalence classes are computed from trusted edges.
    pub use_equivalence: bool,
}

/// What a policy says.
pub struct PolicyView {
    pub roots: Seq<((HashAlg, Seq<u8>), int)>,
    pub damping: int,
    pub iterations: u32,
    pub tau: int,
    pub delta_max: int,
    pub replication_floor: u32,
    pub independence_distance: u32,
    pub decay_half_life_days: Option<u64>,
    pub use_equivalence: bool,
}

impl View for Policy {
    type V = PolicyView;

    open spec fn view(&self) -> PolicyView {
        PolicyView {
            roots: self.roots@.map_values(|r: Root| root_view(r)),
            damping: self.damping@,
            iterations: self.iterations,
            tau: self.tau@,
            delta_max: self.delta_max@,
            replication_floor: self.replication_floor,
            independence_distance: self.independence_distance,
            decay_half_life_days: self.decay_half_life_days,
            use_equivalence: self.use_equivalence,
        }
    }
}

/// How one item of `roots` reads.
pub open spec fn root_reading(v: Model) -> Result<((HashAlg, Seq<u8>), int), PolicyFault> {
    let key = opt_cid(mtext(mget(v, "key"@)));
    let weight = muint(mget(v, "weight"@));
    if key is None {
        Err(PolicyFault::BadField("roots.key"@, "a CID string"@))
    } else if weight is None {
        Err(PolicyFault::BadField("roots.weight"@, "a non-negative integer"@))
    } else {
        Ok((key->0, weight->0 * SCALE))
    }
}

/// How the items of `roots` read: the first failure, or every root.
pub open spec fn roots_reading(items: Seq<Model>) -> Result<Seq<((HashAlg, Seq<u8>), int)>, PolicyFault>
    decreases items.len(),
{
    if items.len() == 0 {
        Ok(Seq::empty())
    } else {
        match roots_reading(items.drop_last()) {
            Err(e) => Err(e),
            Ok(prev) => match root_reading(items.last()) {
                Err(e) => Err(e),
                Ok(r) => Ok(prev.push(r)),
            },
        }
    }
}

/// How an integer field reads.
pub open spec fn uint_reading(m: Option<Model>, f: Seq<char>) -> Result<u64, PolicyFault> {
    match m {
        Some(Model::Uint(n)) => Ok(n),
        Some(_) => Err(PolicyFault::BadField(f, "a non-negative integer"@)),
        None => Err(PolicyFault::MissingField(f)),
    }
}

/// Whether every root has zero weight (or there are none).
pub open spec fn all_weightless(roots: Seq<((HashAlg, Seq<u8>), int)>) -> bool {
    forall|i: int| 0 <= i < roots.len() ==> (#[trigger] roots[i]).1 == 0
}

/// A count held to `u32`, or its largest value.
pub open spec fn to_u32_or_max(n: u64) -> u32 {
    if n <= u32::MAX {
        n as u32
    } else {
        u32::MAX
    }
}

/// How a policy body reads. `roots` is read first and must hold a root of
/// nonzero weight; then `iterations`, at most [`MAX_ITERATIONS`]; then
/// `damping`, `tau`, `delta_max`, `replication_floor` and
/// `independence_distance`, each a non-negative integer. Counts beyond
/// `u32` read as its largest value.
pub open spec fn policy_reading(es: Seq<(Seq<char>, Model)>) -> Result<PolicyView, PolicyFault> {
    let roots = match mlookup(es, "roots"@) {
        Some(Model::Array(items)) => roots_reading(items),
        Some(_) => Err(PolicyFault::BadField("roots"@, "an array"@)),
        None => Err(PolicyFault::MissingField("roots"@)),
    };
    let iterations = uint_reading(mlookup(es, "iterations"@), "iterations"@);
    let damping = uint_reading(mlookup(es, "damping"@), "damping"@);
    let tau = uint_reading(mlookup(es, "tau"@), "tau"@);
    let delta_max = uint_reading(mlookup(es, "delta_max"@), "delta_max"@);
    let floor = uint_reading(mlookup(es, "replication_floor"@), "replication_floor"@);
    let distance = uint_reading(mlookup(es, "independence_distance"@), "independence_distance"@);
    if roots is Err {
        Err(roots->Err_0)
    } else if all_weightless(roots->Ok_0) {
        Err(PolicyFault::NoRoots)
    } else if iterations is Err {
        Err(iterations->Err_0)
    } else if iterations->Ok_0 > u32::MAX {
        Err(PolicyFault::TooManyIterations(u32::MAX))
    } else if iterations->Ok_0 > MAX_ITERATIONS {
        Err(PolicyFault::TooManyIterations(iterations->Ok_0 as u32))
    } else if damping is Err {
        Err(damping->Err_0)
    } else if tau is Err {
        Err(tau->Err_0)
    } else if delta_max is Err {
        Err(delta_max->Err_0)
    } else if floor is Err {
        Err(floor->Err_0)
    } else if distance is Err {
        Err(distance->Err_0)
    } else {
        Ok(
            PolicyView {
                roots: roots->Ok_0,
                damping: damping->Ok_0 as int,
                iterations: iterations->Ok_0 as u32,
                tau: tau->Ok_0 as int,
                delta_max: delta_max->Ok_0 as int,
                replication_floor: to_u32_or_max(floor->Ok_0),
                independence_distance: to_u32_or_max(distance->Ok_0),
                decay_half_life_days: match mlookup(es, "decay_half_life_days"@) {
                    Some(Model::Uint(n)) => Some(n),
                    _ => None,
                },
                use_equivalence: mtext(mlookup(es, "equivalence"@)) != Some("none"@),
            },
        )
    }
}

/// Read an integer field.
fn uint(value: Option<&Value>, field: &'static str) -> (r: Result<u64, PolicyError>)
    ensures
        result_view_u64(r) == uint_reading(mref(value), field@),
{
    match value {
        Some(Value::Uint(n)) => Ok(*n),
        Some(_) => Err(PolicyError::BadField { field, expected: "a non-negative integer" }),
        None => Err(PolicyError::MissingField { field }),
    }
}

/// The view of an integer result.
pub open spec fn result_view_u64(r: Result<u64, PolicyError>) -> Result<u64, PolicyFault> {
    match r {
        Ok(n) => Ok(n),
        Err(e) => Err(e@),
    }
}

/// Read a field already expressed in units of 10^-6.
fn scaled(value: Option<&Value>, field: &'static str) -> (r: Result<Fixed6, PolicyError>)
    ensures
        match uint_reading(mref(value), field@) {
            Ok(n) => r matches Ok(x) && x@ == n,
            Err(e) => r matches Err(x) && x@ == e,
        },
{
    match uint(value, field) {
        Ok(n) => Ok(Fixed6::from_scaled(n as i128)),
        Err(e) => Err(e),
    }
}

/// Read one root.
fn read_root(item: &Value) -> (r: Result<Root, PolicyError>)
    ensures
        match root_reading(model(*item)) {
            Ok(x) => r matches Ok(root) && root_view(root) == x,
            Err(e) => r matches Err(x) && x@ == e,
        },
{
    let key = match cid_in(text_in(member(item, "key"))) {
        Some(c) => c,
        None => return Err(PolicyError::BadField { field: "roots.key", expected: "a CID string" }),
    };
    let weight = match crate::fields::uint_in(member(item, "weight")) {
        Some(n) => n,
        None => return Err(
            PolicyError::BadField { field: "roots.weight", expected: "a non-negative integer" },
        ),
    };
    assert(weight * 1_000_000 <= u64::MAX * 1_000_000) by (nonlinear_arith)
        requires
            weight <= u64::MAX,
    ;
    Ok(Root { key, weight: Fixed6::from_scaled(weight as i128 * SCALE) })
}

/// Once a prefix of `roots` fails, the whole list fails the same way.
proof fn lemma_roots_prefix(s: Seq<Model>, i: int)
    requires
        0 <= i <= s.len(),
        roots_reading(s.take(i)) is Err,
    ensures
        roots_reading(s) == roots_reading(s.take(i)),
    decreases s.len() - i,
{
    if i == s.len() {
        assert(s.take(i) =~= s);
    } else {
        assert(s.take(i + 1).drop_last() =~= s.take(i));
        lemma_roots_prefix(s, i + 1);
    }
}

/// Read every root.
fn read_roots(items: &Vec<Value>) -> (r: Result<Vec<Root>, PolicyError>)
    ensures
        match roots_reading(models(items@)) {
            Ok(x) => r matches Ok(roots) && roots@.map_values(|rt: Root| root_view(rt)) == x,
            Err(e) => r matches Err(x) && x@ == e,
        },
{
    let mut out: Vec<Root> = Vec::new();
    let mut i: usize = 0;
    proof {
        crate::cbor::encode::lemma_models_len(items@);
        assert(models(items@).take(0) =~= Seq::<Model>::empty());
        assert(out@.map_values(|rt: Root| root_view(rt)) =~= Seq::empty());
    }
    while i < items.len()
        invariant
            i <= items.len(),
            models(items@).len() == items.len(),
            roots_reading(models(items@).take(i as int)) == Ok::<Seq<((HashAlg, Seq<u8>), int)>, PolicyFault>(
                out@.map_values(|rt: Root| root_view(rt)),
            ),
        decreases items.len() - i,
    {
        proof {
            lemma_models_index(items@, i as int);
            assert(models(items@).take(i + 1).drop_last() =~= models(items@).take(i as int));
            assert(models(items@).take(i + 1).last() == model(items@[i as int]));
        }
        match read_root(&items[i]) {
            Ok(root) => {
                let ghost before = out@;
                out.push(root);
                proof {
                    assert(out@.map_values(|rt: Root| root_view(rt)) =~= before.map_values(
                        |rt: Root| root_view(rt),
                    ).push(root_view(root)));
                }
            },
            Err(e) => {
                proof {
                    lemma_roots_prefix(models(items@), i + 1);
                }
                return Err(e);
            },
        }
        i = i + 1;
    }
    assert(models(items@).take(items.len() as int) =~= models(items@));
    Ok(out)
}

impl Policy {
    /// Read a policy from a verified object.
    ///
    /// Fails when a field is absent, ill-typed, or outside the bounds the
    /// protocol sets; see [`policy_reading`].
    pub fn from_object(object: &Object) -> (r: Result<Self, PolicyError>)
        ensures
            result_view(r) == policy_reading(object@.body),
    {
        let body = object.body();
        let ghost mut rm: Seq<Model> = Seq::empty();
        let roots = match entry(body, "roots") {
            Some(Value::Array(items)) => {
                proof {
                    rm = models(items@);
                }
                match read_roots(items) {
                    Ok(x) => x,
                    Err(e) => return Err(e),
                }
            },
            Some(_) => return Err(PolicyError::BadField { field: "roots", expected: "an array" }),
            None => return Err(PolicyError::MissingField { field: "roots" }),
        };
        let ghost rv = roots@.map_values(|rt: Root| root_view(rt));
        let mut any_weight = false;
        let mut i: usize = 0;
        while i < roots.len()
            invariant
                i <= roots.len(),
                rv == roots@.map_values(|rt: Root| root_view(rt)),
                !any_weight ==> forall|j: int| 0 <= j < i ==> (#[trigger] rv[j]).1 == 0,
                any_weight ==> exists|j: int| 0 <= j < rv.len() && (#[trigger] rv[j]).1 != 0,
            decreases roots.len() - i,
        {
            if !roots[i].weight.is_zero() {
                assert(rv[i as int].1 != 0);
                any_weight = true;
            }
            i = i + 1;
        }
        if !any_weight {
            return Err(PolicyError::NoRoots);
        }
        proof {
            assert(mlookup(object@.body, "roots"@) == Some(Model::Array(rm)));
            assert(roots_reading(rm) == Ok::<Seq<((HashAlg, Seq<u8>), int)>, PolicyFault>(rv));
            let j = choose|j: int| 0 <= j < rv.len() && (#[trigger] rv[j]).1 != 0;
            assert(rv[j].1 != 0);
        }
        let iterations64 = match uint(entry(body, "iterations"), "iterations") {
            Ok(n) => n,
            Err(e) => return Err(e),
        };
        if iterations64 > u32::MAX as u64 {
            return Err(PolicyError::TooManyIterations { found: u32::MAX });
        }
        let iterations = iterations64 as u32;
        if iterations > MAX_ITERATIONS {
            return Err(PolicyError::TooManyIterations { found: iterations });
        }
        let damping = match scaled(entry(body, "damping"), "damping") {
            Ok(x) => x,
            Err(e) => return Err(e),
        };
        let tau = match scaled(entry(body, "tau"), "tau") {
            Ok(x) => x,
            Err(e) => return Err(e),
        };
        let delta_max = match scaled(entry(body, "delta_max"), "delta_max") {
            Ok(x) => x,
            Err(e) => return Err(e),
        };
        let floor = match uint(entry(body, "replication_floor"), "replication_floor") {
            Ok(n) => n,
            Err(e) => return Err(e),
        };
        let distance = match uint(entry(body, "independence_distance"), "independence_distance") {
            Ok(n) => n,
            Err(e) => return Err(e),
        };
        let decay_half_life_days = match entry(body, "decay_half_life_days") {
            Some(Value::Uint(n)) => Some(*n),
            _ => None,
        };
        let use_equivalence = match text_in(entry(body, "equivalence")) {
            Some(t) => !text_eq(t, "none"),
            None => true,
        };
        Ok(
            Policy {
                roots,
                damping,
                iterations,
                tau,
                delta_max,
                replication_floor: if floor <= u32::MAX as u64 {
                    floor as u32
                } else {
                    u32::MAX
                },
                independence_distance: if distance <= u32::MAX as u64 {
                    distance as u32
                } else {
                    u32::MAX
                },
                decay_half_life_days,
                use_equivalence,
            },
        )
    }
}

} // verus!
