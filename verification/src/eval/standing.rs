//! Standing: evidence dominance and the acceptance predicate.
//!
//! The order of the rules matters. Proof settles a formal claim and
//! independent reproduction settles an empirical one; endorsement weight
//! decides only what neither has settled. Weight is consulted last.

use crate::eval::fixed::{clamp, tdiv, Fixed6, SCALE};
use crate::eval::policy::Policy;
use crate::graph::view::{truth_apt, Class};
use crate::text::{text_eq};
use vstd::prelude::*;

verus! {

/// How a claim's supporting observation can be repeated.
#[derive(Debug, Clone, Copy, PartialEq, Eq, Structural)]
#[non_exhaustive]
pub enum Reproducibility {
    /// Any party with the stated resources can attempt it.
    Open,
    /// Attempting it requires access a named party controls.
    Restricted,
    /// Unrepeatable in principle.
    UniqueEvent,
    /// Repeatable only on a different sample.
    Destructive,
}

/// The identifier of a reproducibility class.
pub open spec fn reproducibility_id(r: Reproducibility) -> Seq<char> {
    match r {
        Reproducibility::Open => "open"@,
        Reproducibility::Restricted => "restricted"@,
        Reproducibility::UniqueEvent => "unique-event"@,
        Reproducibility::Destructive => "destructive"@,
    }
}

/// The reproducibility class an identifier names, if any.
pub open spec fn reproducibility_from_id(id: Seq<char>) -> Option<Reproducibility> {
    if id == "open"@ {
        Some(Reproducibility::Open)
    } else if id == "restricted"@ {
        Some(Reproducibility::Restricted)
    } else if id == "unique-event"@ {
        Some(Reproducibility::UniqueEvent)
    } else if id == "destructive"@ {
        Some(Reproducibility::Destructive)
    } else {
        None
    }
}

impl Default for Reproducibility {
    /// Open, unless a claim says otherwise.
    fn default() -> (r: Self)
        ensures
            r == Reproducibility::Open,
    {
        Reproducibility::Open
    }
}

impl Reproducibility {
    /// Resolve the identifier used in a publet body.
    pub fn from_id(id: &str) -> (r: Option<Self>)
        ensures
            r == reproducibility_from_id(id@),
    {
        if text_eq(id, "open") {
            Some(Reproducibility::Open)
        } else if text_eq(id, "restricted") {
            Some(Reproducibility::Restricted)
        } else if text_eq(id, "unique-event") {
            Some(Reproducibility::UniqueEvent)
        } else if text_eq(id, "destructive") {
            Some(Reproducibility::Destructive)
        } else {
            None
        }
    }

    /// The identifier used in a publet body.
    pub fn id(self) -> (r: &'static str)
        ensures
            r@ == reproducibility_id(self),
    {
        match self {
            Reproducibility::Open => "open",
            Reproducibility::Restricted => "restricted",
            Reproducibility::UniqueEvent => "unique-event",
            Reproducibility::Destructive => "destructive",
        }
    }
}

/// Counts of filed reproductions.
#[derive(Debug, Clone, Copy, Default, PartialEq, Eq, Structural)]
pub struct Reproductions {
    /// Reproductions agreeing with the claim.
    pub consistent: u32,
    /// Reproductions disagreeing with it.
    pub inconsistent: u32,
    /// Reproductions that reached no conclusion.
    pub inconclusive: u32,
    /// Consistent reproductions that are independent of one another.
    pub independent_consistent: u32,
    /// Inconsistent reproductions that are independent of one another.
    pub independent_inconsistent: u32,
}

/// The outcome of evaluating a claim under a viewpoint.
#[derive(Debug, Clone, Copy, PartialEq, Eq, Structural)]
#[non_exhaustive]
pub enum Outcome {
    /// Weight and evidence both support the claim.
    Accepted,
    /// Weighted participants examined it and did not converge.
    Contested,
    /// Weight is against the claim.
    Rejected,
    /// No weighted participant evaluated it.
    Undetermined,
    /// Weight supports it, but the evidence does not yet.
    Unreplicated,
    /// The class is not truth-apt.
    NotTruthApt,
}

/// The identifier of an outcome.
pub open spec fn outcome_id(o: Outcome) -> Seq<char> {
    match o {
        Outcome::Accepted => "accepted"@,
        Outcome::Contested => "contested"@,
        Outcome::Rejected => "rejected"@,
        Outcome::Undetermined => "undetermined"@,
        Outcome::Unreplicated => "unreplicated"@,
        Outcome::NotTruthApt => "not-truth-apt"@,
    }
}

impl Outcome {
    /// The identifier used in an `eval` object.
    pub fn id(self) -> (r: &'static str)
        ensures
            r@ == outcome_id(self),
    {
        match self {
            Outcome::Accepted => "accepted",
            Outcome::Contested => "contested",
            Outcome::Rejected => "rejected",
            Outcome::Undetermined => "undetermined",
            Outcome::Unreplicated => "unreplicated",
            Outcome::NotTruthApt => "not-truth-apt",
        }
    }
}

/// A signer's judgement about a claim. An assessment is not
/// a verdict and reaches no outcome.
#[derive(Debug, Clone, PartialEq, Eq, PartialOrd, Ord)]
pub struct Assessment {
    /// The key that filed it.
    pub author: String,
    /// One of `sound`, `sound-in-scope`, `superseded`, `unsupported`,
    /// `refuted`, `undetermined`.
    pub verdict: String,
    /// What the judgement rests on.
    pub basis: String,
}

/// Signed judgements and evidence gathered for one claim. Key lists are
/// sets: a key listed twice counts once.
#[derive(Debug, Clone)]
pub struct Evidence {
    /// Keys affirming, by identifier.
    pub affirm: Vec<String>,
    /// Keys denying.
    pub deny: Vec<String>,
    /// Keys abstaining.
    pub abstain: Vec<String>,
    /// Keys whose disputes are argued and non-redundant.
    pub argued_disputes: Vec<String>,
    /// Whether a recognized checker accepted a proof of the claim.
    pub proof_checked: bool,
    /// Filed reproductions.
    pub reproductions: Reproductions,
    /// How the claim's observation can be repeated.
    pub reproducibility: Reproducibility,
    /// Whether the claim has been retracted by its author.
    pub retracted: bool,
    /// Judgements filed about this claim; nothing here reaches the outcome.
    pub assessments: Vec<Assessment>,
    /// Distinct corpora cited as evidence of usage.
    pub usage: Vec<String>,
}

impl Default for Evidence {
    /// No judgements and no evidence.
    fn default() -> (r: Self)
        ensures
            r.affirm@.len() == 0,
            r.deny@.len() == 0,
            r.abstain@.len() == 0,
            r.argued_disputes@.len() == 0,
            !r.proof_checked,
            r.reproductions == (Reproductions {
                consistent: 0,
                inconsistent: 0,
                inconclusive: 0,
                independent_consistent: 0,
                independent_inconsistent: 0,
            }),
            r.reproducibility == Reproducibility::Open,
            !r.retracted,
            r.assessments@.len() == 0,
            r.usage@.len() == 0,
    {
        Evidence {
            affirm: Vec::new(),
            deny: Vec::new(),
            abstain: Vec::new(),
            argued_disputes: Vec::new(),
            proof_checked: false,
            reproductions: Reproductions {
                consistent: 0,
                inconsistent: 0,
                inconclusive: 0,
                independent_consistent: 0,
                independent_inconsistent: 0,
            },
            reproducibility: Reproducibility::Open,
            retracted: false,
            assessments: Vec::new(),
            usage: Vec::new(),
        }
    }
}

/// The result of evaluating one claim.
#[derive(Debug, Clone, PartialEq, Eq)]
pub struct Standing {
    /// Weight affirming.
    pub affirm_weight: Fixed6,
    /// Weight denying.
    pub deny_weight: Fixed6,
    /// Weight abstaining.
    pub abstain_weight: Fixed6,
    /// Weight that evaluated this claim at all.
    pub active_weight: Fixed6,
    /// The divergence factor applied.
    pub delta: Fixed6,
    /// Reproduction counts.
    pub reproductions: Reproductions,
    /// The claim's reproducibility class.
    pub reproducibility_class: Reproducibility,
    /// Whether the claim is retracted.
    pub retracted: bool,
    /// The claim class.
    pub class: Class,
    /// The outcome.
    pub result: Outcome,
}

/// The weight a viewpoint gives a key: the first entry for it, if any.
pub open spec fn weight_at(weights: Seq<(String, Fixed6)>, k: Seq<char>) -> Option<int>
    decreases weights.len(),
{
    if weights.len() == 0 {
        None
    } else {
        match weight_at(weights.drop_last(), k) {
            Some(w) => Some(w),
            None => if weights.last().0@ == k {
                Some(weights.last().1@)
            } else {
                None
            },
        }
    }
}

/// Whether `k` occurs among the first `n` keys.
pub open spec fn listed_before(keys: Seq<String>, n: int, k: Seq<char>) -> bool {
    exists|j: int| 0 <= j < n && (#[trigger] keys[j])@ == k
}

/// The weight of a set of keys: each distinct key's weight added once, in
/// order, saturating; keys without weight add nothing.
pub open spec fn weight_sum(keys: Seq<String>, weights: Seq<(String, Fixed6)>) -> int
    decreases keys.len(),
{
    if keys.len() == 0 {
        0
    } else {
        let prev = weight_sum(keys.drop_last(), weights);
        let k = keys.last()@;
        if listed_before(keys, keys.len() - 1, k) {
            prev
        } else {
            match weight_at(weights, k) {
                Some(w) => clamp(prev + w),
                None => prev,
            }
        }
    }
}

/// The divergence factor: `min(delta_max, delta_max * D_arg / (A + D_arg))`,
/// or zero when nobody affirmed or argued.
pub open spec fn delta_spec(delta_max: int, affirm: int, argued: int) -> int {
    let denom = clamp(affirm + argued);
    if denom == 0 {
        0
    } else {
        let share = tdiv(clamp(delta_max * argued), denom);
        if delta_max <= share {
            delta_max
        } else {
            share
        }
    }
}

/// Whether the evidence permits `accepted`: only empirical
/// claims are gated, by their reproducibility class.
pub open spec fn replication_spec(floor: u32, class: Class, e: Evidence) -> bool {
    if class != Class::Empirical {
        true
    } else {
        match e.reproducibility {
            Reproducibility::Restricted => false,
            Reproducibility::UniqueEvent => e.reproductions.independent_consistent >= 1,
            _ => e.reproductions.independent_consistent >= floor,
        }
    }
}

/// The outcome rules, in order: not truth-apt; retracted; a checked proof
/// of a formal claim; an independent inconsistent reproduction of an
/// empirical one; no weight; then the shares of weight against the
/// threshold `tau + delta`.
pub open spec fn outcome_spec(
    tau: int,
    floor: u32,
    class: Class,
    e: Evidence,
    affirm: int,
    deny: int,
    delta: int,
) -> Outcome {
    let total = clamp(affirm + deny);
    let threshold = clamp(tau + delta);
    if !truth_apt(class) {
        Outcome::NotTruthApt
    } else if e.retracted {
        Outcome::Rejected
    } else if class == Class::Formal && e.proof_checked {
        Outcome::Accepted
    } else if class == Class::Empirical && e.reproductions.independent_inconsistent > 0 {
        Outcome::Rejected
    } else if total == 0 {
        Outcome::Undetermined
    } else if tdiv(clamp(deny * SCALE), total) >= threshold {
        Outcome::Rejected
    } else if tdiv(clamp(affirm * SCALE), total) >= threshold {
        if replication_spec(floor, class, e) {
            Outcome::Accepted
        } else {
            Outcome::Unreplicated
        }
    } else {
        Outcome::Contested
    }
}

/// Whether the weight comparison is reached, where the shares are taken.
pub open spec fn shares_reached(class: Class, e: Evidence, affirm: int, deny: int) -> bool {
    &&& truth_apt(class)
    &&& !e.retracted
    &&& !(class == Class::Formal && e.proof_checked)
    &&& !(class == Class::Empirical && e.reproductions.independent_inconsistent > 0)
    &&& clamp(affirm + deny) != 0
}

/// The inputs on which [`evaluate`] divides without overflow: the one
/// quotient `i128` cannot hold, its least value divided by -1, is never
/// taken. Weights that are not negative always qualify.
pub open spec fn evaluable(policy: Policy, class: Class, e: Evidence, weights: Seq<(String, Fixed6)>) -> bool {
    let a = weight_sum(e.affirm@, weights);
    let d = weight_sum(e.deny@, weights);
    let g = weight_sum(e.argued_disputes@, weights);
    let total = clamp(a + d);
    &&& !(clamp(policy.delta_max@ * g) == i128::MIN && clamp(a + g) == -1)
    &&& shares_reached(class, e, a, d) ==> !(total == -1 && (clamp(a * SCALE) == i128::MIN || clamp(
        d * SCALE,
    ) == i128::MIN))
}

/// Find the weight of a key.
fn weight_lookup(weights: &Vec<(String, Fixed6)>, k: &str) -> (r: Option<Fixed6>)
    ensures
        match r {
            Some(w) => weight_at(weights@, k@) == Some(w@),
            None => weight_at(weights@, k@) is None,
        },
{
    let mut i: usize = 0;
    assert(weights@.take(0) =~= Seq::<(String, Fixed6)>::empty());
    while i < weights.len()
        invariant
            i <= weights.len(),
            weight_at(weights@.take(i as int), k@) is None,
        decreases weights.len() - i,
    {
        assert(weights@.take(i + 1).drop_last() =~= weights@.take(i as int));
        if text_eq(weights[i].0.as_str(), k) {
            proof {
                lemma_weight_at_prefix(weights@, i + 1, k@);
            }
            return Some(weights[i].1);
        }
        i = i + 1;
    }
    assert(weights@.take(weights.len() as int) =~= weights@);
    None
}

/// A weight found in a prefix is the weight of the whole list.
proof fn lemma_weight_at_prefix(ws: Seq<(String, Fixed6)>, i: int, k: Seq<char>)
    requires
        0 <= i <= ws.len(),
        weight_at(ws.take(i), k) is Some,
    ensures
        weight_at(ws, k) == weight_at(ws.take(i), k),
    decreases ws.len() - i,
{
    if i == ws.len() {
        assert(ws.take(i) =~= ws);
    } else {
        assert(ws.take(i + 1).drop_last() =~= ws.take(i));
        lemma_weight_at_prefix(ws, i + 1, k);
    }
}

/// Aggregate weight over a set of keys, counting each key once.
///
/// A signer's weight must count at most once, so
/// endorsing five paraphrases of a claim is worth exactly as much as
/// endorsing one.
fn weight_of(keys: &Vec<String>, weights: &Vec<(String, Fixed6)>) -> (r: Fixed6)
    ensures
        r@ == weight_sum(keys@, weights@),
{
    let mut total = Fixed6::zero();
    let mut i: usize = 0;
    assert(keys@.take(0) =~= Seq::<String>::empty());
    while i < keys.len()
        invariant
            i <= keys.len(),
            total@ == weight_sum(keys@.take(i as int), weights@),
        decreases keys.len() - i,
    {
        let ghost pre = keys@.take(i + 1);
        assert(pre.drop_last() =~= keys@.take(i as int));
        assert(pre.last() == keys@[i as int]);
        let mut seen = false;
        let mut j: usize = 0;
        while j < i
            invariant
                j <= i,
                i < keys.len(),
                pre == keys@.take(i + 1),
                !seen ==> forall|t: int| 0 <= t < j ==> (#[trigger] keys@[t])@ != keys@[i as int]@,
                seen ==> listed_before(pre, i as int, keys@[i as int]@),
            decreases i - j,
        {
            if text_eq(keys[j].as_str(), keys[i].as_str()) {
                assert(pre[j as int] == keys@[j as int]);
                seen = true;
            }
            j = j + 1;
        }
        proof {
            if !seen {
                assert forall|t: int| 0 <= t < i implies (#[trigger] pre[t])@ != keys@[i as int]@ by {
                    assert(pre[t] == keys@[t]);
                }
            }
        }
        if !seen {
            match weight_lookup(weights, keys[i].as_str()) {
                Some(w) => {
                    total = total + w;
                },
                None => {},
            }
        }
        i = i + 1;
    }
    assert(keys@.take(keys.len() as int) =~= keys@);
    total
}

/// Whether the evidence permits `accepted`.
fn replication_ok(policy: &Policy, class: Class, evidence: &Evidence) -> (r: bool)
    ensures
        r == replication_spec(policy.replication_floor, class, *evidence),
{
    if class != Class::Empirical {
        return true;
    }
    match evidence.reproducibility {
        Reproducibility::Restricted => false,
        Reproducibility::UniqueEvent => evidence.reproductions.independent_consistent >= 1,
        Reproducibility::Open | Reproducibility::Destructive => {
            evidence.reproductions.independent_consistent >= policy.replication_floor
        },
    }
}

/// Apply the outcome rules.
fn outcome(
    policy: &Policy,
    class: Class,
    evidence: &Evidence,
    affirm: Fixed6,
    deny: Fixed6,
    delta: Fixed6,
) -> (r: Outcome)
    requires
        shares_reached(class, *evidence, affirm@, deny@) ==> !(clamp(affirm@ + deny@) == -1 && (clamp(
            affirm@ * SCALE,
        ) == i128::MIN || clamp(deny@ * SCALE) == i128::MIN)),
    ensures
        r == outcome_spec(policy.tau@, policy.replication_floor, class, *evidence, affirm@, deny@, delta@),
{
    if !class.accepts_verdict() {
        return Outcome::NotTruthApt;
    }
    if evidence.retracted {
        return Outcome::Rejected;
    }
    if class == Class::Formal && evidence.proof_checked {
        return Outcome::Accepted;
    }
    if class == Class::Empirical && evidence.reproductions.independent_inconsistent > 0 {
        return Outcome::Rejected;
    }
    let total = affirm + deny;
    if total.is_zero() {
        return Outcome::Undetermined;
    }
    let threshold = policy.tau + delta;
    let affirm_share = affirm.ratio(total);
    let deny_share = deny.ratio(total);
    if deny_share.to_scaled() >= threshold.to_scaled() {
        return Outcome::Rejected;
    }
    if affirm_share.to_scaled() >= threshold.to_scaled() {
        return if replication_ok(policy, class, evidence) {
            Outcome::Accepted
        } else {
            Outcome::Unreplicated
        };
    }
    Outcome::Contested
}

/// Evaluate a claim under a viewpoint.
///
/// The weights of affirming, denying, abstaining and argued-dispute keys
/// are summed once per key; the outcome follows [`outcome_spec`].
pub fn evaluate(policy: &Policy, class: Class, evidence: &Evidence, weights: &Vec<(String, Fixed6)>) -> (r:
    Standing)
    requires
        evaluable(*policy, class, *evidence, weights@),
    ensures
        r.affirm_weight@ == weight_sum(evidence.affirm@, weights@),
        r.deny_weight@ == weight_sum(evidence.deny@, weights@),
        r.abstain_weight@ == weight_sum(evidence.abstain@, weights@),
        r.active_weight@ == clamp(
            clamp(r.affirm_weight@ + r.deny_weight@) + r.abstain_weight@,
        ),
        r.delta@ == delta_spec(
            policy.delta_max@,
            r.affirm_weight@,
            weight_sum(evidence.argued_disputes@, weights@),
        ),
        r.result == outcome_spec(
            policy.tau@,
            policy.replication_floor,
            class,
            *evidence,
            r.affirm_weight@,
            r.deny_weight@,
            r.delta@,
        ),
        r.reproductions == evidence.reproductions,
        r.reproducibility_class == evidence.reproducibility,
        r.retracted == evidence.retracted,
        r.class == class,
{
    let affirm_weight = weight_of(&evidence.affirm, weights);
    let deny_weight = weight_of(&evidence.deny, weights);
    let abstain_weight = weight_of(&evidence.abstain, weights);
    let active_weight = affirm_weight + deny_weight + abstain_weight;
    let argued = weight_of(&evidence.argued_disputes, weights);
    let denom = affirm_weight + argued;
    let delta = if denom.is_zero() {
        Fixed6::zero()
    } else {
        policy.delta_max.min(policy.delta_max.mul_div(argued, denom))
    };
    let result = outcome(policy, class, evidence, affirm_weight, deny_weight, delta);
    Standing {
        affirm_weight,
        deny_weight,
        abstain_weight,
        active_weight,
        delta,
        reproductions: evidence.reproductions,
        reproducibility_class: evidence.reproducibility,
        retracted: evidence.retracted,
        class,
        result,
    }
}

/// Whether [`evaluate`] can run on these inputs: the check its
/// precondition names, made by the machine.
pub fn check_evaluable(policy: &Policy, class: Class, evidence: &Evidence, weights: &Vec<(String, Fixed6)>) -> (r:
    bool)
    ensures
        r == evaluable(*policy, class, *evidence, weights@),
{
    let a = weight_of(&evidence.affirm, weights);
    let d = weight_of(&evidence.deny, weights);
    let g = weight_of(&evidence.argued_disputes, weights);
    let total = a + d;
    let first = !(crate::eval::fixed::sat_mul(policy.delta_max.to_scaled(), g.to_scaled()) == i128::MIN
        && (a + g).to_scaled() == -1);
    let reached = class.accepts_verdict() && !evidence.retracted && !(class == Class::Formal
        && evidence.proof_checked) && !(class == Class::Empirical
        && evidence.reproductions.independent_inconsistent > 0) && !total.is_zero();
    let second = !reached || !(total.to_scaled() == -1 && (crate::eval::fixed::sat_mul(a.to_scaled(), SCALE)
        == i128::MIN || crate::eval::fixed::sat_mul(d.to_scaled(), SCALE) == i128::MIN));
    first && second
}

/// A class that is not truth-apt has no verdict and never will.
pub proof fn law_not_truth_apt(tau: int, floor: u32, class: Class, e: Evidence, affirm: int, deny: int, delta: int)
    requires
        !truth_apt(class),
    ensures
        outcome_spec(tau, floor, class, e, affirm, deny, delta) == Outcome::NotTruthApt,
{
}

/// A retracted claim carries no positive standing, whatever its weight.
pub proof fn law_retracted_is_rejected(
    tau: int,
    floor: u32,
    class: Class,
    e: Evidence,
    affirm: int,
    deny: int,
    delta: int,
)
    requires
        truth_apt(class),
        e.retracted,
    ensures
        outcome_spec(tau, floor, class, e, affirm, deny, delta) == Outcome::Rejected,
{
}

/// A proof is not a poll: a checked proof settles a formal claim whatever
/// the weights of affirmation and denial.
pub proof fn law_proof_settles_formal(
    tau: int,
    floor: u32,
    e: Evidence,
    affirm: int,
    deny: int,
    delta: int,
)
    requires
        e.proof_checked,
        !e.retracted,
    ensures
        outcome_spec(tau, floor, Class::Formal, e, affirm, deny, delta) == Outcome::Accepted,
{
}

/// One independent inconsistent reproduction of an empirical claim
/// outweighs endorsement of any magnitude.
pub proof fn law_inconsistent_reproduction_rejects(
    tau: int,
    floor: u32,
    e: Evidence,
    affirm: int,
    deny: int,
    delta: int,
)
    requires
        e.reproductions.independent_inconsistent > 0,
        !e.retracted,
    ensures
        outcome_spec(tau, floor, Class::Empirical, e, affirm, deny, delta) == Outcome::Rejected,
{
}

/// Replication gates acceptance: an accepted empirical claim meets its
/// replication rule, and weight alone yields at most `unreplicated`.
pub proof fn law_replication_gates_acceptance(
    tau: int,
    floor: u32,
    e: Evidence,
    affirm: int,
    deny: int,
    delta: int,
)
    requires
        outcome_spec(tau, floor, Class::Empirical, e, affirm, deny, delta) == Outcome::Accepted,
    ensures
        replication_spec(floor, Class::Empirical, e),
        e.reproducibility != Reproducibility::Restricted,
{
}

/// Listing a key again adds nothing: a signer endorsing many paraphrases
/// counts once.
pub proof fn law_counted_once(keys: Seq<String>, k: String, weights: Seq<(String, Fixed6)>)
    requires
        exists|j: int| 0 <= j < keys.len() && (#[trigger] keys[j])@ == k@,
    ensures
        weight_sum(keys.push(k), weights) == weight_sum(keys, weights),
{
    let j = choose|j: int| 0 <= j < keys.len() && (#[trigger] keys[j])@ == k@;
    assert(keys.push(k)[j] == keys[j]);
    assert(keys.push(k).drop_last() =~= keys);
}

/// Where the outcome is decided by weight, the bar both shares are held
/// to is `tau` raised by the divergence factor
/// `min(delta_max, delta_max * argued / (affirm + argued))`: denial at or
/// over the bar rejects, otherwise affirmation at or over it accepts
/// (subject to replication), and anything short of it is contested. So
/// weight behind argued disputes raises the bar affirmation must clear.
/// This holds of weights that are not negative and whose sums, scaled,
/// stay within `i128`.
pub proof fn law_argued_disputes_raise_the_bar(
    tau: int,
    floor: u32,
    class: Class,
    e: Evidence,
    affirm: int,
    deny: int,
    argued: int,
    delta_max: int,
)
    requires
        truth_apt(class),
        !e.retracted,
        !(class == Class::Formal && e.proof_checked),
        !(class == Class::Empirical && e.reproductions.independent_inconsistent > 0),
        0 <= affirm,
        0 <= deny,
        0 <= argued,
        0 <= delta_max,
        0 <= tau,
        0 < affirm + deny,
        (affirm + deny) * 1_000_000 <= i128::MAX,
        affirm + argued <= i128::MAX,
        delta_max * argued <= i128::MAX,
        tau + delta_max <= i128::MAX,
    ensures
        ({
            let d = if affirm + argued == 0 {
                0
            } else if delta_max <= delta_max * argued / (affirm + argued) {
                delta_max
            } else {
                delta_max * argued / (affirm + argued)
            };
            let bar = tau + d;
            let affirm_share = affirm * 1_000_000 / (affirm + deny);
            let deny_share = deny * 1_000_000 / (affirm + deny);
            let o = outcome_spec(tau, floor, class, e, affirm, deny, delta_spec(delta_max, affirm, argued));
            &&& (o == Outcome::Rejected) <==> deny_share >= bar
            &&& (o == Outcome::Accepted || o == Outcome::Unreplicated) <==> (deny_share < bar && affirm_share >= bar)
            &&& (o == Outcome::Contested) <==> (deny_share < bar && affirm_share < bar)
            &&& (o == Outcome::Accepted) ==> replication_spec(floor, class, e)
        }),
{
    let total = affirm + deny;
    assert(affirm * 1_000_000 <= total * 1_000_000 && deny * 1_000_000 <= total * 1_000_000) by (nonlinear_arith)
        requires
            0 <= affirm,
            0 <= deny,
            total == affirm + deny,
    ;
    assert(0 <= affirm * 1_000_000 && 0 <= deny * 1_000_000) by (nonlinear_arith)
        requires
            0 <= affirm,
            0 <= deny,
    ;
    assert(clamp(affirm * SCALE) == affirm * SCALE);
    assert(clamp(deny * SCALE) == deny * SCALE);
    assert(clamp(total) == total);
    assert(tdiv(affirm * SCALE, total) == affirm * 1_000_000 / total);
    assert(tdiv(deny * SCALE, total) == deny * 1_000_000 / total);
    assert(0 <= delta_max * argued) by (nonlinear_arith)
        requires
            0 <= delta_max,
            0 <= argued,
    ;
    assert(clamp(affirm + argued) == affirm + argued);
    assert(clamp(delta_max * argued) == delta_max * argued);
    if affirm + argued != 0 {
        assert(tdiv(delta_max * argued, affirm + argued) == delta_max * argued / (affirm + argued));
        assert(0 <= delta_max * argued / (affirm + argued)) by (nonlinear_arith)
            requires
                0 <= delta_max * argued,
                0 < affirm + argued,
        ;
    }
    let dl = delta_spec(delta_max, affirm, argued);
    assert(0 <= dl <= delta_max);
    assert(clamp(tau + dl) == tau + dl);
}

/// The divergence factor grows with the weight behind argued disputes.
proof fn lemma_divergence_grows(affirm: int, g1: int, g2: int, delta_max: int)
    requires
        0 <= affirm,
        0 <= g1 <= g2,
        0 <= delta_max,
    ensures
        (if affirm + g1 == 0 {
            0
        } else if delta_max <= delta_max * g1 / (affirm + g1) {
            delta_max
        } else {
            delta_max * g1 / (affirm + g1)
        }) <= (if affirm + g2 == 0 {
            0
        } else if delta_max <= delta_max * g2 / (affirm + g2) {
            delta_max
        } else {
            delta_max * g2 / (affirm + g2)
        }),
{
    if affirm + g1 == 0 {
        if affirm + g2 != 0 {
            assert(0 <= delta_max * g2 / (affirm + g2)) by (nonlinear_arith)
                requires
                    0 <= delta_max,
                    0 <= g2,
                    0 < affirm + g2,
            ;
        }
    } else {
        let n1 = delta_max * g1;
        let d1 = affirm + g1;
        let n2 = delta_max * g2;
        let d2 = affirm + g2;
        let q1 = n1 / d1;
        let q2 = n2 / d2;
        assert(q1 * d1 <= n1) by (nonlinear_arith)
            requires
                d1 > 0,
                q1 == n1 / d1,
        ;
        assert(n1 * d2 <= n2 * d1) by (nonlinear_arith)
            requires
                n1 == delta_max * g1,
                n2 == delta_max * g2,
                d1 == affirm + g1,
                d2 == affirm + g2,
                0 <= delta_max,
                0 <= affirm,
                0 <= g1 <= g2,
        ;
        assert(q1 * d2 <= n2) by (nonlinear_arith)
            requires
                q1 * d1 <= n1,
                n1 * d2 <= n2 * d1,
                d1 > 0,
                d2 > 0,
                q1 >= 0,
        ;
        assert(q1 >= 0) by (nonlinear_arith)
            requires
                n1 >= 0,
                d1 > 0,
                q1 == n1 / d1,
                n1 == delta_max * g1,
                0 <= delta_max,
                0 <= g1,
        ;
        assert(q1 <= q2) by (nonlinear_arith)
            requires
                q1 * d2 <= n2,
                d2 > 0,
                q2 == n2 / d2,
        ;
    }
}

/// Weight behind argued disputes never helps a claim: if affirmation
/// clears the bar with more argued weight, it clears it with less, and a
/// claim contested under less argued weight is not accepted under more.
/// This holds under the conditions of
/// [`law_argued_disputes_raise_the_bar`].
pub proof fn law_more_argument_never_helps(
    tau: int,
    floor: u32,
    class: Class,
    e: Evidence,
    affirm: int,
    deny: int,
    less: int,
    more: int,
    delta_max: int,
)
    requires
        truth_apt(class),
        !e.retracted,
        !(class == Class::Formal && e.proof_checked),
        !(class == Class::Empirical && e.reproductions.independent_inconsistent > 0),
        0 <= affirm,
        0 <= deny,
        0 <= less <= more,
        0 <= delta_max,
        0 <= tau,
        0 < affirm + deny,
        (affirm + deny) * 1_000_000 <= i128::MAX,
        affirm + more <= i128::MAX,
        delta_max * more <= i128::MAX,
        tau + delta_max <= i128::MAX,
    ensures
        ({
            let o1 = outcome_spec(tau, floor, class, e, affirm, deny, delta_spec(delta_max, affirm, less));
            let o2 = outcome_spec(tau, floor, class, e, affirm, deny, delta_spec(delta_max, affirm, more));
            &&& (o2 == Outcome::Accepted || o2 == Outcome::Unreplicated) ==> (o1 == Outcome::Accepted || o1
                == Outcome::Unreplicated || o1 == Outcome::Rejected)
            &&& o1 == Outcome::Contested ==> (o2 == Outcome::Contested || o2 == Outcome::Rejected)
        }),
{
    assert(delta_max * less <= delta_max * more) by (nonlinear_arith)
        requires
            0 <= delta_max,
            0 <= less <= more,
    ;
    law_argued_disputes_raise_the_bar(tau, floor, class, e, affirm, deny, less, delta_max);
    law_argued_disputes_raise_the_bar(tau, floor, class, e, affirm, deny, more, delta_max);
    lemma_divergence_grows(affirm, less, more, delta_max);
}

} // verus!
