//! Personalized PageRank over the trust graph.
//!
//! ```text
//!   W_0     = R
//!   W_{n+1} = ((10^6 - a) * R  +  a * (W_n . T)) / 10^6
//!   W       = W_K              where K = policy.iterations
//! ```
//!
//! Exactly `K` iterations run: there is no tolerance parameter, so a
//! convergence criterion cannot be introduced by accident. Every table is
//! walked in key order, so accumulation order depends on the keys alone.

use crate::eval::fixed::{clamp, halve_spec, tdiv, Fixed6, SCALE};
use crate::eval::policy::{root_view, Policy, Root};
use crate::eval::wmap::{add_at, ascending_table, get_or_zero, key_before, lemma_add_at_get, table_add, table_find, table_get, table_view, WTable};
use crate::fields::{cid_string, cid_to_string};
use crate::graph::closure::keys_view;
use crate::graph::graph::ascending_keys;
use crate::graph::table::Table;
use crate::text::{copy_text, text_eq};
use vstd::prelude::*;

verus! {

/// One declared trust edge.
#[derive(Debug, Clone, PartialEq, Eq)]
pub struct TrustEdge {
    /// The key conferring trust.
    pub from: String,
    /// The key receiving it.
    pub to: String,
    /// Declared weight, 1..=1000.
    pub weight: Fixed6,
    /// Age in days, for decay. Zero when the policy sets no half-life.
    pub age_days: u64,
}

/// An edge as the propagation sees it: endpoints and decayed weight.
pub type FlatEdge = (Seq<char>, Seq<char>, int);

/// `a * b / 10^6`, truncating: [`Fixed6::times`].
pub open spec fn times_spec(a: int, b: int) -> int {
    tdiv(clamp(a * b), SCALE as int)
}

/// `a * b / d`, truncating, zero for a zero `d`: [`Fixed6::mul_div`].
pub open spec fn mul_div_spec(a: int, b: int, d: int) -> int {
    if d == 0 {
        0
    } else {
        tdiv(clamp(a * b), d)
    }
}

/// The weight an edge confers after decay.
pub open spec fn decayed(half_life: Option<u64>, e: TrustEdge) -> int {
    match half_life {
        Some(h) => halve_spec(e.weight@, e.age_days as nat, h as nat),
        None => e.weight@,
    }
}

/// The edges as the propagation sees them.
pub open spec fn flat_edges(half_life: Option<u64>, edges: Seq<TrustEdge>) -> Seq<FlatEdge> {
    edges.map_values(|e: TrustEdge| (e.from@, e.to@, decayed(half_life, e)))
}

/// The saturating sum of a table's weights, in key order.
pub open spec fn table_sum(m: WTable) -> int
    decreases m.len(),
{
    if m.len() == 0 {
        0
    } else {
        clamp(table_sum(m.drop_last()) + m.last().1)
    }
}

/// The weight `from` confers on each key, summed over its edges in order.
pub open spec fn targets_of(es: Seq<FlatEdge>, from: Seq<char>) -> WTable
    decreases es.len(),
{
    if es.len() == 0 {
        Seq::empty()
    } else {
        let prev = targets_of(es.drop_last(), from);
        let e = es.last();
        if e.0 == from {
            add_at(prev, e.1, e.2)
        } else {
            prev
        }
    }
}

/// Each target's share of the total: per-key normalization, so that a
/// key's total conferred weight is fixed however many keys it vouches for.
pub open spec fn normalize(m: WTable) -> WTable {
    let total = table_sum(m);
    m.map_values(|e: (Seq<char>, int)| (e.0, mul_div_spec(e.1, SCALE as int, total)))
}

/// The seed vector: each root's share of the total seed weight.
pub open spec fn seed_of(roots: Seq<((crate::HashAlg, Seq<u8>), int)>, total: int) -> WTable
    decreases roots.len(),
{
    if roots.len() == 0 {
        Seq::empty()
    } else {
        let r = roots.last();
        add_at(seed_of(roots.drop_last(), total), cid_string(r.0), mul_div_spec(r.1, SCALE as int, total))
    }
}

/// The saturating sum of the root weights, in order.
pub open spec fn roots_total(roots: Seq<((crate::HashAlg, Seq<u8>), int)>) -> int
    decreases roots.len(),
{
    if roots.len() == 0 {
        0
    } else {
        clamp(roots_total(roots.drop_last()) + roots.last().1)
    }
}

/// Scale each seed weight by the complement of the damping, into `acc`.
pub open spec fn seed_part(acc: WTable, seed: WTable, complement: int) -> WTable
    decreases seed.len(),
{
    if seed.len() == 0 {
        acc
    } else {
        add_at(seed_part(acc, seed.drop_last(), complement), seed.last().0, times_spec(seed.last().1, complement))
    }
}

/// Spread one key's weight over its normalized targets, into `acc`.
pub open spec fn spread(acc: WTable, targets: WTable, share: int, damping: int) -> WTable
    decreases targets.len(),
{
    if targets.len() == 0 {
        acc
    } else {
        let t = targets.last();
        add_at(spread(acc, targets.drop_last(), share, damping), t.0, times_spec(times_spec(share, t.1), damping))
    }
}

/// Spread every key's weight, in key order, into `acc`.
pub open spec fn spread_all(acc: WTable, weights: WTable, es: Seq<FlatEdge>, damping: int) -> WTable
    decreases weights.len(),
{
    if weights.len() == 0 {
        acc
    } else {
        let w = weights.last();
        spread(spread_all(acc, weights.drop_last(), es, damping), normalize(targets_of(es, w.0)), w.1, damping)
    }
}

/// One iteration: `((10^6 - a) * R + a * (W . T)) / 10^6`.
pub open spec fn step(seed: WTable, es: Seq<FlatEdge>, weights: WTable, damping: int, complement: int) -> WTable {
    spread_all(seed_part(Seq::empty(), seed, complement), weights, es, damping)
}

/// The weights after `n` iterations.
pub open spec fn iterate(seed: WTable, es: Seq<FlatEdge>, damping: int, complement: int, n: nat) -> WTable
    decreases n,
{
    if n == 0 {
        seed
    } else {
        step(seed, es, iterate(seed, es, damping, complement, (n - 1) as nat), damping, complement)
    }
}

/// The entries of a table whose weight is not zero.
pub open spec fn nonzero(m: WTable) -> WTable
    decreases m.len(),
{
    if m.len() == 0 {
        Seq::empty()
    } else if m.last().1 == 0 {
        nonzero(m.drop_last())
    } else {
        nonzero(m.drop_last()).push(m.last())
    }
}

/// What [`propagate`] returns: the weights after exactly
/// `policy.iterations` iterations, keys that received none left out.
pub open spec fn propagation(policy: Policy, edges: Seq<TrustEdge>) -> WTable {
    let roots = policy@.roots;
    let seed = seed_of(roots, roots_total(roots));
    let es = flat_edges(policy.decay_half_life_days, edges);
    nonzero(
        iterate(seed, es, policy.damping@, clamp(SCALE - policy.damping@), policy.iterations as nat),
    )
}

/// The inputs on which [`propagate`] neither divides the least `i128` by
/// -1 nor overflows while decaying an edge. Weights that are not negative
/// always qualify for the divisions.
pub open spec fn propagatable(policy: Policy, edges: Seq<TrustEdge>) -> bool {
    let roots = policy@.roots;
    let total = roots_total(roots);
    let es = flat_edges(policy.decay_half_life_days, edges);
    &&& forall|i: int|
        0 <= i < roots.len() ==> !(clamp((#[trigger] roots[i]).1 * SCALE) == i128::MIN && total == -1)
    &&& forall|i: int|
        0 <= i < edges.len() ==> decay_defined(policy.decay_half_life_days, #[trigger] edges[i])
    &&& forall|i: int|
        0 <= i < es.len() ==> normalizable(targets_of(es, (#[trigger] es[i]).0))
}

/// Whether decaying an edge stays within `i128`.
pub open spec fn decay_defined(half_life: Option<u64>, e: TrustEdge) -> bool {
    match half_life {
        Some(h) => h != 0 && e.weight@ != 0 && e.age_days / h < 127 ==> i128::MIN
            <= crate::eval::fixed::halvings(e.weight@, (e.age_days / h) as nat) * (e.age_days % h)
            <= i128::MAX,
        None => true,
    }
}

/// Whether normalizing a table divides without overflow.
pub open spec fn normalizable(m: WTable) -> bool {
    forall|j: int| 0 <= j < m.len() ==> !(clamp((#[trigger] m[j]).1 * SCALE) == i128::MIN && table_sum(m) == -1)
}

/// The view of executable edges.
pub open spec fn flat_view(es: Seq<(String, String, Fixed6)>) -> Seq<FlatEdge> {
    es.map_values(|e: (String, String, Fixed6)| (e.0@, e.1@, e.2@))
}

/// A copy of a table.
fn table_copy(t: &Vec<(String, Fixed6)>) -> (r: Vec<(String, Fixed6)>)
    ensures
        table_view(r@) == table_view(t@),
{
    let mut out: Vec<(String, Fixed6)> = Vec::new();
    let mut i: usize = 0;
    while i < t.len()
        invariant
            i <= t.len(),
            out.len() == i,
            table_view(out@) == table_view(t@).take(i as int),
        decreases t.len() - i,
    {
        let ghost before = out@;
        out.push((copy_text(t[i].0.as_str()), t[i].1));
        proof {
            assert forall|k: int| 0 <= k < out.len() implies table_view(out@)[k] == table_view(t@).take(
                i + 1,
            )[k] by {
                if k < i {
                    assert(out@[k] == before[k]);
                    assert(table_view(before)[k] == table_view(t@).take(i as int)[k]);
                }
            }
        }
        i = i + 1;
        assert(table_view(out@) =~= table_view(t@).take(i as int));
    }
    assert(table_view(t@).take(t.len() as int) =~= table_view(t@));
    out
}

/// The weights `from` confers, edge by edge.
fn targets_for(es: &Vec<(String, String, Fixed6)>, from: &str) -> (r: Vec<(String, Fixed6)>)
    ensures
        table_view(r@) == targets_of(flat_view(es@), from@),
{
    let ghost fl = flat_view(es@);
    let mut out: Vec<(String, Fixed6)> = Vec::new();
    let mut i: usize = 0;
    assert(fl.take(0) =~= Seq::<FlatEdge>::empty());
    assert(table_view(out@) =~= Seq::<(Seq<char>, int)>::empty());
    while i < es.len()
        invariant
            i <= es.len(),
            fl == flat_view(es@),
            table_view(out@) == targets_of(fl.take(i as int), from@),
        decreases es.len() - i,
    {
        assert(fl.take(i + 1).drop_last() =~= fl.take(i as int));
        assert(fl.take(i + 1).last() == fl[i as int]);
        if text_eq(es[i].0.as_str(), from) {
            table_add(&mut out, es[i].1.as_str(), es[i].2);
        }
        i = i + 1;
    }
    assert(fl.take(es.len() as int) =~= fl);
    out
}

/// Normalize a table.
fn normalize_table(t: &Vec<(String, Fixed6)>) -> (r: Vec<(String, Fixed6)>)
    requires
        normalizable(table_view(t@)),
    ensures
        table_view(r@) == normalize(table_view(t@)),
{
    let ghost m = table_view(t@);
    let mut total = Fixed6::zero();
    let mut i: usize = 0;
    assert(m.take(0) =~= Seq::<(Seq<char>, int)>::empty());
    while i < t.len()
        invariant
            i <= t.len(),
            m == table_view(t@),
            total@ == table_sum(m.take(i as int)),
        decreases t.len() - i,
    {
        assert(m.take(i + 1).drop_last() =~= m.take(i as int));
        total = total + t[i].1;
        i = i + 1;
    }
    assert(m.take(t.len() as int) =~= m);
    let mut out: Vec<(String, Fixed6)> = Vec::new();
    let mut j: usize = 0;
    while j < t.len()
        invariant
            j <= t.len(),
            m == table_view(t@),
            total@ == table_sum(m),
            normalizable(m),
            out.len() == j,
            m.len() == t.len(),
            normalize(m).len() == m.len(),
            table_view(out@) == normalize(m).take(j as int),
        decreases t.len() - j,
    {
        assert(m[j as int] == (t@[j as int].0@, t@[j as int].1@));
        let share = t[j].1.mul_div(Fixed6::one(), total);
        let ghost before = out@;
        out.push((copy_text(t[j].0.as_str()), share));
        proof {
            assert forall|k: int| 0 <= k < out.len() implies table_view(out@)[k] == normalize(m).take(
                j + 1,
            )[k] by {
                if k < j {
                    assert(out@[k] == before[k]);
                    assert(table_view(before)[k] == normalize(m).take(j as int)[k]);
                }
            }
        }
        j = j + 1;
        assert(table_view(out@) =~= normalize(m).take(j as int));
    }
    assert(normalize(m).take(t.len() as int) =~= normalize(m));
    out
}

/// Run the propagation to a fixed iteration count.
///
/// `edges` need not be sorted; they are grouped deterministically here.
/// The result lists, in key order, every key left with nonzero weight;
/// keys that received none are absent rather than zero, so that "not
/// reached" is not mistaken for "reached with nothing".
pub fn propagate(policy: &Policy, edges: &[TrustEdge]) -> (r: Vec<(String, Fixed6)>)
    requires
        propagatable(*policy, edges@),
    ensures
        table_view(r@) == propagation(*policy, edges@),
{
    let ghost roots = policy@.roots;
    // Seed vector, normalized to 10^6 in total.
    let mut seed_total = Fixed6::zero();
    let mut i: usize = 0;
    assert(roots.take(0) =~= Seq::<((crate::HashAlg, Seq<u8>), int)>::empty());
    while i < policy.roots.len()
        invariant
            i <= policy.roots.len(),
            roots == policy@.roots,
            roots.len() == policy.roots.len(),
            seed_total@ == roots_total(roots.take(i as int)),
        decreases policy.roots.len() - i,
    {
        assert(roots.take(i + 1).drop_last() =~= roots.take(i as int));
        assert(roots[i as int] == root_view(policy.roots@[i as int]));
        seed_total = seed_total + policy.roots[i].weight;
        i = i + 1;
    }
    assert(roots.take(policy.roots.len() as int) =~= roots);
    let mut seed: Vec<(String, Fixed6)> = Vec::new();
    let mut i: usize = 0;
    assert(table_view(seed@) =~= Seq::<(Seq<char>, int)>::empty());
    while i < policy.roots.len()
        invariant
            i <= policy.roots.len(),
            roots == policy@.roots,
            roots.len() == policy.roots.len(),
            seed_total@ == roots_total(roots),
            propagatable(*policy, edges@),
            table_view(seed@) == seed_of(roots.take(i as int), roots_total(roots)),
        decreases policy.roots.len() - i,
    {
        assert(roots.take(i + 1).drop_last() =~= roots.take(i as int));
        assert(roots[i as int] == root_view(policy.roots@[i as int]));
        let share = policy.roots[i].weight.mul_div(Fixed6::one(), seed_total);
        let k = cid_to_string(&policy.roots[i].key);
        table_add(&mut seed, k.as_str(), share);
        i = i + 1;
    }
    assert(roots.take(policy.roots.len() as int) =~= roots);
    // Edges with decay applied before normalization, so that an old edge
    // confers less rather than merely ranking lower.
    let ghost fes = flat_edges(policy.decay_half_life_days, edges@);
    let mut es: Vec<(String, String, Fixed6)> = Vec::new();
    let mut i: usize = 0;
    while i < edges.len()
        invariant
            i <= edges.len(),
            propagatable(*policy, edges@),
            fes == flat_edges(policy.decay_half_life_days, edges@),
            fes.len() == edges.len(),
            es.len() == i,
            flat_view(es@) == fes.take(i as int),
        decreases edges.len() - i,
    {
        let edge = &edges[i];
        assert(decay_defined(policy.decay_half_life_days, edges@[i as int]));
        let weight = match policy.decay_half_life_days {
            Some(half_life) => edge.weight.halve_fractional(edge.age_days, half_life),
            None => edge.weight,
        };
        let ghost before = es@;
        es.push((copy_text(edge.from.as_str()), copy_text(edge.to.as_str()), weight));
        proof {
            assert forall|k: int| 0 <= k < es.len() implies #[trigger] flat_view(es@)[k] == fes.take(i + 1)[k] by {
                if k < i {
                    assert(es@[k] == before[k]);
                    assert(flat_view(before)[k]
                        == fes.take(i as int)[k]);
                }
            }
        }
        i = i + 1;
        assert(flat_view(es@) =~= fes.take(i as int));
    }
    assert(fes.take(edges.len() as int) =~= fes);
    let damping = policy.damping;
    let complement = Fixed6::from_scaled(SCALE) - damping;
    let ghost sv = table_view(seed@);
    let mut weights = table_copy(&seed);
    let mut it: u32 = 0;
    while it < policy.iterations
        invariant
            it <= policy.iterations,
            sv == table_view(seed@),
            propagatable(*policy, edges@),
            fes == flat_edges(policy.decay_half_life_days, edges@),
            flat_view(es@) == fes,
            damping == policy.damping,
            complement@ == clamp(SCALE - damping@),
            table_view(weights@) == iterate(sv, fes, damping@, complement@, it as nat),
        decreases policy.iterations - it,
    {
        weights = one_step(&seed, &es, &weights, damping, complement, Ghost(*policy), Ghost(edges@));
        it = it + 1;
    }
    keep_nonzero(&weights)
}

/// One iteration of the propagation.
fn one_step(
    seed: &Vec<(String, Fixed6)>,
    es: &Vec<(String, String, Fixed6)>,
    weights: &Vec<(String, Fixed6)>,
    damping: Fixed6,
    complement: Fixed6,
    Ghost(policy): Ghost<Policy>,
    Ghost(edges): Ghost<Seq<TrustEdge>>,
) -> (r: Vec<(String, Fixed6)>)
    requires
        propagatable(policy, edges),
        flat_view(es@) == flat_edges(
            policy.decay_half_life_days,
            edges,
        ),
    ensures
        table_view(r@) == step(
            table_view(seed@),
            flat_view(es@),
            table_view(weights@),
            damping@,
            complement@,
        ),
{
    let ghost fes = flat_view(es@);
    let ghost sv = table_view(seed@);
    let ghost wv = table_view(weights@);
    let mut next: Vec<(String, Fixed6)> = Vec::new();
    let mut i: usize = 0;
    assert(table_view(next@) =~= Seq::<(Seq<char>, int)>::empty());
    assert(sv.take(0) =~= Seq::<(Seq<char>, int)>::empty());
    while i < seed.len()
        invariant
            i <= seed.len(),
            sv == table_view(seed@),
            table_view(next@) == seed_part(Seq::empty(), sv.take(i as int), complement@),
        decreases seed.len() - i,
    {
        assert(sv.take(i + 1).drop_last() =~= sv.take(i as int));
        assert(sv[i as int] == (seed@[i as int].0@, seed@[i as int].1@));
        let share = seed[i].1.times(complement);
        table_add(&mut next, seed[i].0.as_str(), share);
        i = i + 1;
    }
    assert(sv.take(seed.len() as int) =~= sv);
    let ghost base = table_view(next@);
    let mut i: usize = 0;
    assert(wv.take(0) =~= Seq::<(Seq<char>, int)>::empty());
    while i < weights.len()
        invariant
            i <= weights.len(),
            wv == table_view(weights@),
            fes == flat_view(es@),
            fes == flat_edges(policy.decay_half_life_days, edges),
            propagatable(policy, edges),
            table_view(next@) == spread_all(base, wv.take(i as int), fes, damping@),
        decreases weights.len() - i,
    {
        assert(wv.take(i + 1).drop_last() =~= wv.take(i as int));
        assert(wv[i as int] == (weights@[i as int].0@, weights@[i as int].1@));
        let raw = targets_for(es, weights[i].0.as_str());
        proof {
            lemma_targets_normalizable(policy, edges, fes, weights@[i as int].0@);
        }
        let targets = normalize_table(&raw);
        let share = weights[i].1;
        let ghost tv = table_view(targets@);
        let ghost before = table_view(next@);
        let mut j: usize = 0;
        assert(tv.take(0) =~= Seq::<(Seq<char>, int)>::empty());
        while j < targets.len()
            invariant
                j <= targets.len(),
                tv == table_view(targets@),
                table_view(next@) == spread(before, tv.take(j as int), share@, damping@),
            decreases targets.len() - j,
        {
            assert(tv.take(j + 1).drop_last() =~= tv.take(j as int));
            assert(tv[j as int] == (targets@[j as int].0@, targets@[j as int].1@));
            let contribution = share.times(targets[j].1).times(damping);
            table_add(&mut next, targets[j].0.as_str(), contribution);
            j = j + 1;
        }
        assert(tv.take(targets.len() as int) =~= tv);
        i = i + 1;
    }
    assert(wv.take(weights.len() as int) =~= wv);
    next
}

/// The targets of any key are normalizable: either the key has edges, and
/// the requirement names them, or it has none and there is nothing to
/// divide.
proof fn lemma_targets_normalizable(policy: Policy, edges: Seq<TrustEdge>, fes: Seq<FlatEdge>, from: Seq<char>)
    requires
        propagatable(policy, edges),
        fes == flat_edges(policy.decay_half_life_days, edges),
    ensures
        normalizable(targets_of(fes, from)),
{
    if exists|i: int| 0 <= i < fes.len() && fes[i].0 == from {
        let i = choose|i: int| 0 <= i < fes.len() && fes[i].0 == from;
        assert(normalizable(targets_of(fes, fes[i].0)));
    } else {
        lemma_targets_absent(fes, from);
    }
}

/// A key with no edges confers nothing.
proof fn lemma_targets_absent(es: Seq<FlatEdge>, from: Seq<char>)
    requires
        forall|i: int| 0 <= i < es.len() ==> es[i].0 != from,
    ensures
        targets_of(es, from) == Seq::<(Seq<char>, int)>::empty(),
    decreases es.len(),
{
    if es.len() > 0 {
        lemma_targets_absent(es.drop_last(), from);
    }
}

/// The entries whose weight is not zero.
fn keep_nonzero(t: &Vec<(String, Fixed6)>) -> (r: Vec<(String, Fixed6)>)
    ensures
        table_view(r@) == nonzero(table_view(t@)),
{
    let ghost m = table_view(t@);
    let mut out: Vec<(String, Fixed6)> = Vec::new();
    let mut i: usize = 0;
    assert(m.take(0) =~= Seq::<(Seq<char>, int)>::empty());
    assert(table_view(out@) =~= Seq::<(Seq<char>, int)>::empty());
    while i < t.len()
        invariant
            i <= t.len(),
            m == table_view(t@),
            table_view(out@) == nonzero(m.take(i as int)),
        decreases t.len() - i,
    {
        assert(m.take(i + 1).drop_last() =~= m.take(i as int));
        assert(m[i as int] == (t@[i as int].0@, t@[i as int].1@));
        if !t[i].1.is_zero() {
            let ghost before = table_view(out@);
            out.push((copy_text(t[i].0.as_str()), t[i].1));
            assert(table_view(out@) =~= before.push(m[i as int]));
        }
        i = i + 1;
    }
    assert(m.take(t.len() as int) =~= m);
    out
}

/// Whether some edge joins `a` and `b`, in either direction.
pub open spec fn adjacent(edges: Seq<TrustEdge>, a: Seq<char>, b: Seq<char>) -> bool {
    exists|i: int|
        0 <= i < edges.len() && (((#[trigger] edges[i]).from@ == a && edges[i].to@ == b) || (edges[i].to@ == a
            && edges[i].from@ == b))
}

/// A set widened by one step: everything it holds, and everything joined
/// to something it holds.
pub open spec fn widen(edges: Seq<TrustEdge>, s: Set<Seq<char>>) -> Set<Seq<char>> {
    s.union(Set::new(|b: Seq<char>| exists|a: Seq<char>| s.contains(a) && #[trigger] adjacent(edges, a, b)))
}

/// The keys within `d` steps of `start`, edges taken in either direction.
pub open spec fn within(edges: Seq<TrustEdge>, start: Seq<char>, d: nat) -> Set<Seq<char>>
    decreases d,
{
    if d == 0 {
        Set::empty().insert(start)
    } else {
        widen(edges, within(edges, start, (d - 1) as nat))
    }
}

/// Once a step adds nothing, no further step does.
proof fn lemma_within_fixed(edges: Seq<TrustEdge>, start: Seq<char>, k: nat, d: nat)
    requires
        k <= d,
        widen(edges, within(edges, start, k)) == within(edges, start, k),
    ensures
        within(edges, start, d) == within(edges, start, k),
    decreases d - k,
{
    if d > k {
        lemma_within_fixed(edges, start, k, (d - 1) as nat);
    }
}

/// Whether one of the first `e` edges joins `x` to a member of `s`.
pub open spec fn joined_before(edges: Seq<TrustEdge>, s: Set<Seq<char>>, x: Seq<char>, e: int) -> bool {
    exists|j: int| 0 <= j < e && #[trigger] joins(edges[j], s, x)
}

/// Whether edge `t` joins `x` to a member of `s`.
pub open spec fn joins(t: TrustEdge, s: Set<Seq<char>>, x: Seq<char>) -> bool {
    (s.contains(t.from@) && t.to@ == x) || (s.contains(t.to@) && t.from@ == x)
}

/// Widen a set by one step, reporting whether it grew.
fn widen_set(edges: &[TrustEdge], set: &Table<bool>) -> (r: (Table<bool>, bool))
    ensures
        r.0.map().dom() == widen(edges@, set.map().dom()),
        r.1 == (r.0.map().dom() != set.map().dom()),
{
    let ghost s = set.map().dom();
    let keys = set.keys();
    let mut next: Table<bool> = Table::new();
    let mut i: usize = 0;
    while i < keys.len()
        invariant
            i <= keys.len(),
            s == set.map().dom(),
            forall|x: Seq<char>|
                #![trigger set.map().dom().contains(x)]
                (exists|j: int| 0 <= j < keys.len() && (#[trigger] keys@[j])@ == x) <==> set.map().dom().contains(x),
            forall|x: Seq<char>| next.map().dom().contains(x) <==> exists|j: int| 0 <= j < i && (#[trigger] keys@[j])@ == x,
        decreases keys.len() - i,
    {
        next.put(copy_text(keys[i].as_str()), true);
        i = i + 1;
    }
    assert(next.map().dom() =~= s);
    let mut grew = false;
    let mut e: usize = 0;
    while e < edges.len()
        invariant
            e <= edges.len(),
            s == set.map().dom(),
            forall|x: Seq<char>|
                #[trigger] next.map().dom().contains(x) <==> (s.contains(x) || joined_before(edges@, s, x, e as int)),
            grew <==> exists|x: Seq<char>| #[trigger] next.map().dom().contains(x) && !s.contains(x),
        decreases edges.len() - e,
    {
        let ghost before = next.map().dom();
        let ghost grew_before = grew;
        let from = edges[e].from.as_str();
        let to = edges[e].to.as_str();
        if set.get(from).is_some() {
            if next.get(to).is_none() {
                if set.get(to).is_none() {
                    grew = true;
                }
                next.put(copy_text(to), true);
            }
        }
        if set.get(to).is_some() {
            if next.get(from).is_none() {
                if set.get(from).is_none() {
                    grew = true;
                }
                next.put(copy_text(from), true);
            }
        }
        proof {
            assert forall|x: Seq<char>|
                #[trigger] next.map().dom().contains(x) <==> (s.contains(x) || joined_before(
                    edges@,
                    s,
                    x,
                    e + 1,
                )) by {
                if joined_before(edges@, s, x, e + 1) {
                    let j = choose|j: int| 0 <= j < e + 1 && #[trigger] joins(edges@[j], s, x);
                    if j < e {
                        assert(joined_before(edges@, s, x, e as int));
                        assert(before.contains(x));
                    }
                }
                if next.map().dom().contains(x) && !before.contains(x) {
                    assert(joins(edges@[e as int], s, x));
                }
                if before.contains(x) && !s.contains(x) {
                    let j = choose|j: int| 0 <= j < e && #[trigger] joins(edges@[j], s, x);
                    assert(joins(edges@[j], s, x));
                }
            }
            if grew {
                if grew_before {
                    let x = choose|x: Seq<char>| #[trigger] before.contains(x) && !s.contains(x);
                    assert(next.map().dom().contains(x));
                } else if next.map().dom().contains(to@) && !s.contains(to@) {
                } else {
                    assert(next.map().dom().contains(from@) && !s.contains(from@));
                }
            } else {
                assert forall|x: Seq<char>| #[trigger] next.map().dom().contains(x) implies s.contains(x) by {
                    if !before.contains(x) {
                        assert(x == to@ || x == from@);
                    }
                }
            }
        }
        e = e + 1;
    }
    proof {
        assert forall|x: Seq<char>| next.map().dom().contains(x) <==> widen(edges@, s).contains(x) by {
            if next.map().dom().contains(x) && !s.contains(x) {
                let j = choose|j: int| 0 <= j < edges.len() && #[trigger] joins(edges@[j], s, x);
                if s.contains(edges@[j].from@) && edges@[j].to@ == x {
                    assert(adjacent(edges@, edges@[j].from@, x));
                } else {
                    assert(adjacent(edges@, edges@[j].to@, x));
                }
            }
            if widen(edges@, s).contains(x) && !s.contains(x) {
                let a = choose|a: Seq<char>| s.contains(a) && #[trigger] adjacent(edges@, a, x);
                let j = choose|j: int|
                    0 <= j < edges@.len() && (((#[trigger] edges@[j]).from@ == a && edges@[j].to@ == x) || (
                    edges@[j].to@ == a && edges@[j].from@ == x));
                assert(joins(edges@[j], s, x));
                assert(joined_before(edges@, s, x, edges.len() as int));
            }
        }
        assert(next.map().dom() =~= widen(edges@, s));
        if !grew {
            assert(next.map().dom() =~= s);
        } else {
            let x = choose|x: Seq<char>| #[trigger] next.map().dom().contains(x) && !s.contains(x);
        }
    }
    (next, grew)
}

/// Keys within `distance` steps of `start`, edges taken in either
/// direction, for independence checks; in ascending order.
pub fn reachable_within(policy: &Policy, edges: &[TrustEdge], start: &str, distance: u32) -> (r: Vec<String>)
    ensures
        ascending_keys(r@),
        forall|x: Seq<char>| keys_view(r@).contains(x) <==> within(edges@, start@, distance as nat).contains(x),
{
    let mut set: Table<bool> = Table::new();
    set.put(copy_text(start), true);
    assert(set.map().dom() =~= within(edges@, start@, 0));
    let mut k: u32 = 0;
    while k < distance
        invariant
            k <= distance,
            set.map().dom() == within(edges@, start@, k as nat),
        ensures
            set.map().dom() == within(edges@, start@, distance as nat),
        decreases distance - k,
    {
        let (next, grew) = widen_set(edges, &set);
        if !grew {
            proof {
                lemma_within_fixed(edges@, start@, k as nat, distance as nat);
            }
            break;
        }
        set = next;
        k = k + 1;
    }
    let r = set.keys();
    proof {
        assert forall|x: Seq<char>| keys_view(r@).contains(x) <==> within(edges@, start@, distance as nat).contains(x) by {
            if keys_view(r@).contains(x) {
                let i = choose|i: int| 0 <= i < keys_view(r@).len() && keys_view(r@)[i] == x;
                assert(r@[i]@ == x);
            }
            if set.map().dom().contains(x) {
                let i = choose|i: int| 0 <= i < r.len() && (#[trigger] r@[i])@ == x;
                assert(keys_view(r@)[i] == x);
            }
        }
    }
    r
}

/// `v` halved `n` times by the machine.
fn halvings_of(v: i128, n: u64) -> (r: i128)
    ensures
        r == crate::eval::fixed::halvings(v as int, n as nat),
{
    let mut x = v;
    let mut k: u64 = 0;
    while k < n
        invariant
            k <= n,
            x == crate::eval::fixed::halvings(v as int, k as nat),
        decreases n - k,
    {
        x = crate::eval::fixed::div_trunc(x, 2);
        k = k + 1;
    }
    x
}

/// Whether decaying one edge stays within `i128`.
fn decay_fits(half_life: Option<u64>, e: &TrustEdge) -> (r: bool)
    ensures
        r == decay_defined(half_life, *e),
{
    match half_life {
        Some(h) => {
            if h != 0 && e.weight.to_scaled() != 0 && e.age_days / h < 127 {
                let halved = halvings_of(e.weight.to_scaled(), e.age_days / h);
                let rest = (e.age_days % h) as i128;
                halved.checked_mul(rest).is_some()
            } else {
                true
            }
        },
        None => true,
    }
}

/// Whether normalizing a table divides without overflow.
fn table_normalizable(t: &Vec<(String, Fixed6)>) -> (r: bool)
    ensures
        r == normalizable(table_view(t@)),
{
    let ghost m = table_view(t@);
    let mut total = Fixed6::zero();
    let mut i: usize = 0;
    assert(m.take(0) =~= Seq::<(Seq<char>, int)>::empty());
    while i < t.len()
        invariant
            i <= t.len(),
            m == table_view(t@),
            total@ == table_sum(m.take(i as int)),
        decreases t.len() - i,
    {
        assert(m.take(i + 1).drop_last() =~= m.take(i as int));
        total = total + t[i].1;
        i = i + 1;
    }
    assert(m.take(t.len() as int) =~= m);
    if total.to_scaled() != -1 {
        return true;
    }
    let mut j: usize = 0;
    while j < t.len()
        invariant
            j <= t.len(),
            m == table_view(t@),
            table_sum(m) == -1,
            forall|k: int| 0 <= k < j ==> clamp((#[trigger] m[k]).1 * SCALE) != i128::MIN,
        decreases t.len() - j,
    {
        assert(m[j as int].1 == t@[j as int].1@);
        if crate::eval::fixed::sat_mul(t[j].1.to_scaled(), SCALE) == i128::MIN {
            return false;
        }
        j = j + 1;
    }
    true
}

/// Whether [`propagate`] can run on these inputs: the check its
/// precondition names, made by the machine.
pub fn check_propagatable(policy: &Policy, edges: &[TrustEdge]) -> (r: bool)
    ensures
        r == propagatable(*policy, edges@),
{
    let ghost roots = policy@.roots;
    let mut total = Fixed6::zero();
    let mut i: usize = 0;
    assert(roots.take(0) =~= Seq::<((crate::HashAlg, Seq<u8>), int)>::empty());
    while i < policy.roots.len()
        invariant
            i <= policy.roots.len(),
            roots == policy@.roots,
            roots.len() == policy.roots.len(),
            total@ == roots_total(roots.take(i as int)),
        decreases policy.roots.len() - i,
    {
        assert(roots.take(i + 1).drop_last() =~= roots.take(i as int));
        assert(roots[i as int] == root_view(policy.roots@[i as int]));
        total = total + policy.roots[i].weight;
        i = i + 1;
    }
    assert(roots.take(policy.roots.len() as int) =~= roots);
    let mut i: usize = 0;
    while i < policy.roots.len()
        invariant
            i <= policy.roots.len(),
            roots == policy@.roots,
            roots.len() == policy.roots.len(),
            total@ == roots_total(roots),
            forall|k: int| 0 <= k < i ==> !(clamp((#[trigger] roots[k]).1 * SCALE) == i128::MIN && total@ == -1),
        decreases policy.roots.len() - i,
    {
        assert(roots[i as int] == root_view(policy.roots@[i as int]));
        if total.to_scaled() == -1 && crate::eval::fixed::sat_mul(policy.roots[i].weight.to_scaled(), SCALE)
            == i128::MIN {
            return false;
        }
        i = i + 1;
    }
    let half_life = policy.decay_half_life_days;
    let mut i: usize = 0;
    while i < edges.len()
        invariant
            i <= edges.len(),
            half_life == policy.decay_half_life_days,
            forall|k: int| 0 <= k < i ==> decay_defined(half_life, #[trigger] edges@[k]),
            total@ == roots_total(policy@.roots),
            forall|k: int|
                0 <= k < policy@.roots.len() ==> !(clamp((#[trigger] policy@.roots[k]).1 * SCALE) == i128::MIN
                    && total@ == -1),
        decreases edges.len() - i,
    {
        if !decay_fits(half_life, &edges[i]) {
            return false;
        }
        i = i + 1;
    }
    let ghost fes = flat_edges(half_life, edges@);
    let mut es: Vec<(String, String, Fixed6)> = Vec::new();
    let mut i: usize = 0;
    while i < edges.len()
        invariant
            i <= edges.len(),
            half_life == policy.decay_half_life_days,
            forall|k: int| 0 <= k < edges.len() ==> decay_defined(half_life, #[trigger] edges@[k]),
            fes == flat_edges(half_life, edges@),
            fes.len() == edges.len(),
            es.len() == i,
            flat_view(es@) == fes.take(i as int),
            total@ == roots_total(policy@.roots),
            forall|k: int|
                0 <= k < policy@.roots.len() ==> !(clamp((#[trigger] policy@.roots[k]).1 * SCALE) == i128::MIN
                    && total@ == -1),
        decreases edges.len() - i,
    {
        let edge = &edges[i];
        assert(decay_defined(half_life, edges@[i as int]));
        let weight = match half_life {
            Some(h) => edge.weight.halve_fractional(edge.age_days, h),
            None => edge.weight,
        };
        let ghost before = es@;
        es.push((copy_text(edge.from.as_str()), copy_text(edge.to.as_str()), weight));
        proof {
            assert forall|k: int| 0 <= k < es.len() implies #[trigger] flat_view(es@)[k] == fes.take(i + 1)[k] by {
                if k < i {
                    assert(es@[k] == before[k]);
                    assert(flat_view(before)[k] == fes.take(i as int)[k]);
                }
            }
        }
        i = i + 1;
        assert(flat_view(es@) =~= fes.take(i as int));
    }
    assert(fes.take(edges.len() as int) =~= fes);
    let mut i: usize = 0;
    while i < es.len()
        invariant
            i <= es.len(),
            flat_view(es@) == fes,
            fes.len() == es.len(),
            fes == flat_edges(policy.decay_half_life_days, edges@),
            forall|k: int| 0 <= k < edges.len() ==> decay_defined(policy.decay_half_life_days, #[trigger] edges@[k]),
            total@ == roots_total(policy@.roots),
            forall|k: int|
                0 <= k < policy@.roots.len() ==> !(clamp((#[trigger] policy@.roots[k]).1 * SCALE) == i128::MIN
                    && total@ == -1),
            forall|k: int| 0 <= k < i ==> normalizable(targets_of(fes, (#[trigger] fes[k]).0)),
        decreases es.len() - i,
    {
        assert(fes[i as int].0 == es@[i as int].0@);
        let targets = targets_for(&es, es[i].0.as_str());
        if !table_normalizable(&targets) {
            assert(!normalizable(targets_of(fes, fes[i as int].0)));
            assert(fes == flat_edges(policy.decay_half_life_days, edges@));
            return false;
        }
        i = i + 1;
    }
    true
}

/// The trust edges as links from the key conferring trust to the key
/// receiving it.
pub open spec fn trust_links(edges: Seq<TrustEdge>) -> Seq<(Seq<char>, Seq<char>)> {
    edges.map_values(|e: TrustEdge| (e.from@, e.to@))
}

/// Whether some root vouches for `k`, directly or through a chain of
/// trust edges.
pub open spec fn vouched(policy: Policy, edges: Seq<TrustEdge>, k: Seq<char>) -> bool {
    exists|i: int|
        0 <= i < policy@.roots.len() && crate::graph::closure::reach(
            trust_links(edges),
            cid_string((#[trigger] policy@.roots[i]).0),
            k,
        )
}

/// Whether every key of a table is in `s`.
pub open spec fn keys_in(m: WTable, s: Set<Seq<char>>) -> bool {
    forall|j: int| 0 <= j < m.len() ==> s.contains(#[trigger] m[j].0)
}

proof fn lemma_add_at_in(m: WTable, k: Seq<char>, v: int, s: Set<Seq<char>>)
    requires
        keys_in(m, s),
        s.contains(k),
    ensures
        keys_in(add_at(m, k, v), s),
    decreases m.len(),
{
    let r = add_at(m, k, v);
    if m.len() == 0 {
    } else if m[0].0 == k {
        assert forall|j: int| 0 <= j < r.len() implies s.contains(#[trigger] r[j].0) by {
            if j > 0 {
                assert(r[j] == m.drop_first()[j - 1]);
                assert(m.drop_first()[j - 1] == m[j]);
            }
        }
    } else if key_before(k, m[0].0) {
        assert forall|j: int| 0 <= j < r.len() implies s.contains(#[trigger] r[j].0) by {
            if j > 0 {
                assert(r[j] == m[j - 1]);
            }
        }
    } else {
        assert forall|j: int| 0 <= j < m.drop_first().len() implies s.contains(#[trigger] m.drop_first()[j].0) by {
            assert(m.drop_first()[j] == m[j + 1]);
        }
        lemma_add_at_in(m.drop_first(), k, v, s);
        let rest = add_at(m.drop_first(), k, v);
        assert forall|j: int| 0 <= j < r.len() implies s.contains(#[trigger] r[j].0) by {
            if j > 0 {
                assert(r[j] == rest[j - 1]);
            }
        }
    }
}

proof fn lemma_seed_in(roots: Seq<((crate::HashAlg, Seq<u8>), int)>, total: int, s: Set<Seq<char>>)
    requires
        forall|i: int| 0 <= i < roots.len() ==> s.contains(cid_string((#[trigger] roots[i]).0)),
    ensures
        keys_in(seed_of(roots, total), s),
    decreases roots.len(),
{
    if roots.len() > 0 {
        assert forall|i: int| 0 <= i < roots.drop_last().len() implies s.contains(
            cid_string((#[trigger] roots.drop_last()[i]).0),
        ) by {
            assert(roots.drop_last()[i] == roots[i]);
        }
        lemma_seed_in(roots.drop_last(), total, s);
        assert(s.contains(cid_string(roots[roots.len() - 1].0)));
        lemma_add_at_in(
            seed_of(roots.drop_last(), total),
            cid_string(roots.last().0),
            mul_div_spec(roots.last().1, SCALE as int, total),
            s,
        );
    }
}

proof fn lemma_prefix_in(m: WTable, s: Set<Seq<char>>)
    requires
        keys_in(m, s),
        m.len() > 0,
    ensures
        keys_in(m.drop_last(), s),
        s.contains(m.last().0),
{
    assert forall|j: int| 0 <= j < m.drop_last().len() implies s.contains(#[trigger] m.drop_last()[j].0) by {
        assert(m.drop_last()[j] == m[j]);
    }
    assert(m.last() == m[m.len() - 1]);
}

proof fn lemma_seed_part_in(acc: WTable, seed: WTable, complement: int, s: Set<Seq<char>>)
    requires
        keys_in(acc, s),
        keys_in(seed, s),
    ensures
        keys_in(seed_part(acc, seed, complement), s),
    decreases seed.len(),
{
    if seed.len() > 0 {
        lemma_prefix_in(seed, s);
        lemma_seed_part_in(acc, seed.drop_last(), complement, s);
        lemma_add_at_in(
            seed_part(acc, seed.drop_last(), complement),
            seed.last().0,
            times_spec(seed.last().1, complement),
            s,
        );
    }
}

proof fn lemma_targets_in(es: Seq<FlatEdge>, from: Seq<char>, s: Set<Seq<char>>)
    requires
        forall|i: int| 0 <= i < es.len() && (#[trigger] es[i]).0 == from ==> s.contains(es[i].1),
    ensures
        keys_in(targets_of(es, from), s),
    decreases es.len(),
{
    if es.len() > 0 {
        assert forall|i: int| 0 <= i < es.drop_last().len() && (#[trigger] es.drop_last()[i]).0 == from implies s.contains(
            es.drop_last()[i].1,
        ) by {
            assert(es.drop_last()[i] == es[i]);
        }
        lemma_targets_in(es.drop_last(), from, s);
        let e = es.last();
        assert(e == es[es.len() - 1]);
        if e.0 == from {
            lemma_add_at_in(targets_of(es.drop_last(), from), e.1, e.2, s);
        }
    }
}

proof fn lemma_spread_in(acc: WTable, targets: WTable, share: int, damping: int, s: Set<Seq<char>>)
    requires
        keys_in(acc, s),
        keys_in(targets, s),
    ensures
        keys_in(spread(acc, targets, share, damping), s),
    decreases targets.len(),
{
    if targets.len() > 0 {
        lemma_prefix_in(targets, s);
        lemma_spread_in(acc, targets.drop_last(), share, damping, s);
        let t = targets.last();
        lemma_add_at_in(
            spread(acc, targets.drop_last(), share, damping),
            t.0,
            times_spec(times_spec(share, t.1), damping),
            s,
        );
    }
}

proof fn lemma_spread_all_in(acc: WTable, weights: WTable, es: Seq<FlatEdge>, damping: int, s: Set<Seq<char>>)
    requires
        keys_in(acc, s),
        keys_in(weights, s),
        forall|i: int| 0 <= i < es.len() && s.contains((#[trigger] es[i]).0) ==> s.contains(es[i].1),
    ensures
        keys_in(spread_all(acc, weights, es, damping), s),
    decreases weights.len(),
{
    if weights.len() > 0 {
        lemma_prefix_in(weights, s);
        lemma_spread_all_in(acc, weights.drop_last(), es, damping, s);
        let w = weights.last();
        lemma_targets_in(es, w.0, s);
        let ts = targets_of(es, w.0);
        assert forall|j: int| 0 <= j < normalize(ts).len() implies s.contains(#[trigger] normalize(ts)[j].0) by {
            assert(normalize(ts)[j].0 == ts[j].0);
        }
        lemma_spread_in(spread_all(acc, weights.drop_last(), es, damping), normalize(ts), w.1, damping, s);
    }
}

proof fn lemma_iterate_in(seed: WTable, es: Seq<FlatEdge>, damping: int, complement: int, n: nat, s: Set<Seq<char>>)
    requires
        keys_in(seed, s),
        forall|i: int| 0 <= i < es.len() && s.contains((#[trigger] es[i]).0) ==> s.contains(es[i].1),
    ensures
        keys_in(iterate(seed, es, damping, complement, n), s),
    decreases n,
{
    if n > 0 {
        lemma_iterate_in(seed, es, damping, complement, (n - 1) as nat, s);
        lemma_seed_part_in(Seq::empty(), seed, complement, s);
        lemma_spread_all_in(
            seed_part(Seq::empty(), seed, complement),
            iterate(seed, es, damping, complement, (n - 1) as nat),
            es,
            damping,
            s,
        );
    }
}

proof fn lemma_nonzero_in(m: WTable, s: Set<Seq<char>>)
    requires
        keys_in(m, s),
    ensures
        keys_in(nonzero(m), s),
    decreases m.len(),
{
    if m.len() > 0 {
        lemma_prefix_in(m, s);
        lemma_nonzero_in(m.drop_last(), s);
        let r = nonzero(m);
        if m.last().1 != 0 {
            assert forall|j: int| 0 <= j < r.len() implies s.contains(#[trigger] r[j].0) by {
                if j < r.len() - 1 {
                    assert(r[j] == nonzero(m.drop_last())[j]);
                }
            }
        }
    }
}

proof fn lemma_absent(m: WTable, k: Seq<char>, s: Set<Seq<char>>)
    requires
        keys_in(m, s),
        !s.contains(k),
    ensures
        table_get(m, k) is None,
    decreases m.len(),
{
    if m.len() > 0 {
        assert forall|j: int| 0 <= j < m.drop_first().len() implies s.contains(#[trigger] m.drop_first()[j].0) by {
            assert(m.drop_first()[j] == m[j + 1]);
        }
        assert(s.contains(m[0].0));
        lemma_absent(m.drop_first(), k, s);
    }
}

/// A key that no root vouches for, directly or through a chain of trust
/// edges, receives no weight: however many keys an adversary creates and
/// however they vouch for one another, a subgraph no root reaches stays
/// weightless.
pub proof fn law_unvouched_receive_nothing(policy: Policy, edges: Seq<TrustEdge>, k: Seq<char>)
    requires
        !vouched(policy, edges, k),
    ensures
        table_get(propagation(policy, edges), k) is None,
{
    let s = Set::new(|x: Seq<char>| vouched(policy, edges, x));
    let roots = policy@.roots;
    let es = flat_edges(policy.decay_half_life_days, edges);
    let ls = trust_links(edges);
    assert forall|i: int| 0 <= i < roots.len() implies s.contains(cid_string((#[trigger] roots[i]).0)) by {
        crate::graph::closure::lemma_reach_self(ls, cid_string(roots[i].0));
    }
    assert forall|i: int| 0 <= i < es.len() && s.contains((#[trigger] es[i]).0) implies s.contains(es[i].1) by {
        let r = choose|r: int|
            0 <= r < roots.len() && crate::graph::closure::reach(ls, cid_string((#[trigger] roots[r]).0), es[i].0);
        assert(ls[i] == (es[i].0, es[i].1));
        assert(crate::graph::closure::linked(ls, es[i].0, es[i].1));
        crate::graph::closure::lemma_reach_step(ls, cid_string(roots[r].0), es[i].0, es[i].1);
    }
    lemma_seed_in(roots, roots_total(roots), s);
    lemma_iterate_in(
        seed_of(roots, roots_total(roots)),
        es,
        policy.damping@,
        clamp(SCALE - policy.damping@),
        policy.iterations as nat,
        s,
    );
    lemma_nonzero_in(
        iterate(
            seed_of(roots, roots_total(roots)),
            es,
            policy.damping@,
            clamp(SCALE - policy.damping@),
            policy.iterations as nat,
        ),
        s,
    );
    lemma_absent(propagation(policy, edges), k, s);
}

/// The exact sum of a table's weights.
pub open spec fn plain_sum(m: WTable) -> int
    decreases m.len(),
{
    if m.len() == 0 {
        0
    } else {
        plain_sum(m.drop_last()) + m.last().1
    }
}

/// The exact sum of each weight's share of `total`.
pub open spec fn shares_sum(m: WTable, total: int) -> int
    decreases m.len(),
{
    if m.len() == 0 {
        0
    } else {
        shares_sum(m.drop_last(), total) + mul_div_spec(m.last().1, SCALE as int, total)
    }
}

/// Whether every weight of a table is not negative.
pub open spec fn nonnegative(m: WTable) -> bool {
    forall|j: int| 0 <= j < m.len() ==> 0 <= #[trigger] m[j].1
}

proof fn lemma_plain_sum_bounds(m: WTable)
    requires
        nonnegative(m),
    ensures
        plain_sum(m) >= 0,
        forall|j: int| 0 <= j < m.len() ==> #[trigger] m[j].1 <= plain_sum(m),
    decreases m.len(),
{
    if m.len() > 0 {
        assert(nonnegative(m.drop_last())) by {
            assert forall|j: int| 0 <= j < m.drop_last().len() implies 0 <= #[trigger] m.drop_last()[j].1 by {
                assert(m.drop_last()[j] == m[j]);
            }
        }
        lemma_plain_sum_bounds(m.drop_last());
        assert(m.last() == m[m.len() - 1]);
        assert forall|j: int| 0 <= j < m.len() implies #[trigger] m[j].1 <= plain_sum(m) by {
            if j < m.len() - 1 {
                assert(m.drop_last()[j] == m[j]);
            }
        }
    }
}

/// Without saturation the saturating sum is the exact one.
proof fn lemma_table_sum_exact(m: WTable)
    requires
        nonnegative(m),
        plain_sum(m) <= i128::MAX,
    ensures
        table_sum(m) == plain_sum(m),
    decreases m.len(),
{
    if m.len() > 0 {
        assert(nonnegative(m.drop_last())) by {
            assert forall|j: int| 0 <= j < m.drop_last().len() implies 0 <= #[trigger] m.drop_last()[j].1 by {
                assert(m.drop_last()[j] == m[j]);
            }
        }
        lemma_plain_sum_bounds(m.drop_last());
        assert(m.last() == m[m.len() - 1]);
        lemma_table_sum_exact(m.drop_last());
    }
}

/// Each share, times the total, is at most the weight times the whole.
proof fn lemma_shares_bound(m: WTable, total: int)
    requires
        nonnegative(m),
        total > 0,
        plain_sum(m) * SCALE <= i128::MAX,
    ensures
        shares_sum(m, total) * total <= plain_sum(m) * SCALE,
        shares_sum(m, total) >= 0,
    decreases m.len(),
{
    if m.len() > 0 {
        assert(nonnegative(m.drop_last())) by {
            assert forall|j: int| 0 <= j < m.drop_last().len() implies 0 <= #[trigger] m.drop_last()[j].1 by {
                assert(m.drop_last()[j] == m[j]);
            }
        }
        lemma_plain_sum_bounds(m);
        lemma_plain_sum_bounds(m.drop_last());
        assert(m.last() == m[m.len() - 1]);
        let v = m.last().1;
        let p = plain_sum(m.drop_last());
        assert(p * SCALE <= i128::MAX) by (nonlinear_arith)
            requires
                0 <= p,
                0 <= v,
                (p + v) * 1_000_000 <= i128::MAX,
        ;
        lemma_shares_bound(m.drop_last(), total);
        assert(v * SCALE <= i128::MAX) by (nonlinear_arith)
            requires
                0 <= p,
                0 <= v,
                (p + v) * 1_000_000 <= i128::MAX,
        ;
        assert(clamp(v * SCALE) == v * SCALE) by (nonlinear_arith)
            requires
                0 <= v,
                v * 1_000_000 <= i128::MAX,
        ;
        let q = (v * SCALE) / total;
        assert(tdiv(v * SCALE, total) == q) by (nonlinear_arith)
            requires
                0 <= v,
                total > 0,
                q == (v * 1_000_000) / total,
        ;
        assert(q * total <= v * SCALE && q >= 0) by (nonlinear_arith)
            requires
                0 <= v,
                total > 0,
                q == (v * 1_000_000) / total,
        ;
        let s = shares_sum(m.drop_last(), total);
        assert((s + q) * total <= (p + v) * SCALE) by (nonlinear_arith)
            requires
                s * total <= p * 1_000_000,
                q * total <= v * 1_000_000,
        ;
    }
}

proof fn lemma_normalize_shares(m: WTable, total: int, n: int)
    requires
        0 <= n <= m.len(),
    ensures
        plain_sum(m.map_values(|e: (Seq<char>, int)| (e.0, mul_div_spec(e.1, SCALE as int, total))).take(n))
            == shares_sum(m.take(n), total),
    decreases n,
{
    let nm = m.map_values(|e: (Seq<char>, int)| (e.0, mul_div_spec(e.1, SCALE as int, total)));
    if n > 0 {
        lemma_normalize_shares(m, total, n - 1);
        assert(nm.take(n).drop_last() =~= nm.take(n - 1));
        assert(m.take(n).drop_last() =~= m.take(n - 1));
        assert(nm.take(n).last() == nm[n - 1]);
        assert(m.take(n).last() == m[n - 1]);
    } else {
        assert(nm.take(0) =~= Seq::<(Seq<char>, int)>::empty());
        assert(m.take(0) =~= Seq::<(Seq<char>, int)>::empty());
    }
}

/// However many keys a key vouches for, the shares it confers on them add
/// up to at most the whole: vouching for more keys divides a key's trust
/// rather than multiplying it. This holds of weights that are not negative
/// and sum, scaled, without leaving `i128`.
pub proof fn law_shares_sum_to_at_most_one(m: WTable)
    requires
        nonnegative(m),
        plain_sum(m) * SCALE <= i128::MAX,
    ensures
        plain_sum(normalize(m)) <= SCALE,
{
    lemma_plain_sum_bounds(m);
    assert(plain_sum(m) <= i128::MAX) by (nonlinear_arith)
        requires
            plain_sum(m) >= 0,
            plain_sum(m) * 1_000_000 <= i128::MAX,
    ;
    lemma_table_sum_exact(m);
    let total = table_sum(m);
    lemma_normalize_shares(m, total, m.len() as int);
    assert(m.take(m.len() as int) =~= m);
    let nm = m.map_values(|e: (Seq<char>, int)| (e.0, mul_div_spec(e.1, SCALE as int, total)));
    assert(nm.take(m.len() as int) =~= nm);
    assert(normalize(m) == nm);
    if total == 0 {
        assert forall|k: int| 0 <= k <= m.len() implies #[trigger] shares_sum(m.take(k), 0) == 0 by {
            lemma_shares_zero(m, k);
        }
    } else {
        lemma_shares_bound(m, total);
        let s = shares_sum(m, total);
        assert(s <= SCALE) by (nonlinear_arith)
            requires
                s * total <= total * 1_000_000,
                total > 0,
        ;
    }
}

/// Of two edges declared with one weight that is not negative, the older
/// confers no more after decay, whatever the policy's half-life.
pub proof fn law_older_edge_confers_less(half_life: Option<u64>, e1: TrustEdge, e2: TrustEdge)
    requires
        e1.weight@ == e2.weight@,
        e1.weight@ >= 0,
        e1.age_days <= e2.age_days,
    ensures
        decayed(half_life, e2) <= decayed(half_life, e1),
{
    if let Some(h) = half_life {
        crate::eval::fixed::law_decay_older_confers_less(e1.weight@, e1.age_days as nat, e2.age_days as nat, h as nat);
    }
}

/// Vouching for one more key never raises the share any other key gets:
/// a key's trust is divided among more. This holds of weights that are
/// not negative and sum, scaled, without leaving `i128`.
pub proof fn law_more_keys_smaller_shares(m: WTable, k: Seq<char>, w: int, j: int)
    requires
        nonnegative(m),
        0 <= w,
        (plain_sum(m) + w) * SCALE <= i128::MAX,
        0 <= j < m.len(),
    ensures
        normalize(m.push((k, w)))[j].1 <= normalize(m)[j].1,
{
    let m2 = m.push((k, w));
    assert(m2.drop_last() =~= m);
    assert(nonnegative(m2)) by {
        assert forall|i: int| 0 <= i < m2.len() implies 0 <= #[trigger] m2[i].1 by {
            if i < m.len() {
                assert(m2[i] == m[i]);
            }
        }
    }
    lemma_plain_sum_bounds(m);
    lemma_plain_sum_bounds(m2);
    assert(plain_sum(m2) == plain_sum(m) + w);
    assert(plain_sum(m2) <= i128::MAX) by (nonlinear_arith)
        requires
            plain_sum(m2) >= 0,
            plain_sum(m2) * 1_000_000 <= i128::MAX,
    ;
    lemma_table_sum_exact(m);
    lemma_table_sum_exact(m2);
    let total = plain_sum(m);
    let total2 = plain_sum(m2);
    let v = m[j].1;
    assert(m2[j] == m[j]);
    assert(0 <= v <= total);
    assert(v * SCALE <= i128::MAX) by (nonlinear_arith)
        requires
            0 <= v <= total,
            0 <= w,
            (total + w) * 1_000_000 <= i128::MAX,
    ;
    assert(clamp(v * SCALE) == v * SCALE);
    if total == 0 {
        assert(v == 0);
        if total2 != 0 {
            vstd::arithmetic::div_mod::lemma_div_of0(total2);
            assert(tdiv(0, total2) == 0);
        }
    } else {
        let a = v * SCALE;
        assert(tdiv(a, total) == a / total);
        assert(tdiv(a, total2) == a / total2);
        vstd::arithmetic::div_mod::lemma_div_is_ordered_by_denominator(a, total, total2);
    }
}

proof fn lemma_shares_zero(m: WTable, k: int)
    requires
        0 <= k <= m.len(),
    ensures
        shares_sum(m.take(k), 0) == 0,
    decreases k,
{
    if k > 0 {
        lemma_shares_zero(m, k - 1);
        assert(m.take(k).drop_last() =~= m.take(k - 1));
    }
}

/// The plain sum of the declared root weights.
pub open spec fn root_weight_sum(roots: Seq<((crate::HashAlg, Seq<u8>), int)>) -> int
    decreases roots.len(),
{
    if roots.len() == 0 {
        0
    } else {
        root_weight_sum(roots.drop_last()) + roots.last().1
    }
}

/// Whether no two roots share a key.
pub open spec fn distinct_roots(roots: Seq<((crate::HashAlg, Seq<u8>), int)>) -> bool {
    forall|a: int, b: int| 0 <= a < b < roots.len() ==> cid_string(#[trigger] roots[a].0) != cid_string(#[trigger] roots[b].0)
}

proof fn lemma_root_sum_bounds(roots: Seq<((crate::HashAlg, Seq<u8>), int)>)
    requires
        forall|j: int| 0 <= j < roots.len() ==> 0 <= #[trigger] roots[j].1,
        root_weight_sum(roots) <= i128::MAX,
    ensures
        roots_total(roots) == root_weight_sum(roots),
        forall|j: int| 0 <= j < roots.len() ==> #[trigger] roots[j].1 <= root_weight_sum(roots),
        0 <= root_weight_sum(roots),
    decreases roots.len(),
{
    if roots.len() > 0 {
        let r = roots.drop_last();
        assert forall|j: int| 0 <= j < r.len() implies 0 <= #[trigger] r[j].1 by {
            assert(r[j] == roots[j]);
        }
        assert(0 <= roots.last().1);
        assert(root_weight_sum(r) <= root_weight_sum(roots)) by {
            assert(root_weight_sum(roots) == root_weight_sum(r) + roots.last().1);
        }
        lemma_root_sum_bounds(r);
        assert forall|j: int| 0 <= j < roots.len() implies #[trigger] roots[j].1 <= root_weight_sum(roots) by {
            if j < r.len() {
                assert(r[j] == roots[j]);
            }
        }
    }
}

proof fn lemma_seed_get(roots: Seq<((crate::HashAlg, Seq<u8>), int)>, total: int)
    requires
        distinct_roots(roots),
    ensures
        ascending_table(seed_of(roots, total)),
        forall|i: int|
            0 <= i < roots.len() ==> table_get(seed_of(roots, total), cid_string(#[trigger] roots[i].0)) == Some(
                clamp(mul_div_spec(roots[i].1, SCALE as int, total)),
            ),
        forall|x: Seq<char>|
            (forall|i: int| 0 <= i < roots.len() ==> cid_string(#[trigger] roots[i].0) != x) ==> table_get(
                seed_of(roots, total),
                x,
            ) is None,
    decreases roots.len(),
{
    if roots.len() > 0 {
        let r = roots.drop_last();
        assert forall|a: int, b: int| 0 <= a < b < r.len() implies cid_string(#[trigger] r[a].0) != cid_string(
            #[trigger] r[b].0,
        ) by {
            assert(r[a] == roots[a] && r[b] == roots[b]);
        }
        lemma_seed_get(r, total);
        let prev = seed_of(r, total);
        let k = cid_string(roots.last().0);
        let v = mul_div_spec(roots.last().1, SCALE as int, total);
        lemma_add_at_get(prev, k, v);
        assert forall|i: int| 0 <= i < r.len() implies cid_string(#[trigger] r[i].0) != k by {
            assert(r[i] == roots[i]);
            assert(cid_string(roots[i].0) != cid_string(roots[roots.len() - 1].0));
        }
        assert(table_get(prev, k) is None);
        assert(get_or_zero(prev, k) == 0);
        assert forall|i: int| 0 <= i < roots.len() implies table_get(seed_of(roots, total), cid_string(
            #[trigger] roots[i].0,
        )) == Some(clamp(mul_div_spec(roots[i].1, SCALE as int, total))) by {
            if i < r.len() {
                assert(r[i] == roots[i]);
                assert(cid_string(roots[i].0) != k);
            }
        }
        assert forall|x: Seq<char>|
            (forall|i: int| 0 <= i < roots.len() ==> cid_string(#[trigger] roots[i].0) != x) implies table_get(
            seed_of(roots, total),
            x,
        ) is None by {
            assert(cid_string(roots[roots.len() - 1].0) != x);
            assert forall|i: int| 0 <= i < r.len() implies cid_string(#[trigger] r[i].0) != x by {
                assert(r[i] == roots[i]);
            }
        }
    }
}

/// The seed is each root's declared weight over the sum of all of them:
/// a root declared with weight `w` starts with `w * 10^6 / sum` and no
/// other key starts with anything, so the seeds add up to at most one and
/// stand in the ratio of the declared weights. This holds of roots with
/// distinct keys and weights that are not negative, whose sum, scaled,
/// stays within `i128`.
pub proof fn law_seeds_follow_root_weights(roots: Seq<((crate::HashAlg, Seq<u8>), int)>, x: Seq<char>)
    requires
        distinct_roots(roots),
        forall|j: int| 0 <= j < roots.len() ==> 0 <= #[trigger] roots[j].1,
        0 < root_weight_sum(roots),
        root_weight_sum(roots) * 1_000_000 <= i128::MAX,
    ensures
        forall|i: int|
            0 <= i < roots.len() ==> table_get(seed_of(roots, roots_total(roots)), cid_string(#[trigger] roots[i].0))
                == Some(roots[i].1 * 1_000_000 / root_weight_sum(roots)),
        (forall|i: int| 0 <= i < roots.len() ==> cid_string(#[trigger] roots[i].0) != x) ==> table_get(
            seed_of(roots, roots_total(roots)),
            x,
        ) is None,
{
    let sum = root_weight_sum(roots);
    assert(sum <= i128::MAX) by (nonlinear_arith)
        requires
            0 < sum,
            sum * 1_000_000 <= i128::MAX,
    ;
    lemma_root_sum_bounds(roots);
    lemma_seed_get(roots, sum);
    assert forall|i: int| 0 <= i < roots.len() implies table_get(seed_of(roots, roots_total(roots)), cid_string(
        #[trigger] roots[i].0,
    )) == Some(roots[i].1 * 1_000_000 / sum) by {
        let w = roots[i].1;
        assert(0 <= w <= sum);
        assert(0 <= w * 1_000_000 <= sum * 1_000_000) by (nonlinear_arith)
            requires
                0 <= w <= sum,
        ;
        assert(clamp(w * SCALE) == w * SCALE);
        assert(tdiv(w * SCALE, sum) == w * 1_000_000 / sum);
        assert(0 <= w * 1_000_000 / sum <= w * 1_000_000) by (nonlinear_arith)
            requires
                0 <= w * 1_000_000,
                0 < sum,
        ;
        assert(clamp(w * 1_000_000 / sum) == w * 1_000_000 / sum);
    }
}

proof fn lemma_ascending_drop_last(m: WTable)
    requires
        ascending_table(m),
        m.len() > 0,
    ensures
        ascending_table(m.drop_last()),
        forall|j: int| 0 <= j < m.len() - 1 ==> key_before(#[trigger] m.drop_last()[j].0, m.last().0),
{
    let d = m.drop_last();
    assert forall|i: int, j: int| 0 <= i < j < d.len() implies key_before(#[trigger] d[i].0, #[trigger] d[j].0) by {
        assert(d[i] == m[i] && d[j] == m[j]);
    }
    assert forall|j: int| 0 <= j < m.len() - 1 implies key_before(#[trigger] d[j].0, m.last().0) by {
        assert(d[j] == m[j]);
        assert(m.last() == m[m.len() - 1]);
    }
}

/// Looking a key up in a table with one more entry at its end.
proof fn lemma_get_push(m: WTable, e: (Seq<char>, int), x: Seq<char>)
    ensures
        table_get(m.push(e), x) == (if table_get(m, x) is Some {
            table_get(m, x)
        } else if e.0 == x {
            Some(e.1)
        } else {
            None
        }),
    decreases m.len(),
{
    if m.len() > 0 {
        assert(m.push(e)[0] == m[0]);
        assert(m.push(e).drop_first() =~= m.drop_first().push(e));
        lemma_get_push(m.drop_first(), e, x);
    } else {
        assert(m.push(e)[0] == e);
        assert(m.push(e).drop_first() =~= Seq::<(Seq<char>, int)>::empty());
        assert(table_get(m.push(e).drop_first(), x) is None);
    }
}

/// A key after every key of a table is not in it.
proof fn lemma_get_above(m: WTable, k: Seq<char>)
    requires
        forall|j: int| 0 <= j < m.len() ==> key_before(#[trigger] m[j].0, k),
    ensures
        table_get(m, k) is None,
    decreases m.len(),
{
    if m.len() > 0 {
        crate::eval::order::lemma_key_order(m[0].0, k);
        let t = m.drop_first();
        assert forall|j: int| 0 <= j < t.len() implies key_before(#[trigger] t[j].0, k) by {
            assert(t[j] == m[j + 1]);
        }
        lemma_get_above(t, k);
    }
}

/// Scaling an ascending table's weights by the complement of the damping
/// scales each key's weight alone.
proof fn lemma_seed_part_get(seed: WTable, complement: int)
    requires
        ascending_table(seed),
    ensures
        ascending_table(seed_part(Seq::empty(), seed, complement)),
        forall|x: Seq<char>|
            #[trigger] table_get(seed_part(Seq::empty(), seed, complement), x) == match table_get(seed, x) {
                Some(w) => Some(clamp(times_spec(w, complement))),
                None => None::<int>,
            },
    decreases seed.len(),
{
    if seed.len() > 0 {
        let d = seed.drop_last();
        let e = seed.last();
        lemma_ascending_drop_last(seed);
        lemma_seed_part_get(d, complement);
        let prev = seed_part(Seq::empty(), d, complement);
        lemma_add_at_get(prev, e.0, times_spec(e.1, complement));
        lemma_get_above(d, e.0);
        assert(d.push(e) =~= seed);
        assert forall|x: Seq<char>|
            #[trigger] table_get(seed_part(Seq::empty(), seed, complement), x) == match table_get(seed, x) {
                Some(w) => Some(clamp(times_spec(w, complement))),
                None => None::<int>,
            } by {
            lemma_get_push(d, e, x);
        }
    }
}

/// Dropping the zero weights of an ascending table.
proof fn lemma_nonzero_get(m: WTable)
    requires
        ascending_table(m),
    ensures
        forall|x: Seq<char>|
            #[trigger] table_get(nonzero(m), x) == (if table_get(m, x) == Some(0int) {
                None
            } else {
                table_get(m, x)
            }),
    decreases m.len(),
{
    if m.len() > 0 {
        let d = m.drop_last();
        let e = m.last();
        lemma_ascending_drop_last(m);
        lemma_nonzero_get(d);
        lemma_get_above(d, e.0);
        assert(d.push(e) =~= m);
        assert forall|x: Seq<char>|
            #[trigger] table_get(nonzero(m), x) == (if table_get(m, x) == Some(0int) {
                None
            } else {
                table_get(m, x)
            }) by {
            lemma_get_push(d, e, x);
            lemma_get_push(nonzero(d), e, x);
        }
    }
}

proof fn lemma_spread_nothing(acc: WTable, weights: WTable, damping: int)
    ensures
        spread_all(acc, weights, Seq::<FlatEdge>::empty(), damping) == acc,
    decreases weights.len(),
{
    if weights.len() > 0 {
        lemma_spread_nothing(acc, weights.drop_last(), damping);
        let t = targets_of(Seq::<FlatEdge>::empty(), weights.last().0);
        assert(t =~= Seq::<(Seq<char>, int)>::empty());
        assert(normalize(t) =~= Seq::<(Seq<char>, int)>::empty());
    }
}

proof fn lemma_iterate_nothing(seed: WTable, damping: int, complement: int, n: nat)
    requires
        n >= 1,
    ensures
        iterate(seed, Seq::<FlatEdge>::empty(), damping, complement, n) == seed_part(Seq::empty(), seed, complement),
{
    let prev = iterate(seed, Seq::<FlatEdge>::empty(), damping, complement, (n - 1) as nat);
    lemma_spread_nothing(seed_part(Seq::empty(), seed, complement), prev, damping);
}

/// With no trust edges, each root keeps exactly its seed share, damped:
/// a root declared with weight `w` ends with `(w * 10^6 / sum) * (10^6 -
/// damping) / 10^6`, left out when that is zero, and no other key
/// receives anything. This holds of roots with distinct keys and weights
/// that are not negative, whose sum, scaled, stays within `i128`, of a
/// damping between zero and one, and of at least one iteration.
pub proof fn law_roots_alone_keep_their_share(policy: Policy, x: Seq<char>)
    requires
        distinct_roots(policy@.roots),
        forall|j: int| 0 <= j < policy@.roots.len() ==> 0 <= #[trigger] policy@.roots[j].1,
        0 < root_weight_sum(policy@.roots),
        root_weight_sum(policy@.roots) * 1_000_000 <= i128::MAX,
        0 <= policy.damping@ <= 1_000_000,
        policy.iterations >= 1,
    ensures
        forall|i: int|
            0 <= i < policy@.roots.len() ==> #[trigger] table_get(
                propagation(policy, Seq::empty()),
                cid_string(policy@.roots[i].0),
            ) == ({
                let share = policy@.roots[i].1 * 1_000_000 / root_weight_sum(policy@.roots);
                let kept = share * (1_000_000 - policy.damping@) / 1_000_000;
                if kept == 0 {
                    None
                } else {
                    Some(kept)
                }
            }),
        (forall|i: int| 0 <= i < policy@.roots.len() ==> cid_string(#[trigger] policy@.roots[i].0) != x) ==> table_get(
            propagation(policy, Seq::empty()),
            x,
        ) is None,
{
    let roots = policy@.roots;
    let sum = root_weight_sum(roots);
    let seed = seed_of(roots, roots_total(roots));
    let c = clamp(SCALE - policy.damping@);
    assert(c == 1_000_000 - policy.damping@);
    law_seeds_follow_root_weights(roots, x);
    lemma_root_sum_bounds(roots);
    assert(sum <= i128::MAX) by (nonlinear_arith)
        requires
            0 < sum,
            sum * 1_000_000 <= i128::MAX,
    ;
    lemma_seed_get(roots, roots_total(roots));
    let es = flat_edges(policy.decay_half_life_days, Seq::<TrustEdge>::empty());
    assert(es =~= Seq::<FlatEdge>::empty());
    lemma_iterate_nothing(seed, policy.damping@, c, policy.iterations as nat);
    lemma_seed_part_get(seed, c);
    let sp = seed_part(Seq::empty(), seed, c);
    lemma_nonzero_get(sp);
    assert(propagation(policy, Seq::empty()) == nonzero(sp));
    assert forall|i: int|
        0 <= i < roots.len() implies #[trigger] table_get(propagation(policy, Seq::empty()), cid_string(roots[i].0)) == ({
            let share = roots[i].1 * 1_000_000 / sum;
            let kept = share * (1_000_000 - policy.damping@) / 1_000_000;
            if kept == 0 {
                None
            } else {
                Some(kept)
            }
        }) by {
        let w = roots[i].1;
        let share = w * 1_000_000 / sum;
        assert(table_get(seed, cid_string(roots[i].0)) == Some(share));
        assert(0 <= w <= sum);
        assert(0 <= share <= 1_000_000) by (nonlinear_arith)
            requires
                0 <= w <= sum,
                0 < sum,
                share == w * 1_000_000 / sum,
        ;
        assert(0 <= share * c <= 1_000_000 * 1_000_000) by (nonlinear_arith)
            requires
                0 <= share <= 1_000_000,
                0 <= c <= 1_000_000,
        ;
        assert(clamp(share * c) == share * c);
        assert(tdiv(share * c, SCALE as int) == share * c / 1_000_000);
        assert(0 <= share * c / 1_000_000 <= 1_000_000) by (nonlinear_arith)
            requires
                0 <= share * c <= 1_000_000 * 1_000_000,
        ;
        assert(clamp(times_spec(share, c)) == share * c / 1_000_000);
    }
}

} // verus!
