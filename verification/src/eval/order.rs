//! Why the order in which trust edges arrive does not matter.
//!
//! Every edge from one key adds its weight to a table kept in key order,
//! and adding weights that are not negative saturates at the same total
//! whichever comes first. So any rearrangement of the edges builds the
//! same tables, and the propagation over them gives every key the same
//! weight.

use crate::cbor::{lemma_lex_irrefl, lemma_lex_total, lemma_lex_trans};
use crate::eval::fixed::{clamp, law_decay_never_raises};
use crate::eval::propagate::{
    decayed, flat_edges, iterate, nonnegative, normalize, propagation, spread, spread_all, step, targets_of,
    FlatEdge, TrustEdge,
};
use crate::eval::policy::Policy;
use crate::eval::wmap::{add_at, key_before, WTable};
use vstd::prelude::*;
use vstd::utf8::*;

verus! {

broadcast use vstd::utf8::group_utf8_lib;

pub(crate) proof fn lemma_key_order(a: Seq<char>, b: Seq<char>)
    ensures
        !key_before(a, a),
        key_before(a, b) ==> !key_before(b, a),
        a != b ==> key_before(a, b) || key_before(b, a),
{
    lemma_lex_irrefl(encode_utf8(a));
    if key_before(a, b) && key_before(b, a) {
        lemma_lex_trans(encode_utf8(a), encode_utf8(b), encode_utf8(a));
    }
    if a != b {
        assert(decode_utf8(encode_utf8(a)) == a);
        assert(decode_utf8(encode_utf8(b)) == b);
        lemma_lex_total(encode_utf8(a), encode_utf8(b));
    }
}

pub(crate) proof fn lemma_key_trans(a: Seq<char>, b: Seq<char>, c: Seq<char>)
    requires
        key_before(a, b),
        key_before(b, c),
    ensures
        key_before(a, c),
{
    lemma_lex_trans(encode_utf8(a), encode_utf8(b), encode_utf8(c));
}

/// Adding weights that are not negative keeps a table's weights so.
proof fn lemma_add_at_nonneg(m: WTable, k: Seq<char>, v: int)
    requires
        nonnegative(m),
        v >= 0,
    ensures
        nonnegative(add_at(m, k, v)),
    decreases m.len(),
{
    let r = add_at(m, k, v);
    if m.len() == 0 {
    } else if m[0].0 == k {
        assert forall|j: int| 0 <= j < r.len() implies 0 <= #[trigger] r[j].1 by {
            if j > 0 {
                assert(r[j] == m[j]);
            }
        }
    } else if key_before(k, m[0].0) {
        assert forall|j: int| 0 <= j < r.len() implies 0 <= #[trigger] r[j].1 by {
            if j > 0 {
                assert(r[j] == m[j - 1]);
            }
        }
    } else {
        let t = m.drop_first();
        assert(nonnegative(t)) by {
            assert forall|j: int| 0 <= j < t.len() implies 0 <= #[trigger] t[j].1 by {
                assert(t[j] == m[j + 1]);
            }
        }
        lemma_add_at_nonneg(t, k, v);
        let rest = add_at(t, k, v);
        assert forall|j: int| 0 <= j < r.len() implies 0 <= #[trigger] r[j].1 by {
            if j > 0 {
                assert(r[j] == rest[j - 1]);
            }
        }
    }
}

/// Saturating sums of weights that are not negative do not depend on
/// order.
proof fn lemma_clamp_commute(x: int, v1: int, v2: int)
    requires
        x >= 0,
        v1 >= 0,
        v2 >= 0,
    ensures
        clamp(clamp(x + v1) + v2) == clamp(clamp(x + v2) + v1),
{
}

/// The first entry and the rest of a table that begins with `x`.
proof fn lemma_cons(x: (Seq<char>, int), t: WTable)
    ensures
        (seq![x] + t)[0] == x,
        (seq![x] + t).drop_first() == t,
        (seq![x] + t).len() == t.len() + 1,
{
    assert((seq![x] + t).drop_first() =~= t);
}

/// Two additions of weights that are not negative commute.
proof fn lemma_add_at_commute(m: WTable, k1: Seq<char>, v1: int, k2: Seq<char>, v2: int)
    requires
        nonnegative(m),
        v1 >= 0,
        v2 >= 0,
    ensures
        add_at(add_at(m, k1, v1), k2, v2) == add_at(add_at(m, k2, v2), k1, v1),
    decreases m.len(),
{
    lemma_key_order(k1, k2);
    lemma_key_order(k2, k1);
    if m.len() == 0 {
        let a1 = (k1, clamp(v1));
        let a2 = (k2, clamp(v2));
        lemma_cons(a1, Seq::empty());
        lemma_cons(a2, Seq::empty());
        if k1 == k2 {
            lemma_clamp_commute(0, v1, v2);
        } else if key_before(k2, k1) {
            assert(add_at(seq![a2], k1, v1) == seq![a2] + add_at(Seq::<(Seq<char>, int)>::empty(), k1, v1));
            assert(seq![a2] + seq![a1] =~= seq![a2, a1]);
        } else {
            assert(add_at(seq![a1], k2, v2) == seq![a1] + add_at(Seq::<(Seq<char>, int)>::empty(), k2, v2));
            assert(seq![a1] + seq![a2] =~= seq![a1, a2]);
        }
    } else {
        let h = m[0];
        let t = m.drop_first();
        assert(m =~= seq![h] + t);
        assert(nonnegative(t)) by {
            assert forall|j: int| 0 <= j < t.len() implies 0 <= #[trigger] t[j].1 by {
                assert(t[j] == m[j + 1]);
            }
        }
        assert(h.1 >= 0);
        lemma_key_order(k1, h.0);
        lemma_key_order(k2, h.0);
        lemma_key_order(h.0, k1);
        lemma_key_order(h.0, k2);
        if k1 == k2 {
            if h.0 == k1 {
                let x1 = (k1, clamp(h.1 + v1));
                let x2 = (k1, clamp(h.1 + v2));
                lemma_cons(x1, t);
                lemma_cons(x2, t);
                lemma_clamp_commute(h.1, v1, v2);
            } else if key_before(k1, h.0) {
                let x1 = (k1, clamp(v1));
                let x2 = (k1, clamp(v2));
                lemma_cons(x1, m);
                lemma_cons(x2, m);
                lemma_clamp_commute(0, v1, v2);
            } else {
                lemma_cons(h, add_at(t, k1, v1));
                lemma_cons(h, add_at(t, k2, v2));
                lemma_add_at_commute(t, k1, v1, k2, v2);
            }
        } else {
            let l1 = add_at(m, k1, v1);
            let l2 = add_at(m, k2, v2);
            if h.0 == k1 {
                let x1 = (k1, clamp(h.1 + v1));
                assert(l1 == seq![x1] + t);
                lemma_cons(x1, t);
                if key_before(k2, h.0) {
                    let y2 = (k2, clamp(v2));
                    assert(l2 == seq![y2] + m);
                    lemma_cons(y2, m);
                    assert(add_at(l1, k2, v2) == seq![y2] + l1);
                    assert(add_at(l2, k1, v1) == seq![y2] + add_at(m, k1, v1));
                } else {
                    assert(l2 == seq![h] + add_at(t, k2, v2));
                    lemma_cons(h, add_at(t, k2, v2));
                    assert(add_at(l1, k2, v2) == seq![x1] + add_at(t, k2, v2));
                    lemma_cons(x1, add_at(t, k2, v2));
                }
            } else if h.0 == k2 {
                let x2 = (k2, clamp(h.1 + v2));
                assert(l2 == seq![x2] + t);
                lemma_cons(x2, t);
                if key_before(k1, h.0) {
                    let y1 = (k1, clamp(v1));
                    assert(l1 == seq![y1] + m);
                    lemma_cons(y1, m);
                    assert(add_at(l2, k1, v1) == seq![y1] + l2);
                    assert(add_at(l1, k2, v2) == seq![y1] + add_at(m, k2, v2));
                } else {
                    assert(l1 == seq![h] + add_at(t, k1, v1));
                    lemma_cons(h, add_at(t, k1, v1));
                    assert(add_at(l2, k1, v1) == seq![x2] + add_at(t, k1, v1));
                    lemma_cons(x2, add_at(t, k1, v1));
                }
            } else if key_before(k1, h.0) && key_before(k2, h.0) {
                let y1 = (k1, clamp(v1));
                let y2 = (k2, clamp(v2));
                assert(l1 == seq![y1] + m);
                assert(l2 == seq![y2] + m);
                lemma_cons(y1, m);
                lemma_cons(y2, m);
                if key_before(k2, k1) {
                    assert(add_at(l1, k2, v2) == seq![y2] + l1);
                    assert(add_at(l2, k1, v1) == seq![y2] + add_at(m, k1, v1));
                } else {
                    assert(add_at(l1, k2, v2) == seq![y1] + add_at(m, k2, v2));
                    assert(add_at(l2, k1, v1) == seq![y1] + l2);
                }
            } else if key_before(k1, h.0) {
                let y1 = (k1, clamp(v1));
                assert(l1 == seq![y1] + m);
                lemma_cons(y1, m);
                assert(key_before(h.0, k2));
                lemma_key_trans(k1, h.0, k2);
                assert(l2 == seq![h] + add_at(t, k2, v2));
                lemma_cons(h, add_at(t, k2, v2));
                assert(add_at(l1, k2, v2) == seq![y1] + add_at(m, k2, v2));
                assert(add_at(l2, k1, v1) == seq![y1] + l2);
            } else if key_before(k2, h.0) {
                let y2 = (k2, clamp(v2));
                assert(l2 == seq![y2] + m);
                lemma_cons(y2, m);
                assert(key_before(h.0, k1));
                lemma_key_trans(k2, h.0, k1);
                assert(l1 == seq![h] + add_at(t, k1, v1));
                lemma_cons(h, add_at(t, k1, v1));
                assert(add_at(l2, k1, v1) == seq![y2] + add_at(m, k1, v1));
                assert(add_at(l1, k2, v2) == seq![y2] + l1);
            } else {
                assert(l1 == seq![h] + add_at(t, k1, v1));
                assert(l2 == seq![h] + add_at(t, k2, v2));
                lemma_cons(h, add_at(t, k1, v1));
                lemma_cons(h, add_at(t, k2, v2));
                lemma_add_at_commute(t, k1, v1, k2, v2);
                assert(add_at(l1, k2, v2) == seq![h] + add_at(add_at(t, k1, v1), k2, v2));
                assert(add_at(l2, k1, v1) == seq![h] + add_at(add_at(t, k2, v2), k1, v1));
            }
        }
    }
}

/// What one edge adds to the table of the key `from`.
pub open spec fn add_edge(acc: WTable, e: FlatEdge, from: Seq<char>) -> WTable {
    if e.0 == from {
        add_at(acc, e.1, e.2)
    } else {
        acc
    }
}

/// Whether every edge confers a weight that is not negative.
pub open spec fn edges_nonneg(es: Seq<FlatEdge>) -> bool {
    forall|i: int| 0 <= i < es.len() ==> 0 <= #[trigger] es[i].2
}

proof fn lemma_targets_nonneg(es: Seq<FlatEdge>, from: Seq<char>)
    requires
        edges_nonneg(es),
    ensures
        nonnegative(targets_of(es, from)),
    decreases es.len(),
{
    if es.len() > 0 {
        assert(edges_nonneg(es.drop_last())) by {
            assert forall|i: int| 0 <= i < es.drop_last().len() implies 0 <= #[trigger] es.drop_last()[i].2 by {
                assert(es.drop_last()[i] == es[i]);
            }
        }
        lemma_targets_nonneg(es.drop_last(), from);
        assert(es.last() == es[es.len() - 1]);
        if es.last().0 == from {
            lemma_add_at_nonneg(targets_of(es.drop_last(), from), es.last().1, es.last().2);
        }
    }
}

/// Applying one edge last gives the table of all the edges.
proof fn lemma_move(es: Seq<FlatEdge>, j: int, from: Seq<char>)
    requires
        edges_nonneg(es),
        0 <= j < es.len(),
    ensures
        targets_of(es, from) == add_edge(targets_of(es.remove(j), from), es[j], from),
    decreases es.len(),
{
    if j == es.len() - 1 {
        assert(es.remove(j) =~= es.drop_last());
    } else {
        let d = es.drop_last();
        assert(edges_nonneg(d)) by {
            assert forall|i: int| 0 <= i < d.len() implies 0 <= #[trigger] d[i].2 by {
                assert(d[i] == es[i]);
            }
        }
        assert(d[j] == es[j]);
        lemma_move(d, j, from);
        let rest = d.remove(j);
        assert(es.remove(j).drop_last() =~= rest);
        assert(es.remove(j).last() == es.last());
        assert(edges_nonneg(rest)) by {
            assert forall|i: int| 0 <= i < rest.len() implies 0 <= #[trigger] rest[i].2 by {
                if i < j {
                    assert(rest[i] == es[i]);
                } else {
                    assert(rest[i] == es[i + 1]);
                }
            }
        }
        lemma_targets_nonneg(rest, from);
        let base = targets_of(rest, from);
        let a = es[j];
        let b = es.last();
        assert(b == es[es.len() - 1]);
        if a.0 == from && b.0 == from {
            lemma_add_at_commute(base, a.1, a.2, b.1, b.2);
        }
    }
}

/// The edges as the propagation sees them, one edge dropped.
proof fn lemma_flat_remove(h: Option<u64>, es: Seq<TrustEdge>, j: int)
    requires
        0 <= j < es.len(),
    ensures
        flat_edges(h, es.remove(j)) == flat_edges(h, es).remove(j),
        flat_edges(h, es.drop_last()) == flat_edges(h, es).drop_last(),
        flat_edges(h, es)[j] == (es[j].from@, es[j].to@, decayed(h, es[j])),
{
    assert(flat_edges(h, es.remove(j)) =~= flat_edges(h, es).remove(j));
    assert(flat_edges(h, es.drop_last()) =~= flat_edges(h, es).drop_last());
}

/// Edges whose declared weights are not negative confer weights that are
/// not.
proof fn lemma_flat_nonneg(h: Option<u64>, es: Seq<TrustEdge>)
    requires
        forall|i: int| 0 <= i < es.len() ==> 0 <= (#[trigger] es[i]).weight@,
    ensures
        edges_nonneg(flat_edges(h, es)),
{
    assert forall|i: int| 0 <= i < flat_edges(h, es).len() implies 0 <= #[trigger] flat_edges(h, es)[i].2 by {
        let e = es[i];
        match h {
            Some(x) => {
                law_decay_never_raises(e.weight@, e.age_days as nat, x as nat);
            },
            None => {},
        }
    }
}

/// Rearranged edges build every key's table alike.
proof fn lemma_targets_permute(h: Option<u64>, e1: Seq<TrustEdge>, e2: Seq<TrustEdge>, from: Seq<char>)
    requires
        e1.to_multiset() == e2.to_multiset(),
        forall|i: int| 0 <= i < e1.len() ==> 0 <= (#[trigger] e1[i]).weight@,
        forall|i: int| 0 <= i < e2.len() ==> 0 <= (#[trigger] e2[i]).weight@,
    ensures
        targets_of(flat_edges(h, e1), from) == targets_of(flat_edges(h, e2), from),
    decreases e1.len(),
{
    broadcast use vstd::seq_lib::group_to_multiset_ensures;
    broadcast use vstd::multiset::group_multiset_axioms;

    e1.to_multiset_ensures();
    e2.to_multiset_ensures();
    if e1.len() == 0 {
        assert(e2.len() == 0);
        assert(flat_edges(h, e1) =~= Seq::<FlatEdge>::empty());
        assert(flat_edges(h, e2) =~= Seq::<FlatEdge>::empty());
    } else {
        let x = e1.last();
        assert(e1.contains(x)) by {
            assert(e1[e1.len() - 1] == x);
        }
        assert(e1.to_multiset().count(x) > 0);
        assert(e2.to_multiset().count(x) > 0);
        assert(e2.contains(x));
        let j = choose|j: int| 0 <= j < e2.len() && e2[j] == x;
        let r1 = e1.drop_last();
        let r2 = e2.remove(j);
        assert(e1 =~= r1.push(x));
        assert(r1.push(x).to_multiset() =~= r1.to_multiset().insert(x));
        assert(r2.to_multiset() =~= e2.to_multiset().remove(x));
        assert(r1.to_multiset() =~= r2.to_multiset());
        assert forall|i: int| 0 <= i < r1.len() implies 0 <= (#[trigger] r1[i]).weight@ by {
            assert(r1[i] == e1[i]);
        }
        assert forall|i: int| 0 <= i < r2.len() implies 0 <= (#[trigger] r2[i]).weight@ by {
            if i < j {
                assert(r2[i] == e2[i]);
            } else {
                assert(r2[i] == e2[i + 1]);
            }
        }
        lemma_targets_permute(h, r1, r2, from);
        lemma_flat_remove(h, e2, j);
        lemma_flat_remove(h, e1, e1.len() - 1);
        lemma_flat_nonneg(h, e2);
        lemma_move(flat_edges(h, e2), j, from);
        assert(flat_edges(h, e1).last() == flat_edges(h, e1)[e1.len() - 1]);
    }
}

proof fn lemma_spread_all_same(acc: WTable, weights: WTable, es1: Seq<FlatEdge>, es2: Seq<FlatEdge>, damping: int)
    requires
        forall|f: Seq<char>| #[trigger] targets_of(es1, f) == targets_of(es2, f),
    ensures
        spread_all(acc, weights, es1, damping) == spread_all(acc, weights, es2, damping),
    decreases weights.len(),
{
    if weights.len() > 0 {
        lemma_spread_all_same(acc, weights.drop_last(), es1, es2, damping);
        assert(targets_of(es1, weights.last().0) == targets_of(es2, weights.last().0));
    }
}

proof fn lemma_iterate_same(
    seed: WTable,
    es1: Seq<FlatEdge>,
    es2: Seq<FlatEdge>,
    damping: int,
    complement: int,
    n: nat,
)
    requires
        forall|f: Seq<char>| #[trigger] targets_of(es1, f) == targets_of(es2, f),
    ensures
        iterate(seed, es1, damping, complement, n) == iterate(seed, es2, damping, complement, n),
    decreases n,
{
    if n > 0 {
        lemma_iterate_same(seed, es1, es2, damping, complement, (n - 1) as nat);
        let w = iterate(seed, es1, damping, complement, (n - 1) as nat);
        lemma_spread_all_same(
            crate::eval::propagate::seed_part(Seq::empty(), seed, complement),
            w,
            es1,
            es2,
            damping,
        );
    }
}

/// The order in which trust edges arrive changes no key's weight: edges
/// that are a rearrangement of one another propagate to the same weights.
/// Stated of edges whose declared weights are not negative, as every
/// declared trust weight is.
pub proof fn law_edge_order_irrelevant(policy: Policy, e1: Seq<TrustEdge>, e2: Seq<TrustEdge>)
    requires
        e1.to_multiset() == e2.to_multiset(),
        forall|i: int| 0 <= i < e1.len() ==> 0 <= (#[trigger] e1[i]).weight@,
    ensures
        propagation(policy, e1) == propagation(policy, e2),
{
    broadcast use vstd::seq_lib::group_to_multiset_ensures;

    e1.to_multiset_ensures();
    e2.to_multiset_ensures();
    assert forall|i: int| 0 <= i < e2.len() implies 0 <= (#[trigger] e2[i]).weight@ by {
        assert(e2.contains(e2[i]));
        assert(e2.to_multiset().count(e2[i]) > 0);
        assert(e1.to_multiset().count(e2[i]) > 0);
        assert(e1.contains(e2[i]));
        let k = choose|k: int| 0 <= k < e1.len() && e1[k] == e2[i];
    }
    let h = policy.decay_half_life_days;
    assert forall|f: Seq<char>| #[trigger] targets_of(flat_edges(h, e1), f) == targets_of(flat_edges(h, e2), f) by {
        lemma_targets_permute(h, e1, e2, f);
    }
    let roots = policy@.roots;
    lemma_iterate_same(
        crate::eval::propagate::seed_of(roots, crate::eval::propagate::roots_total(roots)),
        flat_edges(h, e1),
        flat_edges(h, e2),
        policy.damping@,
        clamp(crate::eval::fixed::SCALE - policy.damping@),
        policy.iterations as nat,
    );
}

} // verus!
