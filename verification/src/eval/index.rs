//! Resolving a graph under a declared policy.
//!
//! Every claim the graph holds is evaluated under the caller's viewpoint
//! and ranked, so a caller who suspects manipulation recomputes and
//! compares. Nothing is listed that the policy's evaluation does not
//! yield.

use crate::cbor::{lemma_lex_irrefl, lemma_lex_trans, lex_lt};
use crate::eval::fixed::Fixed6;
use crate::eval::gather::{class_of, edge_view, evidence_for, gathered, trust_edges, trusts_in};
use crate::eval::policy::Policy;
use crate::eval::propagate::{check_propagatable, propagatable, propagate, propagation, TrustEdge};
use crate::eval::standing::{check_evaluable, evaluable, evaluate, Evidence, Standing};
use crate::eval::vector::standing_under;
use crate::eval::wmap::table_view;
use crate::fields::{cid_from_text, cid_string};
use crate::graph::graph::ascending_keys;
use crate::graph::pairs::text_lt;
use crate::graph::view::{class_id, Class};
use crate::graph::Graph;
use crate::text::{copy_text, text_eq};
use crate::{Cid, HashAlg};
use vstd::prelude::*;

verus! {

/// Whether `es` are the trust edges the graph states, undecayed.
pub open spec fn graph_edges(graph: Graph, es: Seq<TrustEdge>) -> bool {
    &&& es.map_values(|e: TrustEdge| edge_view(e)) == trusts_in(graph.object_keys(), graph.object_map())
    &&& forall|i: int| 0 <= i < es.len() ==> (#[trigger] es[i]).age_days == 0
}

/// The claim an object identifier names, with its class, if an index
/// lists it: the identifier parses, names a publet, and the publet's class
/// is the one asked for, if one is.
pub open spec fn listed(graph: Graph, filter: Option<Seq<char>>, x: Seq<char>) -> Option<
    ((HashAlg, Seq<u8>), Class),
> {
    match cid_from_text(x) {
        Some(k) => {
            if graph.publet_map().dom().contains(cid_string(k)) && (filter is None || class_id(
                graph.publet_map()[cid_string(k)]@.class,
            ) == filter->0) {
                Some((k, graph.publet_map()[cid_string(k)]@.class))
            } else {
                None
            }
        },
        None => None,
    }
}

/// Whether a row is what an index lists for its claim: the claim's class,
/// and the standing its gathered evidence has under the weights `w`.
pub open spec fn row_for(
    graph: Graph,
    policy: Policy,
    w: Seq<(String, Fixed6)>,
    filter: Option<Seq<char>>,
    row: (String, Class, Standing),
) -> bool {
    match listed(graph, filter, row.0@) {
        Some((k, c)) => row.1 == c && exists|e: Evidence|
            #[trigger] gathered(graph, k, e) && standing_under(row.2, policy, c, e, w),
        None => false,
    }
}

/// Index order: greater affirming weight first, then identifier order.
pub open spec fn ranked_before(a: (String, Class, Standing), b: (String, Class, Standing)) -> bool {
    ||| a.2.affirm_weight@ > b.2.affirm_weight@
    ||| (a.2.affirm_weight@ == b.2.affirm_weight@ && text_lt(a.0@, b.0@))
}

/// Whether `rows` is the index of the graph under the policy and the
/// weights `w`: in index order, each row what its claim gives, and every
/// listed claim among the object identifiers present.
pub open spec fn index_of(
    graph: Graph,
    policy: Policy,
    w: Seq<(String, Fixed6)>,
    filter: Option<Seq<char>>,
    rows: Seq<(String, Class, Standing)>,
) -> bool {
    &&& forall|a: int, b: int| 0 <= a < b < rows.len() ==> ranked_before(#[trigger] rows[a], #[trigger] rows[b])
    &&& forall|a: int| 0 <= a < rows.len() ==> row_for(graph, policy, w, filter, #[trigger] rows[a])
    &&& forall|a: int| 0 <= a < rows.len() ==> graph.object_map().dom().contains((#[trigger] rows[a]).0@)
    &&& forall|x: Seq<char>|
        graph.object_map().dom().contains(x) && #[trigger] listed(graph, filter, x) is Some ==> exists|a: int|
            0 <= a < rows.len() && (#[trigger] rows[a]).0@ == x
}

/// The optional text of an optional string.
pub open spec fn filter_view(f: Option<&str>) -> Option<Seq<char>> {
    match f {
        Some(s) => Some(s@),
        None => None,
    }
}

/// The row for one object, if the index lists it; `None` where evaluating
/// it would leave `i128`.
fn row_of(
    graph: &Graph,
    policy: &Policy,
    weights: &Vec<(String, Fixed6)>,
    filter: Option<&str>,
    text: &str,
) -> (r: Option<Option<(Class, Standing)>>)
    ensures
        match r {
            None => {
                &&& listed(*graph, filter_view(filter), text@) is Some
                &&& exists|e: Evidence|
                    #[trigger] gathered(*graph, (listed(*graph, filter_view(filter), text@)->0).0, e) && !evaluable(
                        *policy,
                        (listed(*graph, filter_view(filter), text@)->0).1,
                        e,
                        weights@,
                    )
            },
            Some(None) => listed(*graph, filter_view(filter), text@) is None,
            Some(Some((c, s))) => {
                &&& listed(*graph, filter_view(filter), text@) is Some
                &&& (listed(*graph, filter_view(filter), text@)->0).1 == c
                &&& exists|e: Evidence|
                    #[trigger] gathered(*graph, (listed(*graph, filter_view(filter), text@)->0).0, e) && standing_under(
                        s,
                        *policy,
                        c,
                        e,
                        weights@,
                    )
            },
        },
{
    let cid = match Cid::parse(text) {
        Ok(c) => c,
        Err(_) => return Some(None),
    };
    assert(cid_from_text(text@) == Some(cid@));
    let class = match class_of(graph, &cid) {
        Some(c) => c,
        None => return Some(None),
    };
    match filter {
        Some(want) => {
            if !text_eq(class.id(), want) {
                return Some(None);
            }
        },
        None => {},
    }
    assert(listed(*graph, filter_view(filter), text@) == Some((cid@, class)));
    let evidence = evidence_for(graph, &cid);
    assert(gathered(*graph, cid@, evidence));
    assert((listed(*graph, filter_view(filter), text@)->0).0 == cid@);
    assert((listed(*graph, filter_view(filter), text@)->0).1 == class);
    if !check_evaluable(policy, class, &evidence, weights) {
        assert(!evaluable(*policy, class, evidence, weights@));
        assert(exists|e: Evidence|
                    #[trigger] gathered(*graph, (listed(*graph, filter_view(filter), text@)->0).0, e) && !evaluable(
                        *policy,
                        (listed(*graph, filter_view(filter), text@)->0).1,
                        e,
                        weights@,
                    ));
        return None;
    }
    let standing = evaluate(policy, class, &evidence, weights);
    assert(standing_under(standing, *policy, class, evidence, weights@));
    assert(exists|e: Evidence|
        #[trigger] gathered(*graph, (listed(*graph, filter_view(filter), text@)->0).0, e) && standing_under(
            standing,
            *policy,
            class,
            e,
            weights@,
        ));
    Some(Some((class, standing)))
}

/// Whether rows are in index order.
pub open spec fn in_rank_order(rows: Seq<(String, Class, Standing)>) -> bool {
    forall|a: int, b: int| 0 <= a < b < rows.len() ==> ranked_before(#[trigger] rows[a], #[trigger] rows[b])
}

/// Insert a row whose identifier follows every present one, after each
/// row of at least its affirming weight.
fn insert_ranked(rows: &mut Vec<(String, Class, Standing)>, row: (String, Class, Standing))
    requires
        in_rank_order(old(rows)@),
        forall|a: int| 0 <= a < old(rows)@.len() ==> text_lt((#[trigger] old(rows)@[a]).0@, row.0@),
    ensures
        in_rank_order(final(rows)@),
        exists|j: int| 0 <= j <= old(rows)@.len() && final(rows)@ == old(rows)@.insert(j, row),
{
    let ghost before = rows@;
    let mut j: usize = 0;
    while j < rows.len() && rows[j].2.affirm_weight.to_scaled() >= row.2.affirm_weight.to_scaled()
        invariant
            j <= rows.len(),
            rows@ == before,
            forall|a: int| 0 <= a < j ==> (#[trigger] before[a]).2.affirm_weight@ >= row.2.affirm_weight@,
        decreases rows.len() - j,
    {
        j = j + 1;
    }
    proof {
        assert forall|b: int| j <= b < before.len() implies (#[trigger] before[b]).2.affirm_weight@
            < row.2.affirm_weight@ by {
            if b > j {
                assert(ranked_before(before[j as int], before[b]));
            }
        }
    }
    rows.insert(j, row);
    proof {
        before.insert_ensures(j as int, row);
        let n = rows@;
        assert forall|a: int, b: int| 0 <= a < b < n.len() implies ranked_before(
            #[trigger] n[a],
            #[trigger] n[b],
        ) by {
            if b < j {
                assert(ranked_before(before[a], before[b]));
            } else if b == j {
                assert(n[a] == before[a]);
            } else if a < j {
                assert(n[b] == before[b - 1]);
                assert(ranked_before(before[a], before[b - 1]));
            } else if a == j {
                assert(n[b] == before[b - 1]);
            } else {
                assert(n[a] == before[a - 1] && n[b] == before[b - 1]);
                assert(ranked_before(before[a - 1], before[b - 1]));
            }
        }
    }
}

/// Whether `rows` index the claims among the identifiers `done`: in index
/// order, each row what its claim gives and named in `done`, and each
/// listed claim of `done` present.
pub open spec fn rows_from(
    graph: Graph,
    policy: Policy,
    w: Seq<(String, Fixed6)>,
    fv: Option<Seq<char>>,
    rows: Seq<(String, Class, Standing)>,
    done: Seq<Seq<char>>,
) -> bool {
    &&& in_rank_order(rows)
    &&& forall|a: int| 0 <= a < rows.len() ==> row_for(graph, policy, w, fv, #[trigger] rows[a])
    &&& forall|a: int| 0 <= a < rows.len() ==> done.contains((#[trigger] rows[a]).0@)
    &&& forall|t: int|
        0 <= t < done.len() && #[trigger] listed(graph, fv, done[t]) is Some ==> exists|a: int|
            0 <= a < rows.len() && (#[trigger] rows[a]).0@ == done[t]
}

/// An identifier the index does not list leaves the rows as they are.
proof fn lemma_skip(
    graph: Graph,
    policy: Policy,
    w: Seq<(String, Fixed6)>,
    fv: Option<Seq<char>>,
    rows: Seq<(String, Class, Standing)>,
    done: Seq<Seq<char>>,
    x: Seq<char>,
)
    requires
        rows_from(graph, policy, w, fv, rows, done),
        listed(graph, fv, x) is None,
    ensures
        rows_from(graph, policy, w, fv, rows, done.push(x)),
{
    let d = done.push(x);
    assert forall|a: int| 0 <= a < rows.len() implies d.contains((#[trigger] rows[a]).0@) by {
        let t = choose|t: int| 0 <= t < done.len() && done[t] == rows[a].0@;
        assert(d[t] == done[t]);
    }
    assert forall|t: int|
        0 <= t < d.len() && #[trigger] listed(graph, fv, d[t]) is Some implies exists|a: int|
            0 <= a < rows.len() && (#[trigger] rows[a]).0@ == d[t] by {
        assert(d[t] == done[t]);
    }
}

/// Add the row for an identifier that follows every one done.
fn add_row(
    rows: &mut Vec<(String, Class, Standing)>,
    row: (String, Class, Standing),
    Ghost(graph): Ghost<Graph>,
    Ghost(policy): Ghost<Policy>,
    Ghost(w): Ghost<Seq<(String, Fixed6)>>,
    Ghost(fv): Ghost<Option<Seq<char>>>,
    Ghost(done): Ghost<Seq<Seq<char>>>,
)
    requires
        rows_from(graph, policy, w, fv, old(rows)@, done),
        row_for(graph, policy, w, fv, row),
        forall|t: int| 0 <= t < done.len() ==> text_lt(#[trigger] done[t], row.0@),
    ensures
        rows_from(graph, policy, w, fv, final(rows)@, done.push(row.0@)),
{
    let ghost before = rows@;
    proof {
        assert forall|a: int| 0 <= a < before.len() implies text_lt((#[trigger] before[a]).0@, row.0@) by {
            let t = choose|t: int| 0 <= t < done.len() && done[t] == before[a].0@;
        }
    }
    insert_ranked(rows, row);
    proof {
        let j = choose|j: int| 0 <= j <= before.len() && rows@ == before.insert(j, row);
        before.insert_ensures(j, row);
        let d = done.push(row.0@);
        assert forall|a: int| 0 <= a < rows.len() implies row_for(graph, policy, w, fv, #[trigger] rows@[a])
            && d.contains(rows@[a].0@) by {
            if a < j {
                assert(rows@[a] == before[a]);
                let t = choose|t: int| 0 <= t < done.len() && done[t] == before[a].0@;
                assert(d[t] == done[t]);
            } else if a == j {
                assert(d[done.len() as int] == row.0@);
            } else {
                assert(rows@[a] == before[a - 1]);
                let t = choose|t: int| 0 <= t < done.len() && done[t] == before[a - 1].0@;
                assert(d[t] == done[t]);
            }
        }
        assert forall|t: int|
            0 <= t < d.len() && #[trigger] listed(graph, fv, d[t]) is Some implies exists|a: int|
                0 <= a < rows.len() && (#[trigger] rows@[a]).0@ == d[t] by {
            if t < done.len() {
                assert(d[t] == done[t]);
                let a = choose|a: int| 0 <= a < before.len() && (#[trigger] before[a]).0@ == done[t];
                if a < j {
                    assert(rows@[a] == before[a]);
                } else {
                    assert(rows@[a + 1] == before[a]);
                }
            } else {
                assert(rows@[j].0@ == d[t]);
            }
        }
    }
}

/// Whether evaluating some listed claim under the weights `w` would leave
/// `i128`.
pub open spec fn some_row_overflows(graph: Graph, policy: Policy, w: Seq<(String, Fixed6)>, filter: Option<Seq<char>>) -> bool {
    exists|x: Seq<char>|
        graph.object_map().dom().contains(x) && #[trigger] listed(graph, filter, x) is Some && exists|e: Evidence|
            #[trigger] gathered(graph, (listed(graph, filter, x)->0).0, e) && !evaluable(
                policy,
                (listed(graph, filter, x)->0).1,
                e,
                w,
            )
}

/// Resolve the graph under a declared policy: every publet whose class is
/// `class_filter`, or every publet when none is given, with its standing
/// under the weights the graph's trust edges propagate to, greater
/// affirming weight first and then in identifier order.
///
/// `None` where the evaluation would leave `i128`.
pub fn index(graph: &Graph, policy: &Policy, class_filter: Option<&str>) -> (r: Option<
    Vec<(String, Class, Standing)>,
>)
    ensures
        match r {
            None => exists|es: Seq<TrustEdge>|
                #[trigger] graph_edges(*graph, es) && (!propagatable(*policy, es) || exists|w: Seq<(String, Fixed6)>|
                    #[trigger] table_view(w) == propagation(*policy, es) && some_row_overflows(
                        *graph,
                        *policy,
                        w,
                        filter_view(class_filter),
                    )),
            Some(rows) => exists|es: Seq<TrustEdge>, w: Seq<(String, Fixed6)>|
                #[trigger] graph_edges(*graph, es) && #[trigger] table_view(w) == propagation(*policy, es)
                    && index_of(*graph, *policy, w, filter_view(class_filter), rows@),
        },
{
    let edges = trust_edges(graph);
    assert(graph_edges(*graph, edges@));
    if !check_propagatable(policy, edges.as_slice()) {
        return None;
    }
    let weights = propagate(policy, edges.as_slice());
    let ghost fv = filter_view(class_filter);
    let cids = graph.cids();
    let ghost ks = crate::graph::closure::keys_view(cids@);
    let mut rows: Vec<(String, Class, Standing)> = Vec::new();
    let mut i: usize = 0;
    assert(ks.take(0) =~= Seq::<Seq<char>>::empty());
    while i < cids.len()
        invariant
            i <= cids.len(),
            ks == crate::graph::closure::keys_view(cids@),
            ascending_keys(cids@),
            graph_edges(*graph, edges@),
            table_view(weights@) == propagation(*policy, edges@),
            fv == filter_view(class_filter),
            forall|x: Seq<char>| ks.contains(x) <==> graph.object_map().dom().contains(x),
            rows_from(*graph, *policy, weights@, fv, rows@, ks.take(i as int)),
        decreases cids.len() - i,
    {
        assert(ks[i as int] == cids@[i as int]@);
        assert(ks.take(i + 1) =~= ks.take(i as int).push(cids@[i as int]@));
        match row_of(graph, policy, &weights, class_filter, cids[i].as_str()) {
            None => {
                proof {
                    assert(ks.contains(ks[i as int]));
                    assert(graph.object_map().dom().contains(cids@[i as int]@));
                    assert(some_row_overflows(*graph, *policy, weights@, fv));
                }
                return None;
            },
            Some(None) => {
                proof {
                    lemma_skip(*graph, *policy, weights@, fv, rows@, ks.take(i as int), cids@[i as int]@);
                }
            },
            Some(Some((class, standing))) => {
                let row = (copy_text(cids[i].as_str()), class, standing);
                proof {
                    assert forall|t: int| 0 <= t < i implies text_lt(#[trigger] ks.take(i as int)[t], row.0@) by {
                        assert(ks.take(i as int)[t] == cids@[t]@);
                    }
                    assert(row_for(*graph, *policy, weights@, fv, row));
                }
                add_row(&mut rows, row, Ghost(*graph), Ghost(*policy), Ghost(weights@), Ghost(fv), Ghost(ks.take(i as int)));
            },
        }
        i = i + 1;
    }
    proof {
        assert(ks.take(cids.len() as int) =~= ks);
        assert forall|x: Seq<char>|
            graph.object_map().dom().contains(x) && #[trigger] listed(*graph, fv, x) is Some implies exists|a: int|
                0 <= a < rows.len() && (#[trigger] rows@[a]).0@ == x by {
            let t = choose|t: int| 0 <= t < ks.len() && ks[t] == x;
        }
        assert(index_of(*graph, *policy, weights@, fv, rows@));
    }
    Some(rows)
}

} // verus!
