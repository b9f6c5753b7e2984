//! Reachability over a list of links between keys.
//!
//! Cycle checks, dependency closures, lineages and equivalence classes all
//! ask which keys can be reached from one key by following links. The
//! answer is computed here once, by growing a set until no link leaves it.

use crate::text::{copy_text, text_eq};
use vstd::prelude::*;

verus! {

/// A link from one key to another.
pub type Link = (Seq<char>, Seq<char>);

/// Whether `a` links to `b`.
pub open spec fn linked<K>(ls: Seq<(K, K)>, a: K, b: K) -> bool {
    exists|j: int| 0 <= j < ls.len() && (#[trigger] ls[j]) == (a, b)
}

/// Whether consecutive keys of `p` are linked.
pub open spec fn is_path<K>(ls: Seq<(K, K)>, p: Seq<K>) -> bool {
    &&& p.len() >= 1
    &&& forall|i: int| 0 <= i < p.len() - 1 ==> linked(ls, #[trigger] p[i], p[i + 1])
}

/// Whether `b` can be reached from `a` by following links, in zero or
/// more steps.
pub open spec fn reach<K>(ls: Seq<(K, K)>, a: K, b: K) -> bool {
    exists|p: Seq<K>| is_path(ls, p) && p[0] == a && #[trigger] p.last() == b
}

/// The views of a list of keys.
pub open spec fn keys_view(s: Seq<String>) -> Seq<Seq<char>> {
    s.map_values(|k: String| k@)
}

/// The views of a list of links.
pub open spec fn links_view(s: Seq<(String, String)>) -> Seq<Link> {
    s.map_values(|l: (String, String)| (l.0@, l.1@))
}

/// Every key reaches itself.
pub proof fn lemma_reach_self<K>(ls: Seq<(K, K)>, a: K)
    ensures
        reach(ls, a, a),
{
    let p = seq![a];
    assert(is_path(ls, p));
    assert(p.last() == a);
}

/// A reached key's links reach further.
pub proof fn lemma_reach_step<K>(ls: Seq<(K, K)>, a: K, b: K, c: K)
    requires
        reach(ls, a, b),
        linked(ls, b, c),
    ensures
        reach(ls, a, c),
{
    let p = choose|p: Seq<K>| is_path(ls, p) && p[0] == a && #[trigger] p.last() == b;
    let q = p.push(c);
    assert forall|i: int| 0 <= i < q.len() - 1 implies linked(ls, #[trigger] q[i], q[i + 1]) by {
        if i < p.len() - 1 {
            assert(q[i] == p[i]);
            assert(q[i + 1] == p[i + 1]);
        } else {
            assert(q[i] == b);
        }
    }
    assert(q.last() == c);
}

/// A set holding `a` that no link leaves holds everything `a` reaches.
pub proof fn lemma_closed_complete<K>(ls: Seq<(K, K)>, s: Seq<K>, a: K, b: K)
    requires
        s.contains(a),
        forall|j: int| 0 <= j < ls.len() && s.contains((#[trigger] ls[j]).0) ==> s.contains(ls[j].1),
        reach(ls, a, b),
    ensures
        s.contains(b),
{
    let p = choose|p: Seq<K>| is_path(ls, p) && p[0] == a && #[trigger] p.last() == b;
    lemma_path_inside(ls, s, p, p.len() - 1);
}

proof fn lemma_path_inside<K>(ls: Seq<(K, K)>, s: Seq<K>, p: Seq<K>, k: int)
    requires
        is_path(ls, p),
        s.contains(p[0]),
        forall|j: int| 0 <= j < ls.len() && s.contains((#[trigger] ls[j]).0) ==> s.contains(ls[j].1),
        0 <= k < p.len(),
    ensures
        s.contains(p[k]),
    decreases k,
{
    if k > 0 {
        lemma_path_inside(ls, s, p, k - 1);
        assert(linked(ls, p[k - 1], p[k]));
        let j = choose|j: int| 0 <= j < ls.len() && (#[trigger] ls[j]) == (p[k - 1], p[k]);
        assert(s.contains(ls[j].0));
    }
}

/// Whether a list of keys holds `k`.
pub fn holds(s: &Vec<String>, k: &str) -> (r: bool)
    ensures
        r == keys_view(s@).contains(k@),
{
    let mut i: usize = 0;
    while i < s.len()
        invariant
            i <= s.len(),
            forall|j: int| 0 <= j < i ==> (#[trigger] s@[j])@ != k@,
        decreases s.len() - i,
    {
        if text_eq(s[i].as_str(), k) {
            assert(keys_view(s@)[i as int] == k@);
            return true;
        }
        i = i + 1;
    }
    proof {
        if keys_view(s@).contains(k@) {
            let j = choose|j: int| 0 <= j < keys_view(s@).len() && keys_view(s@)[j] == k@;
            assert(s@[j]@ == k@);
        }
    }
    false
}

/// Everything reachable from `start` by following `links`, `start`
/// included, each key once, in the order found.
pub fn closure(links: &Vec<(String, String)>, start: &str) -> (r: Vec<String>)
    ensures
        forall|x: Seq<char>| keys_view(r@).contains(x) <==> reach(links_view(links@), start@, x),
        keys_view(r@).no_duplicates(),
        r.len() >= 1,
        r@[0]@ == start@,
{
    let ghost ls = links_view(links@);
    let mut set: Vec<String> = Vec::new();
    set.push(copy_text(start));
    let mut used: Vec<bool> = Vec::new();
    let mut j: usize = 0;
    while j < links.len()
        invariant
            j <= links.len(),
            used.len() == j,
            forall|t: int| 0 <= t < j ==> !used@[t],
        decreases links.len() - j,
    {
        used.push(false);
        j = j + 1;
    }
    let mut used_count: usize = 0;
    proof {
        lemma_reach_self(ls, start@);
        assert(keys_view(set@) =~= seq![start@]);
        assert(keys_view(set@)[0] == start@);
        lemma_filter_none(used@);
        assert forall|x: Seq<char>| keys_view(set@).contains(x) implies reach(ls, start@, x) by {
            let i = choose|i: int| 0 <= i < keys_view(set@).len() && keys_view(set@)[i] == x;
            assert(i == 0);
        }
    }
    loop
        invariant
            ls == links_view(links@),
            ls.len() == links.len(),
            used.len() == links.len(),
            used_count <= links.len(),
            used_count == used@.filter(|u: bool| u).len(),
            keys_view(set@).contains(start@),
            set.len() >= 1,
            set@[0]@ == start@,
            keys_view(set@).no_duplicates(),
            forall|x: Seq<char>| keys_view(set@).contains(x) ==> reach(ls, start@, x),
            forall|t: int| 0 <= t < links.len() && #[trigger] used@[t] ==> keys_view(set@).contains(ls[t].1),
        decreases links.len() - used_count,
    {
        let ghost count_before = used_count;
        let mut changed = false;
        let mut t: usize = 0;
        while t < links.len()
            invariant
                ls == links_view(links@),
                ls.len() == links.len(),
                used.len() == links.len(),
                t <= links.len(),
                used_count <= links.len(),
                used_count == used@.filter(|u: bool| u).len(),
                changed ==> used_count > count_before,
                !changed ==> used_count == count_before,
                keys_view(set@).contains(start@),
                set.len() >= 1,
                set@[0]@ == start@,
                keys_view(set@).no_duplicates(),
                forall|x: Seq<char>| keys_view(set@).contains(x) ==> reach(ls, start@, x),
                forall|s: int| 0 <= s < links.len() && #[trigger] used@[s] ==> keys_view(set@).contains(ls[s].1),
                !changed ==> forall|s: int|
                    0 <= s < t && !(#[trigger] used@[s]) ==> !keys_view(set@).contains(ls[s].0),
            decreases links.len() - t,
        {
            assert(ls[t as int] == (links@[t as int].0@, links@[t as int].1@));
            if !used[t] && holds(&set, links[t].0.as_str()) {
                let ghost before_used = used@;
                used.set(t, true);
                proof {
                    lemma_filter_count(before_used, t as int);
                }
                used_count = used_count + 1;
                changed = true;
                proof {
                    assert(linked(ls, ls[t as int].0, ls[t as int].1));
                    lemma_reach_step(ls, start@, ls[t as int].0, ls[t as int].1);
                }
                if !holds(&set, links[t].1.as_str()) {
                    let ghost before = keys_view(set@);
                    set.push(copy_text(links[t].1.as_str()));
                    proof {
                        assert(keys_view(set@) =~= before.push(ls[t as int].1));
                        lemma_push_contains(before, ls[t as int].1);
                    }
                }
            }
            t = t + 1;
        }
        if !changed {
            proof {
                assert forall|x: Seq<char>| reach(ls, start@, x) implies keys_view(set@).contains(x) by {
                    assert forall|s: int|
                        0 <= s < ls.len() && keys_view(set@).contains((#[trigger] ls[s]).0) implies keys_view(
                        set@,
                    ).contains(ls[s].1) by {
                        if !used@[s] {
                        }
                    }
                    lemma_closed_complete(ls, keys_view(set@), start@, x);
                }
            }
            return set;
        }
    }
}

/// Whether a list of indices holds `k`.
fn holds_index(s: &Vec<usize>, k: usize) -> (r: bool)
    ensures
        r == s@.contains(k),
{
    let mut i: usize = 0;
    while i < s.len()
        invariant
            i <= s.len(),
            forall|j: int| 0 <= j < i ==> s@[j] != k,
        decreases s.len() - i,
    {
        if s[i] == k {
            return true;
        }
        i = i + 1;
    }
    false
}

/// Everything reachable from `start` by following `links` between
/// indices, `start` included, each once.
pub fn index_closure(links: &Vec<(usize, usize)>, start: usize) -> (r: Vec<usize>)
    ensures
        forall|x: usize| r@.contains(x) <==> reach(links@, start, x),
        r@.no_duplicates(),
{
    let ghost ls = links@;
    let mut set: Vec<usize> = Vec::new();
    set.push(start);
    let mut used: Vec<bool> = Vec::new();
    let mut j: usize = 0;
    while j < links.len()
        invariant
            j <= links.len(),
            used.len() == j,
            forall|t: int| 0 <= t < j ==> !used@[t],
        decreases links.len() - j,
    {
        used.push(false);
        j = j + 1;
    }
    let mut used_count: usize = 0;
    proof {
        lemma_reach_self(ls, start);
        assert(set@ =~= seq![start]);
        assert(set@[0] == start);
        lemma_filter_none(used@);
        assert forall|x: usize| set@.contains(x) implies reach(ls, start, x) by {
            let i = choose|i: int| 0 <= i < set@.len() && set@[i] == x;
            assert(i == 0);
        }
    }
    loop
        invariant
            ls == links@,
            used.len() == links.len(),
            used_count <= links.len(),
            used_count == used@.filter(|u: bool| u).len(),
            set@.contains(start),
            set@.no_duplicates(),
            forall|x: usize| set@.contains(x) ==> reach(ls, start, x),
            forall|t: int| 0 <= t < links.len() && #[trigger] used@[t] ==> set@.contains(ls[t].1),
        decreases links.len() - used_count,
    {
        let ghost count_before = used_count;
        let mut changed = false;
        let mut t: usize = 0;
        while t < links.len()
            invariant
                ls == links@,
                used.len() == links.len(),
                t <= links.len(),
                used_count <= links.len(),
                used_count == used@.filter(|u: bool| u).len(),
                changed ==> used_count > count_before,
                !changed ==> used_count == count_before,
                set@.contains(start),
                set@.no_duplicates(),
                forall|x: usize| set@.contains(x) ==> reach(ls, start, x),
                forall|s: int| 0 <= s < links.len() && #[trigger] used@[s] ==> set@.contains(ls[s].1),
                !changed ==> forall|s: int| 0 <= s < t && !(#[trigger] used@[s]) ==> !set@.contains(ls[s].0),
            decreases links.len() - t,
        {
            if !used[t] && holds_index(&set, links[t].0) {
                let ghost before_used = used@;
                used.set(t, true);
                proof {
                    lemma_filter_count(before_used, t as int);
                }
                used_count = used_count + 1;
                changed = true;
                proof {
                    assert(linked(ls, ls[t as int].0, ls[t as int].1));
                    lemma_reach_step(ls, start, ls[t as int].0, ls[t as int].1);
                }
                if !holds_index(&set, links[t].1) {
                    let ghost before = set@;
                    set.push(links[t].1);
                    proof {
                        lemma_push_contains(before, ls[t as int].1);
                    }
                }
            }
            t = t + 1;
        }
        if !changed {
            proof {
                assert forall|x: usize| reach(ls, start, x) implies set@.contains(x) by {
                    assert forall|s: int| 0 <= s < ls.len() && set@.contains((#[trigger] ls[s]).0) implies set@.contains(
                        ls[s].1,
                    ) by {
                        if !used@[s] {
                        }
                    }
                    lemma_closed_complete(ls, set@, start, x);
                }
            }
            return set;
        }
    }
}

/// Marking an unmarked entry counts one more marked entry.
proof fn lemma_filter_count(u: Seq<bool>, t: int)
    requires
        0 <= t < u.len(),
        !u[t],
    ensures
        u.update(t, true).filter(|b: bool| b).len() == u.filter(|b: bool| b).len() + 1,
        u.update(t, true).filter(|b: bool| b).len() <= u.len(),
    decreases u.len(),
{
    let v = u.update(t, true);
    reveal(Seq::filter);
    if t == u.len() - 1 {
        assert(v.drop_last() =~= u.drop_last());
    } else {
        lemma_filter_count(u.drop_last(), t);
        assert(v.drop_last() =~= u.drop_last().update(t, true));
    }
    lemma_filter_len(v);
}

proof fn lemma_filter_none(u: Seq<bool>)
    requires
        forall|t: int| 0 <= t < u.len() ==> !u[t],
    ensures
        u.filter(|b: bool| b).len() == 0,
    decreases u.len(),
{
    reveal(Seq::filter);
    if u.len() > 0 {
        lemma_filter_none(u.drop_last());
    }
}

proof fn lemma_filter_len(u: Seq<bool>)
    ensures
        u.filter(|b: bool| b).len() <= u.len(),
    decreases u.len(),
{
    reveal(Seq::filter);
    if u.len() > 0 {
        lemma_filter_len(u.drop_last());
    }
}

/// Pushing a new key keeps the keys distinct, and the set grows by it.
pub proof fn lemma_push_contains<K>(s: Seq<K>, x: K)
    requires
        s.no_duplicates(),
        !s.contains(x),
    ensures
        s.push(x).no_duplicates(),
        forall|y: K| s.push(x).contains(y) <==> (s.contains(y) || y == x),
{
    let q = s.push(x);
    assert forall|i: int, j: int| 0 <= i < q.len() && 0 <= j < q.len() && i != j implies q[i] != q[j] by {
        if i < s.len() && j < s.len() {
        } else if i == s.len() {
            assert(q[j] == s[j]);
        } else {
            assert(q[i] == s[i]);
        }
    }
    assert forall|y: K| q.contains(y) implies (s.contains(y) || y == x) by {
        let i = choose|i: int| 0 <= i < q.len() && q[i] == y;
        if i < s.len() {
            assert(s[i] == y);
        }
    }
    assert forall|y: K| (s.contains(y) || y == x) implies q.contains(y) by {
        if y == x {
            assert(q[s.len() as int] == x);
        } else {
            let i = choose|i: int| 0 <= i < s.len() && s[i] == y;
            assert(q[i] == y);
        }
    }
}

} // verus!
