//! Lineages: the objects connected by `supersedes` edges,
//! rooted at the one that supersedes nothing.

use crate::cbor::{lemma_lex_irrefl, lemma_lex_total, lemma_lex_trans, lex_lt};
use crate::fields::{cid_from_text, cid_in, cid_string, cid_to_string, cids_view};
use crate::graph::closure::{closure, holds, keys_view, links_view, reach, Link};
use crate::graph::graph::{lineage_links, Graph, Lineage};
use crate::text::{copy_text, text_eq};
use crate::{Cid, HashAlg};
use vstd::prelude::*;
use vstd::utf8::*;

verus! {

broadcast use vstd::utf8::group_utf8_lib;

/// Whether `y` is the least key, in text order, that `x` links to.
pub open spec fn least_up(ls: Seq<Link>, x: Seq<char>, y: Seq<char>) -> bool {
    &&& ls.contains((x, y))
    &&& forall|z: Seq<char>|
        #[trigger] ls.contains((x, z)) ==> z == y || lex_lt(encode_utf8(y), encode_utf8(z))
}

/// One step towards the genesis: of the keys `x` links to, the least, so
/// that where an object supersedes several the result is still
/// deterministic.
pub open spec fn up(ls: Seq<Link>, x: Seq<char>) -> Option<Seq<char>> {
    if exists|y: Seq<char>| least_up(ls, x, y) {
        Some(choose|y: Seq<char>| least_up(ls, x, y))
    } else {
        None
    }
}

/// Where `k` steps up from `x` lead; the walk stays put at the top.
pub open spec fn walk(ls: Seq<Link>, x: Seq<char>, k: nat) -> Seq<char>
    decreases k,
{
    if k == 0 {
        x
    } else {
        match up(ls, walk(ls, x, (k - 1) as nat)) {
            Some(y) => y,
            None => walk(ls, x, (k - 1) as nat),
        }
    }
}

/// Whether the walk from `x` ends at step `k`: nothing is above, or the
/// key was already visited.
pub open spec fn stops(ls: Seq<Link>, x: Seq<char>, k: nat) -> bool {
    up(ls, walk(ls, x, k)) is None || exists|j: nat| j < k && #[trigger] walk(ls, x, j) == walk(ls, x, k)
}

/// Whether `k` is the first step at which the walk from `x` ends.
pub open spec fn first_stop(ls: Seq<Link>, x: Seq<char>, k: nat) -> bool {
    stops(ls, x, k) && forall|j: nat| j < k ==> !#[trigger] stops(ls, x, j)
}

/// The genesis the walk from `x` reaches.
pub open spec fn genesis_spec(ls: Seq<Link>, x: Seq<char>) -> Seq<char> {
    walk(ls, x, choose|k: nat| first_stop(ls, x, k))
}

/// The links reversed: each key to the keys that link to it.
pub open spec fn reversed(ls: Seq<Link>) -> Seq<Link> {
    ls.map_values(|l: Link| (l.1, l.0))
}

proof fn lemma_least_unique(ls: Seq<Link>, x: Seq<char>, a: Seq<char>, b: Seq<char>)
    requires
        least_up(ls, x, a),
        least_up(ls, x, b),
    ensures
        a == b,
{
    if a != b {
        assert(ls.contains((x, b)));
        assert(ls.contains((x, a)));
        assert(lex_lt(encode_utf8(b), encode_utf8(a)));
        assert(lex_lt(encode_utf8(a), encode_utf8(b)));
        lemma_lex_trans(encode_utf8(a), encode_utf8(b), encode_utf8(a));
        lemma_lex_irrefl(encode_utf8(a));
    }
}

proof fn lemma_first_stop_unique(ls: Seq<Link>, x: Seq<char>, k: nat)
    requires
        first_stop(ls, x, k),
    ensures
        genesis_spec(ls, x) == walk(ls, x, k),
{
    let c = choose|c: nat| first_stop(ls, x, c);
    assert(first_stop(ls, x, c));
    if c < k {
        assert(!stops(ls, x, c));
    } else if k < c {
        assert(!stops(ls, x, k));
    }
}

/// The least key `x` links to, if any.
fn least_from(links: &Vec<(String, String)>, x: &str) -> (r: Option<String>)
    ensures
        match r {
            Some(y) => least_up(links_view(links@), x@, y@),
            None => forall|y: Seq<char>| !links_view(links@).contains((x@, y)),
        },
{
    let ghost ls = links_view(links@);
    let mut best: Option<String> = None;
    let mut i: usize = 0;
    while i < links.len()
        invariant
            i <= links.len(),
            ls == links_view(links@),
            match best {
                Some(b) => ls.take(i as int).contains((x@, b@)) && forall|z: Seq<char>|
                    #[trigger] ls.take(i as int).contains((x@, z)) ==> z == b@ || lex_lt(
                        encode_utf8(b@),
                        encode_utf8(z),
                    ),
                None => forall|z: Seq<char>| !#[trigger] ls.take(i as int).contains((x@, z)),
            },
        decreases links.len() - i,
    {
        let ghost pre = ls.take(i as int);
        let ghost next = ls.take(i + 1);
        assert(next =~= pre.push(ls[i as int]));
        assert(ls[i as int] == (links@[i as int].0@, links@[i as int].1@));
        let ghost old_best = best;
        if text_eq(links[i].0.as_str(), x) {
            let y = &links[i].1;
            let replace = match &best {
                Some(b) => crate::cbor::lex_less_bytes(y.as_str().as_bytes(), b.as_str().as_bytes()),
                None => true,
            };
            if replace {
                best = Some(copy_text(y.as_str()));
            }
            proof {
                assert(next.contains((x@, y@))) by {
                    assert(next[i as int] == (x@, y@));
                }
                assert forall|z: Seq<char>| #[trigger] next.contains((x@, z)) implies z == best->0@ || lex_lt(
                    encode_utf8(best->0@),
                    encode_utf8(z),
                ) by {
                    let t = choose|t: int| 0 <= t < next.len() && next[t] == (x@, z);
                    if t < i {
                        assert(pre[t] == (x@, z));
                        assert(pre.contains((x@, z)));
                        if replace {
                            let b = old_best->0@;
                            if z != b {
                                lemma_lex_trans(encode_utf8(y@), encode_utf8(b), encode_utf8(z));
                            }
                        }
                    } else {
                        assert(z == y@);
                        if !replace {
                            let b = old_best->0@;
                            if y@ != b {
                                if encode_utf8(y@) == encode_utf8(b) {
                                    assert(decode_utf8(encode_utf8(y@)) == y@);
                                    assert(decode_utf8(encode_utf8(b)) == b);
                                }
                                lemma_lex_total(encode_utf8(y@), encode_utf8(b));
                            }
                        }
                    }
                }
                if !replace {
                    assert(pre.contains((x@, best->0@)));
                    let t = choose|t: int| 0 <= t < pre.len() && pre[t] == (x@, best->0@);
                    assert(next[t] == pre[t]);
                }
            }
        } else {
            proof {
                match old_best {
                    Some(b) => {
                        let t = choose|t: int| 0 <= t < pre.len() && pre[t] == (x@, b@);
                        assert(next[t] == pre[t]);
                        assert forall|z: Seq<char>| #[trigger] next.contains((x@, z)) implies z == b@ || lex_lt(
                            encode_utf8(b@),
                            encode_utf8(z),
                        ) by {
                            let s = choose|s: int| 0 <= s < next.len() && next[s] == (x@, z);
                            assert(next[i as int] == ls[i as int]);
                            assert(s != i);
                            assert(pre[s] == (x@, z));
                            assert(pre.contains((x@, z)));
                        }
                    },
                    None => {
                        assert forall|z: Seq<char>| !#[trigger] next.contains((x@, z)) by {
                            if next.contains((x@, z)) {
                                let s = choose|s: int| 0 <= s < next.len() && next[s] == (x@, z);
                                assert(next[i as int] == ls[i as int]);
                                assert(s != i);
                                assert(pre[s] == (x@, z));
                                assert(pre.contains((x@, z)));
                            }
                        }
                    },
                }
            }
        }
        i = i + 1;
    }
    assert(ls.take(links.len() as int) =~= ls);
    best
}

/// The genesis reached from `start` by stepping up until nothing is
/// above, or until a key repeats.
fn genesis_of(links: &Vec<(String, String)>, start: &str) -> (r: String)
    ensures
        r@ == genesis_spec(links_view(links@), start@),
{
    let ghost ls = links_view(links@);
    let ghost targets = ls.map_values(|l: Link| l.1).to_set();
    proof {
        vstd::seq_lib::seq_to_set_is_finite(ls.map_values(|l: Link| l.1));
    }
    let mut current = copy_text(start);
    let mut guard: Vec<String> = Vec::new();
    let ghost mut k: nat = 0;
    loop
        invariant
            ls == links_view(links@),
            targets == ls.map_values(|l: Link| l.1).to_set(),
            targets.finite(),
            guard.len() == k,
            k <= targets.len() + 1,
            current@ == walk(ls, start@, k),
            forall|j: int| 0 <= j < k ==> (#[trigger] guard@[j])@ == walk(ls, start@, j as nat),
            keys_view(guard@).no_duplicates(),
            forall|j: nat| j < k ==> !#[trigger] stops(ls, start@, j),
        decreases targets.len() + 1 - k,
    {
        if holds(&guard, current.as_str()) {
            proof {
                let j = choose|j: int| 0 <= j < keys_view(guard@).len() && keys_view(guard@)[j] == current@;
                assert(guard@[j]@ == walk(ls, start@, j as nat));
                assert(walk(ls, start@, j as nat) == walk(ls, start@, k));
                assert(stops(ls, start@, k));
                lemma_first_stop_unique(ls, start@, k);
            }
            return current;
        }
        match least_from(links, current.as_str()) {
            None => {
                proof {
                    assert(!exists|y: Seq<char>| least_up(ls, current@, y));
                    assert(stops(ls, start@, k));
                    lemma_first_stop_unique(ls, start@, k);
                }
                return current;
            },
            Some(y) => {
                proof {
                    assert(least_up(ls, current@, y@));
                    let c = choose|c: Seq<char>| least_up(ls, current@, c);
                    lemma_least_unique(ls, current@, c, y@);
                    assert(up(ls, walk(ls, start@, k)) == Some(y@));
                    assert(walk(ls, start@, k + 1) == y@);
                    assert forall|j: nat| j < k implies #[trigger] walk(ls, start@, j) != walk(ls, start@, k) by {
                        assert(guard@[j as int]@ == walk(ls, start@, j));
                        assert(keys_view(guard@)[j as int] == walk(ls, start@, j));
                    }
                    assert(!stops(ls, start@, k));
                }
                let ghost before = keys_view(guard@);
                let ghost gv = guard@;
                guard.push(current);
                proof {
                    assert(keys_view(guard@) =~= before.push(walk(ls, start@, k)));
                    crate::graph::closure::lemma_push_contains(before, walk(ls, start@, k));
                    let s = keys_view(guard@).drop_first();
                    assert forall|i: int, j: int| 0 <= i < s.len() && 0 <= j < s.len() && i != j implies s[i] != s[j] by {
                        assert(s[i] == keys_view(guard@)[i + 1]);
                        assert(s[j] == keys_view(guard@)[j + 1]);
                    }
                    assert forall|x: Seq<char>| #[trigger] s.to_set().contains(x) implies targets.contains(x) by {
                        let i = choose|i: int| 0 <= i < s.len() && s[i] == x;
                        let jj = (i + 1) as nat;
                        assert(s[i] == keys_view(guard@)[i + 1]);
                        assert(guard@[i + 1]@ == walk(ls, start@, jj));
                        let prev = walk(ls, start@, (jj - 1) as nat);
                        assert(!stops(ls, start@, (jj - 1) as nat));
                        assert(up(ls, prev) is Some);
                        let w = choose|w: Seq<char>| least_up(ls, prev, w);
                        assert(least_up(ls, prev, w));
                        assert(walk(ls, start@, jj) == w);
                        assert(ls.contains((prev, w)));
                        let t = choose|t: int| 0 <= t < ls.len() && ls[t] == (prev, w);
                        assert(ls.map_values(|l: Link| l.1)[t] == w);
                    }
                    s.unique_seq_to_set();
                    vstd::set_lib::lemma_len_subset(s.to_set(), targets);
                    assert forall|j: int| 0 <= j < k + 1 implies (#[trigger] guard@[j])@ == walk(
                        ls,
                        start@,
                        j as nat,
                    ) by {
                        if j < k {
                            assert(guard@[j] == gv[j]);
                        }
                    }
                }
                current = y;
                proof {
                    k = k + 1;
                }
            },
        }
    }
}

/// Whether nothing links to `x`: a head of its lineage.
pub open spec fn is_head(ls: Seq<Link>, x: Seq<char>) -> bool {
    forall|y: Seq<char>| !#[trigger] ls.contains((y, x))
}

/// The key of the genesis of the lineage in `mode` containing `x`.
pub open spec fn lineage_genesis(g: Graph, x: Seq<char>, mode: Lineage) -> Seq<char> {
    genesis_spec(lineage_links(g, g.edge_list(), mode), x)
}

/// Whether `m` belongs to the lineage in `mode` containing `x`: it is
/// reached from the genesis back along the followed edges.
pub open spec fn lineage_member(g: Graph, x: Seq<char>, mode: Lineage, m: Seq<char>) -> bool {
    reach(reversed(lineage_links(g, g.edge_list(), mode)), lineage_genesis(g, x, mode), m)
}

/// A lineage view rooted at a genesis object.
#[derive(Debug, Clone, PartialEq, Eq)]
pub struct LineageView {
    /// The object with no outbound `supersedes` edge.
    pub genesis: Cid,
    /// Every object in the lineage, genesis first.
    pub members: Vec<Cid>,
    /// Members nothing supersedes. More than one means the lineage branched.
    pub heads: Vec<Cid>,
    /// Which edges were followed.
    pub mode: Lineage,
}

impl LineageView {
    /// Whether this lineage has more than one head. Branching is
    /// permitted; selecting among heads is a viewpoint's question.
    pub fn is_branched(&self) -> (r: bool)
        ensures
            r == (self.heads@.len() > 1),
    {
        self.heads.len() > 1
    }
}

fn reverse_pairs(links: &Vec<(String, String)>) -> (r: Vec<(String, String)>)
    ensures
        links_view(r@) == reversed(links_view(links@)),
{
    let mut out: Vec<(String, String)> = Vec::new();
    let mut i: usize = 0;
    while i < links.len()
        invariant
            i <= links.len(),
            out.len() == i,
            forall|j: int| 0 <= j < i ==> (#[trigger] links_view(out@)[j]) == (links@[j].1@, links@[j].0@),
        decreases links.len() - i,
    {
        let ghost before = out@;
        out.push((copy_text(links[i].1.as_str()), copy_text(links[i].0.as_str())));
        proof {
            assert forall|j: int| 0 <= j < i + 1 implies (#[trigger] links_view(out@)[j]) == (
                links@[j].1@,
                links@[j].0@,
            ) by {
                assert(links_view(out@)[j] == (out@[j].0@, out@[j].1@));
                if j < i {
                    assert(out@[j] == before[j]);
                    assert(links_view(before)[j] == (before[j].0@, before[j].1@));
                }
            }
        }
        i = i + 1;
    }
    assert(links_view(out@) =~= reversed(links_view(links@)));
    out
}

/// Whether some link leads to `x`.
fn has_predecessor(links: &Vec<(String, String)>, x: &str) -> (r: bool)
    ensures
        r == !is_head(links_view(links@), x@),
{
    let ghost ls = links_view(links@);
    let mut i: usize = 0;
    while i < links.len()
        invariant
            i <= links.len(),
            ls == links_view(links@),
            forall|j: int| 0 <= j < i ==> (#[trigger] ls[j]).1 != x@,
        decreases links.len() - i,
    {
        assert(ls[i as int] == (links@[i as int].0@, links@[i as int].1@));
        if text_eq(links[i].1.as_str(), x) {
            assert(ls.contains((ls[i as int].0, x@)));
            return true;
        }
        i = i + 1;
    }
    proof {
        assert forall|y: Seq<char>| !#[trigger] ls.contains((y, x@)) by {
            if ls.contains((y, x@)) {
                let j = choose|j: int| 0 <= j < ls.len() && ls[j] == (y, x@);
            }
        }
    }
    false
}

impl Graph {
    /// The lineage containing `cid`: step up along followed
    /// `supersedes` edges to the genesis, then collect everything reached
    /// back from it.
    pub fn lineage(&self, cid: &Cid, mode: Lineage) -> (r: LineageView)
        ensures
            r.mode == mode,
            r.genesis@ == match cid_from_text(lineage_genesis(*self, cid_string(cid@), mode)) {
                Some(c) => c,
                None => cid@,
            },
            cid_from_text(lineage_genesis(*self, cid_string(cid@), mode)) is Some ==> r.members@.len() >= 1
                && r.members@[0]@ == cid_from_text(lineage_genesis(*self, cid_string(cid@), mode))->0,
            forall|c: (HashAlg, Seq<u8>)|
                cids_view(r.members@).contains(c) <==> exists|m: Seq<char>|
                    #![trigger cid_from_text(m)]
                    lineage_member(*self, cid_string(cid@), mode, m) && cid_from_text(m) == Some(c),
            forall|c: (HashAlg, Seq<u8>)|
                cids_view(r.heads@).contains(c) <==> exists|m: Seq<char>|
                    #![trigger cid_from_text(m)]
                    lineage_member(*self, cid_string(cid@), mode, m) && is_head(
                        lineage_links(*self, self.edge_list(), mode),
                        m,
                    ) && cid_from_text(m) == Some(c),
    {
        let links = self.lineage_pairs(mode);
        let ghost ls = links_view(links@);
        let start = cid_to_string(cid);
        let genesis = genesis_of(&links, start.as_str());
        let rev = reverse_pairs(&links);
        let keys = closure(&rev, genesis.as_str());
        let ghost gen = genesis@;
        let mut members: Vec<Cid> = Vec::new();
        let mut heads: Vec<Cid> = Vec::new();
        let mut i: usize = 0;
        while i < keys.len()
            invariant
                i <= keys.len(),
                ls == links_view(links@),
                keys.len() >= 1,
                keys@[0]@ == gen,
                forall|c: (HashAlg, Seq<u8>)|
                    cids_view(members@).contains(c) <==> exists|j: int|
                        0 <= j < i && cid_from_text(#[trigger] keys@[j]@) == Some(c),
                forall|c: (HashAlg, Seq<u8>)|
                    cids_view(heads@).contains(c) <==> exists|j: int|
                        0 <= j < i && is_head(ls, keys@[j]@) && cid_from_text(#[trigger] keys@[j]@) == Some(c),
                i >= 1 && cid_from_text(gen) is Some ==> members@.len() >= 1 && members@[0]@ == cid_from_text(gen)->0,
                i == 0 ==> members@.len() == 0,
            decreases keys.len() - i,
        {
            let ghost mv = cids_view(members@);
            let ghost hv = cids_view(heads@);
            let ghost m0 = members@;
            let parsed = cid_in(Some(keys[i].as_str()));
            let head = !has_predecessor(&links, keys[i].as_str());
            match parsed {
                Some(c) => {
                    if head {
                        heads.push(c.clone());
                        assert(cids_view(heads@) =~= hv.push(c@));
                    }
                    members.push(c);
                    assert(cids_view(members@) =~= mv.push(c@));
                    proof {
                        if i > 0 && cid_from_text(gen) is Some {
                            assert(members@[0] == m0[0]);
                        }
                    }
                },
                None => {},
            }
            proof {
                assert forall|c: (HashAlg, Seq<u8>)|
                    cids_view(members@).contains(c) <==> exists|j: int|
                        0 <= j < i + 1 && cid_from_text(#[trigger] keys@[j]@) == Some(c) by {
                    if cids_view(members@).contains(c) && !mv.contains(c) {
                        assert(cid_from_text(keys@[i as int]@) == Some(c));
                    }
                    if exists|j: int| 0 <= j < i + 1 && cid_from_text(#[trigger] keys@[j]@) == Some(c) {
                        let j = choose|j: int| 0 <= j < i + 1 && cid_from_text(#[trigger] keys@[j]@) == Some(c);
                        if j < i {
                            assert(mv.contains(c));
                            let k = choose|k: int| 0 <= k < mv.len() && mv[k] == c;
                            if parsed is Some {
                                assert(cids_view(members@)[k] == c);
                            }
                        } else {
                            assert(cids_view(members@)[cids_view(members@).len() - 1] == c);
                        }
                    }
                }
                assert forall|c: (HashAlg, Seq<u8>)|
                    cids_view(heads@).contains(c) <==> exists|j: int|
                        0 <= j < i + 1 && is_head(ls, keys@[j]@) && cid_from_text(#[trigger] keys@[j]@) == Some(c) by {
                    if cids_view(heads@).contains(c) && !hv.contains(c) {
                        assert(cid_from_text(keys@[i as int]@) == Some(c));
                    }
                    if exists|j: int|
                        0 <= j < i + 1 && is_head(ls, keys@[j]@) && cid_from_text(#[trigger] keys@[j]@) == Some(c) {
                        let j = choose|j: int|
                            0 <= j < i + 1 && is_head(ls, keys@[j]@) && cid_from_text(#[trigger] keys@[j]@) == Some(c);
                        if j < i {
                            assert(hv.contains(c));
                            let k = choose|k: int| 0 <= k < hv.len() && hv[k] == c;
                            if parsed is Some && head {
                                assert(cids_view(heads@)[k] == c);
                            }
                        } else {
                            assert(cids_view(heads@)[cids_view(heads@).len() - 1] == c);
                        }
                    }
                }
            }
            i = i + 1;
        }
        proof {
            assert forall|c: (HashAlg, Seq<u8>)|
                cids_view(members@).contains(c) <==> exists|m: Seq<char>|
                    #![trigger cid_from_text(m)]
                    lineage_member(*self, cid_string(cid@), mode, m) && cid_from_text(m) == Some(c) by {
                if cids_view(members@).contains(c) {
                    let j = choose|j: int| 0 <= j < keys.len() && cid_from_text(#[trigger] keys@[j]@) == Some(c);
                    assert(keys_view(keys@)[j] == keys@[j]@);
                    assert(keys_view(keys@).contains(keys@[j]@));
                }
                if exists|m: Seq<char>|
                    #![trigger cid_from_text(m)]
                    lineage_member(*self, cid_string(cid@), mode, m) && cid_from_text(m) == Some(c) {
                    let m = choose|m: Seq<char>|
                        #![trigger cid_from_text(m)]
                        lineage_member(*self, cid_string(cid@), mode, m) && cid_from_text(m) == Some(c);
                    assert(keys_view(keys@).contains(m));
                    let j = choose|j: int| 0 <= j < keys_view(keys@).len() && keys_view(keys@)[j] == m;
                    assert(keys@[j]@ == m);
                }
            }
            assert forall|c: (HashAlg, Seq<u8>)|
                cids_view(heads@).contains(c) <==> exists|m: Seq<char>|
                    #![trigger cid_from_text(m)]
                    lineage_member(*self, cid_string(cid@), mode, m) && is_head(ls, m) && cid_from_text(m) == Some(
                        c,
                    ) by {
                if cids_view(heads@).contains(c) {
                    let j = choose|j: int|
                        0 <= j < keys.len() && is_head(ls, keys@[j]@) && cid_from_text(#[trigger] keys@[j]@) == Some(c);
                    assert(keys_view(keys@)[j] == keys@[j]@);
                    assert(keys_view(keys@).contains(keys@[j]@));
                }
                if exists|m: Seq<char>|
                    #![trigger cid_from_text(m)]
                    lineage_member(*self, cid_string(cid@), mode, m) && is_head(ls, m) && cid_from_text(m) == Some(c) {
                    let m = choose|m: Seq<char>|
                        #![trigger cid_from_text(m)]
                        lineage_member(*self, cid_string(cid@), mode, m) && is_head(ls, m) && cid_from_text(m)
                            == Some(c);
                    assert(keys_view(keys@).contains(m));
                    let j = choose|j: int| 0 <= j < keys_view(keys@).len() && keys_view(keys@)[j] == m;
                    assert(keys@[j]@ == m);
                }
            }
        }
        let genesis_cid = match cid_in(Some(genesis.as_str())) {
            Some(c) => c,
            None => cid.clone(),
        };
        LineageView { genesis: genesis_cid, members, heads, mode }
    }
}

} // verus!
