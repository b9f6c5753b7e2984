//! Witness attestations and split-view detection.
//!
//! Consistency proofs bind a publisher to one history; they do not stop a
//! publisher showing different histories to different readers. A split
//! view shows as two witnessed roots at one generation.

use crate::cbor::{lex_lt, mlookup, Model};
use crate::cid::cid_text;
use crate::cbor::{lemma_lex_irrefl, lemma_lex_total, lemma_lex_trans};
use crate::fields::{
    bytes_in, cid_entry, entry, mbytes, member_of, mget, mref, mtext, muint, opt_cid, sview, text_in,
    uint_in,
};
use crate::text::{bytes_eq, copy_bytes, copy_text, text_eq};
use crate::{Cid, HashAlg, Object};
use vstd::prelude::*;
use vstd::utf8::*;

verus! {

/// One observer's record of a domain at a generation.
#[derive(Debug, PartialEq, Eq)]
pub struct Witness {
    /// The observing key.
    pub observer: Cid,
    /// The domain observed.
    pub domain: Cid,
    /// The generation index.
    pub generation: u64,
    /// The log root at that generation.
    pub log_root: Vec<u8>,
    /// When it was observed. An unverified claim, as ever.
    pub observed: String,
}

/// What a witness records.
pub struct WitnessView {
    pub observer: (HashAlg, Seq<u8>),
    pub domain: (HashAlg, Seq<u8>),
    pub generation: u64,
    pub log_root: Seq<u8>,
    pub observed: Seq<char>,
}

impl View for Witness {
    type V = WitnessView;

    open spec fn view(&self) -> WitnessView {
        WitnessView {
            observer: self.observer@,
            domain: self.domain@,
            generation: self.generation,
            log_root: self.log_root@,
            observed: self.observed@,
        }
    }
}

impl Clone for Witness {
    fn clone(&self) -> (r: Self)
        ensures
            r@ == self@,
    {
        Witness {
            observer: self.observer.clone(),
            domain: self.domain.clone(),
            generation: self.generation,
            log_root: copy_bytes(self.log_root.as_slice()),
            observed: copy_text(self.observed.as_str()),
        }
    }
}

/// Two witnesses reporting different roots for one generation.
#[derive(Debug, PartialEq, Eq)]
pub struct SplitView {
    /// The domain in question.
    pub domain: Cid,
    /// The generation at which the histories differ.
    pub generation: u64,
    /// The conflicting witnesses.
    pub conflicting: Vec<Witness>,
}

/// The views of a list of witnesses.
pub open spec fn witnesses_view(ws: Seq<Witness>) -> Seq<WitnessView> {
    ws.map_values(|w: Witness| w@)
}

/// How a witness annotation's body reads; `None` when it is not one.
pub open spec fn witness_reading(observer: (HashAlg, Seq<u8>), es: Seq<(Seq<char>, Model)>) -> Option<
    WitnessView,
> {
    let value = mlookup(es, "value"@);
    let domain = opt_cid(mtext(mlookup(es, "target"@)));
    let generation = match value {
        Some(v) => muint(mget(v, "generation"@)),
        None => None,
    };
    let root = match value {
        Some(v) => mbytes(mget(v, "log_root"@)),
        None => None,
    };
    if mtext(mlookup(es, "kind"@)) != Some("witnessed"@) || value is None || domain is None
        || generation is None || root is None {
        None
    } else {
        Some(
            WitnessView {
                observer,
                domain: domain->0,
                generation: generation->0,
                log_root: root->0,
                observed: match mtext(mget(value->0, "observed"@)) {
                    Some(t) => t,
                    None => Seq::empty(),
                },
            },
        )
    }
}

impl Witness {
    /// Read a witness attestation from a verified annotation object.
    pub fn from_object(object: &Object) -> (r: Option<Self>)
        ensures
            match witness_reading(object@.author, object@.body) {
                Some(v) => r matches Some(w) && w@ == v,
                None => r is None,
            },
    {
        let body = object.body();
        match text_in(entry(body, "kind")) {
            Some(k) => {
                if !text_eq(k, "witnessed") {
                    return None;
                }
            },
            None => return None,
        }
        let value = entry(body, "value");
        if value.is_none() {
            return None;
        }
        let domain = match cid_entry(body, "target") {
            Some(c) => c,
            None => return None,
        };
        let generation = match uint_in(member_of(value, "generation")) {
            Some(n) => n,
            None => return None,
        };
        let log_root = match bytes_in(member_of(value, "log_root")) {
            Some(b) => copy_bytes(b),
            None => return None,
        };
        let observed = match text_in(member_of(value, "observed")) {
            Some(t) => copy_text(t),
            None => String::new(),
        };
        proof {
            assert(observed@ == match mtext(mget(mref(value)->0, "observed"@)) {
                Some(t) => t,
                None => Seq::<char>::empty(),
            });
        }
        Some(Witness { observer: object.author().clone(), domain, generation, log_root, observed })
    }
}

/// The key witnesses are grouped and ordered by: the domain's text form and
/// the generation.
pub open spec fn wkey(w: WitnessView) -> (Seq<u8>, u64) {
    (cid_text(w.domain), w.generation)
}

/// Strict order on keys: by the domain's text, then by generation.
pub open spec fn key_lt(a: (Seq<u8>, u64), b: (Seq<u8>, u64)) -> bool {
    lex_lt(a.0, b.0) || (a.0 == b.0 && a.1 < b.1)
}

/// The witnesses with key `k`, in their original order.
pub open spec fn group_of(ws: Seq<WitnessView>, k: (Seq<u8>, u64)) -> Seq<WitnessView>
    decreases ws.len(),
{
    if ws.len() == 0 {
        Seq::empty()
    } else if wkey(ws.last()) == k {
        group_of(ws.drop_last(), k).push(ws.last())
    } else {
        group_of(ws.drop_last(), k)
    }
}

/// Whether a group reports more than one log root.
pub open spec fn disagrees(g: Seq<WitnessView>) -> bool {
    exists|i: int| 0 <= i < g.len() && #[trigger] g[i].log_root != g[0].log_root
}

/// The key a split view reports.
pub open spec fn split_key(s: SplitView) -> (Seq<u8>, u64) {
    (cid_text(s.domain@), s.generation)
}

/// What a list holds after a push.
proof fn lemma_push_contains(s: Seq<usize>, x: usize, y: usize)
    ensures
        s.push(x).contains(y) <==> (s.contains(y) || y == x),
{
    if s.contains(y) {
        let i = choose|i: int| 0 <= i < s.len() && s[i] == y;
        assert(s.push(x)[i] == y);
    }
    if y == x {
        assert(s.push(x)[s.len() as int] == y);
    }
    if s.push(x).contains(y) {
        let i = choose|i: int| 0 <= i < s.len() + 1 && s.push(x)[i] == y;
        if i < s.len() {
            assert(s[i] == y);
        }
    }
}

/// Key order is transitive.
proof fn lemma_key_trans(a: (Seq<u8>, u64), b: (Seq<u8>, u64), c: (Seq<u8>, u64))
    requires
        key_lt(a, b),
        key_lt(b, c),
    ensures
        key_lt(a, c),
{
    if lex_lt(a.0, b.0) && lex_lt(b.0, c.0) {
        lemma_lex_trans(a.0, b.0, c.0);
    }
}

/// Key order is irreflexive.
proof fn lemma_key_irrefl(a: (Seq<u8>, u64))
    ensures
        !key_lt(a, a),
{
    lemma_lex_irrefl(a.0);
}

/// Of two distinct keys, one precedes the other.
proof fn lemma_key_total(a: (Seq<u8>, u64), b: (Seq<u8>, u64))
    requires
        a != b,
    ensures
        key_lt(a, b) || key_lt(b, a),
{
    if a.0 != b.0 {
        lemma_lex_total(a.0, b.0);
    }
}

/// Every member of a group has the group's key, and a key that some
/// witness has gives a nonempty group.
proof fn lemma_group(ws: Seq<WitnessView>, k: (Seq<u8>, u64))
    ensures
        forall|i: int| 0 <= i < group_of(ws, k).len() ==> wkey(#[trigger] group_of(ws, k)[i]) == k,
        (exists|j: int| 0 <= j < ws.len() && wkey(ws[j]) == k) ==> group_of(ws, k).len() > 0,
    decreases ws.len(),
{
    if ws.len() > 0 {
        lemma_group(ws.drop_last(), k);
        if exists|j: int| 0 <= j < ws.len() && wkey(ws[j]) == k {
            let j = choose|j: int| 0 <= j < ws.len() && wkey(ws[j]) == k;
            if j < ws.len() - 1 {
                assert(ws.drop_last()[j] == ws[j]);
            }
        }
    }
}

/// The key of the witness at index `j`, computed from its domain text.
fn key_at_lt(keys: &Vec<String>, witnesses: &[Witness], a: usize, b: usize) -> (r: bool)
    requires
        keys.len() == witnesses.len(),
        a < witnesses.len(),
        b < witnesses.len(),
        forall|j: int| 0 <= j < keys.len() ==> encode_utf8(#[trigger] keys@[j]@) == cid_text(witnesses@[j].domain@),
    ensures
        r == key_lt(wkey(witnesses@[a as int]@), wkey(witnesses@[b as int]@)),
{
    let ka = keys[a].as_str().as_bytes();
    let kb = keys[b].as_str().as_bytes();
    crate::cbor::lex_less_bytes(ka, kb) || (bytes_eq(ka, kb) && witnesses[a].generation < witnesses[b].generation)
}

/// Whether two witnesses share a key.
fn key_at_eq(keys: &Vec<String>, witnesses: &[Witness], a: usize, b: usize) -> (r: bool)
    requires
        keys.len() == witnesses.len(),
        a < witnesses.len(),
        b < witnesses.len(),
        forall|j: int| 0 <= j < keys.len() ==> encode_utf8(#[trigger] keys@[j]@) == cid_text(witnesses@[j].domain@),
    ensures
        r == (wkey(witnesses@[a as int]@) == wkey(witnesses@[b as int]@)),
{
    let ka = keys[a].as_str().as_bytes();
    let kb = keys[b].as_str().as_bytes();
    bytes_eq(ka, kb) && witnesses[a].generation == witnesses[b].generation
}

/// The witnesses sharing the key of the one at `m`, in order.
fn gather_group(keys: &Vec<String>, witnesses: &[Witness], m: usize) -> (g: Vec<Witness>)
    requires
        keys.len() == witnesses.len(),
        m < witnesses.len(),
        forall|j: int| 0 <= j < keys.len() ==> encode_utf8(#[trigger] keys@[j]@) == cid_text(witnesses@[j].domain@),
    ensures
        witnesses_view(g@) == group_of(witnesses_view(witnesses@), wkey(witnesses@[m as int]@)),
{
    let ghost ws = witnesses_view(witnesses@);
    let ghost k = wkey(witnesses@[m as int]@);
    let mut g: Vec<Witness> = Vec::new();
    let mut j: usize = 0;
    assert(ws.take(0) =~= Seq::<WitnessView>::empty());
    assert(witnesses_view(g@) =~= Seq::<WitnessView>::empty());
    while j < witnesses.len()
        invariant
            j <= witnesses.len(),
            ws == witnesses_view(witnesses@),
            ws.len() == witnesses.len(),
            k == wkey(witnesses@[m as int]@),
            keys.len() == witnesses.len(),
            m < witnesses.len(),
            forall|t: int| 0 <= t < keys.len() ==> encode_utf8(#[trigger] keys@[t]@) == cid_text(witnesses@[t].domain@),
            witnesses_view(g@) == group_of(ws.take(j as int), k),
        decreases witnesses.len() - j,
    {
        assert(ws.take(j + 1).drop_last() =~= ws.take(j as int));
        assert(ws.take(j + 1).last() == witnesses@[j as int]@);
        if key_at_eq(keys, witnesses, j, m) {
            let ghost before = g@;
            let w = witnesses[j].clone();
            g.push(w);
            assert(witnesses_view(g@) =~= witnesses_view(before).push(witnesses@[j as int]@));
        }
        j = j + 1;
    }
    assert(ws.take(witnesses.len() as int) =~= ws);
    g
}

/// Whether the witnesses of a group report more than one root.
fn group_disagrees(g: &Vec<Witness>) -> (r: bool)
    requires
        g.len() > 0,
    ensures
        r == disagrees(witnesses_view(g@)),
{
    let ghost gv = witnesses_view(g@);
    let mut t: usize = 0;
    while t < g.len()
        invariant
            t <= g.len(),
            g.len() > 0,
            gv == witnesses_view(g@),
            gv.len() == g.len(),
            forall|s: int| 0 <= s < t ==> #[trigger] gv[s].log_root == gv[0].log_root,
        decreases g.len() - t,
    {
        if !bytes_eq(g[t].log_root.as_slice(), g[0].log_root.as_slice()) {
            assert(gv[t as int].log_root != gv[0].log_root);
            return true;
        }
        t = t + 1;
    }
    false
}

/// Find generations where witnesses disagree about the log root.
///
/// Each result gathers every witness for one domain and generation, in
/// their original order; there is one result for exactly each such group
/// that holds more than one root; results ascend by domain text, then
/// generation. Disagreement is the signal: a publisher serving one history
/// to everyone produces witnesses that all agree.
pub fn detect_split_views(witnesses: &[Witness]) -> (r: Vec<SplitView>)
    ensures
        forall|i: int|
            0 <= i < r.len() ==> {
                let g = witnesses_view(#[trigger] r[i].conflicting@);
                &&& g == group_of(witnesses_view(witnesses@), split_key(r[i]))
                &&& g.len() > 0
                &&& r[i].domain@ == g[0].domain
                &&& disagrees(g)
            },
        forall|i: int, j: int| 0 <= i < j < r.len() ==> key_lt(split_key(r[i]), split_key(r[j])),
        forall|j: int|
            0 <= j < witnesses.len() && disagrees(
                group_of(witnesses_view(witnesses@), wkey(witnesses@[j]@)),
            ) ==> exists|i: int| 0 <= i < r.len() && split_key(r[i]) == wkey(witnesses@[j]@),
{
    let ghost ws = witnesses_view(witnesses@);
    let n = witnesses.len();
    let mut keys: Vec<String> = Vec::new();
    let mut i: usize = 0;
    while i < n
        invariant
            i <= n,
            n == witnesses.len(),
            keys.len() == i,
            forall|j: int| 0 <= j < i ==> encode_utf8(#[trigger] keys@[j]@) == cid_text(witnesses@[j].domain@),
        decreases n - i,
    {
        keys.push(witnesses[i].domain.to_string());
        i = i + 1;
    }
    let mut remaining: Vec<usize> = Vec::new();
    let mut i: usize = 0;
    while i < n
        invariant
            i <= n,
            remaining@ == Seq::new(i as nat, |j: int| j as usize),
        decreases n - i,
    {
        remaining.push(i);
        i = i + 1;
        assert(remaining@ =~= Seq::new(i as nat, |j: int| j as usize));
    }
    let mut out: Vec<SplitView> = Vec::new();
    let ghost mut pk: Option<(Seq<u8>, u64)> = None;
    assert forall|j: int|
        #![trigger remaining@.contains(j as usize)]
        #![trigger witnesses@[j]]
        0 <= j < n implies (remaining@.contains(j as usize) <==> (pk is None || key_lt(
            pk->0,
            wkey(witnesses@[j]@),
        ))) by {
        assert(remaining@[j] == j as usize);
    }
    assert(forall|t: int| 0 <= t < remaining.len() ==> #[trigger] remaining@[t] < n);
    while remaining.len() > 0
        invariant
            n == witnesses.len(),
            ws == witnesses_view(witnesses@),
            keys.len() == n,
            forall|j: int| 0 <= j < keys.len() ==> encode_utf8(#[trigger] keys@[j]@) == cid_text(witnesses@[j].domain@),
            forall|t: int| 0 <= t < remaining.len() ==> #[trigger] remaining@[t] < n,
            forall|j: int|
                #![trigger remaining@.contains(j as usize)]
                #![trigger witnesses@[j]]
                0 <= j < n ==> (remaining@.contains(j as usize) <==> (pk is None || key_lt(
                    pk->0,
                    wkey(witnesses@[j]@),
                ))),
            forall|i: int|
                0 <= i < out.len() ==> {
                    let g = witnesses_view(#[trigger] out@[i].conflicting@);
                    &&& g == group_of(ws, split_key(out@[i]))
                    &&& g.len() > 0
                    &&& out@[i].domain@ == g[0].domain
                    &&& disagrees(g)
                },
            forall|i: int, j: int| 0 <= i < j < out.len() ==> key_lt(split_key(out@[i]), split_key(out@[j])),
            forall|i: int|
                0 <= i < out.len() ==> pk is Some && (key_lt(split_key(#[trigger] out@[i]), pk->0) || split_key(
                    out@[i],
                ) == pk->0),
            forall|j: int|
                0 <= j < n && pk is Some && !key_lt(pk->0, wkey(#[trigger] witnesses@[j]@)) && disagrees(
                    group_of(ws, wkey(witnesses@[j]@)),
                ) ==> exists|i: int| 0 <= i < out.len() && split_key(out@[i]) == wkey(witnesses@[j]@),
        decreases remaining.len(),
    {
        // The least key still to be handled.
        let ghost old_out = out@;
        let mut m = remaining[0];
        let mut t: usize = 1;
        proof {
            lemma_key_irrefl(wkey(witnesses@[m as int]@));
        }
        while t < remaining.len()
            invariant
                1 <= t <= remaining.len(),
                n == witnesses.len(),
                keys.len() == n,
                forall|j: int| 0 <= j < keys.len() ==> encode_utf8(#[trigger] keys@[j]@) == cid_text(witnesses@[j].domain@),
                forall|s: int| 0 <= s < remaining.len() ==> #[trigger] remaining@[s] < n,
                remaining@.contains(m),
                m < n,
                forall|s: int|
                    0 <= s < t ==> !key_lt(
                        wkey(witnesses@[#[trigger] remaining@[s] as int]@),
                        wkey(witnesses@[m as int]@),
                    ),
            decreases remaining.len() - t,
        {
            let c = remaining[t];
            if key_at_lt(&keys, witnesses, c, m) {
                proof {
                    assert forall|s: int| 0 <= s < t implies !key_lt(
                        wkey(witnesses@[#[trigger] remaining@[s] as int]@),
                        wkey(witnesses@[c as int]@),
                    ) by {
                        let a = wkey(witnesses@[remaining@[s] as int]@);
                        if key_lt(a, wkey(witnesses@[c as int]@)) {
                            lemma_key_trans(a, wkey(witnesses@[c as int]@), wkey(witnesses@[m as int]@));
                        }
                    }
                    lemma_key_irrefl(wkey(witnesses@[c as int]@));
                }
                m = c;
            }
            t = t + 1;
        }
        let ghost km = wkey(witnesses@[m as int]@);
        proof {
            lemma_group(ws, km);
            assert(ws[m as int] == witnesses@[m as int]@);
        }
        let group = gather_group(&keys, witnesses, m);
        let ghost gv = witnesses_view(group@);
        proof {
            assert(gv.len() > 0);
            assert(wkey(gv[0]) == km);
        }
        if group_disagrees(&group) {
            let domain = group[0].domain.clone();
            let generation = witnesses[m].generation;
            let sv = SplitView { domain, generation, conflicting: group };
            proof {
                assert(split_key(sv) == km);
                if pk is Some {
                    assert forall|i: int| 0 <= i < out.len() implies key_lt(split_key(out@[i]), km) by {
                        if key_lt(split_key(out@[i]), pk->0) {
                            lemma_key_trans(split_key(out@[i]), pk->0, km);
                        }
                    }
                }
            }
            out.push(sv);
        }
        proof {
            assert(disagrees(group_of(ws, km)) ==> out.len() == old_out.len() + 1);
            assert(out.len() == old_out.len() + 1 ==> split_key(out@[out.len() - 1]) == km);
            assert(out.len() <= old_out.len() + 1);
            assert(forall|i: int| 0 <= i < old_out.len() ==> out@[i] == old_out[i]);
        }
        // Keep only the keys beyond `km`.
        let mut next: Vec<usize> = Vec::new();
        let mut t: usize = 0;
        let ghost mut dropped: bool = false;
        while t < remaining.len()
            invariant
                t <= remaining.len(),
                n == witnesses.len(),
                keys.len() == n,
                m < n,
                km == wkey(witnesses@[m as int]@),
                forall|j: int| 0 <= j < keys.len() ==> encode_utf8(#[trigger] keys@[j]@) == cid_text(witnesses@[j].domain@),
                forall|s: int| 0 <= s < remaining.len() ==> #[trigger] remaining@[s] < n,
                forall|s: int| 0 <= s < next.len() ==> #[trigger] next@[s] < n,
                forall|j: int|
                    #![trigger next@.contains(j as usize)]
                    #![trigger witnesses@[j]]
                    0 <= j < n ==> (next@.contains(j as usize) <==> (remaining@.take(t as int).contains(
                        j as usize,
                    ) && key_lt(km, wkey(witnesses@[j]@)))),
                next.len() + (if dropped { 1int } else { 0int }) <= t,
                dropped || !remaining@.take(t as int).contains(m),
            decreases remaining.len() - t,
        {
            let c = remaining[t];
            assert(remaining@.take(t + 1) =~= remaining@.take(t as int).push(c));
            if key_at_lt(&keys, witnesses, m, c) {
                let ghost before = next@;
                next.push(c);
                proof {
                    assert forall|j: int|
                        #![trigger next@.contains(j as usize)]
                        #![trigger witnesses@[j]]
                        0 <= j < n implies (next@.contains(j as usize) <==> (remaining@.take(
                        t + 1,
                    ).contains(j as usize) && key_lt(km, wkey(witnesses@[j]@)))) by {
                        lemma_push_contains(before, c, j as usize);
                        lemma_push_contains(remaining@.take(t as int), c, j as usize);
                    }
                    if c == m {
                        lemma_key_irrefl(km);
                    }
                }
            } else {
                proof {
                    assert forall|j: int|
                        #![trigger next@.contains(j as usize)]
                        #![trigger witnesses@[j]]
                        0 <= j < n implies (next@.contains(j as usize) <==> (remaining@.take(
                        t + 1,
                    ).contains(j as usize) && key_lt(km, wkey(witnesses@[j]@)))) by {
                        lemma_push_contains(remaining@.take(t as int), c, j as usize);
                    }
                    if c == m {
                        dropped = true;
                    }
                }
            }
            t = t + 1;
        }
        proof {
            assert(remaining@.take(remaining.len() as int) =~= remaining@);
            assert(dropped);
            let old_pk = pk;
            pk = Some(km);
            // Every key still to come lies beyond `km`.
            assert forall|j: int| 0 <= j < n implies (next@.contains(j as usize) <==> key_lt(
                km,
                wkey(#[trigger] witnesses@[j]@),
            )) by {
                if key_lt(km, wkey(witnesses@[j]@)) && old_pk is Some {
                    lemma_key_trans(old_pk->0, km, wkey(witnesses@[j]@));
                }
            }
            assert forall|j: int|
                0 <= j < n && !key_lt(km, wkey(#[trigger] witnesses@[j]@)) && disagrees(
                    group_of(ws, wkey(witnesses@[j]@)),
                ) implies exists|i: int| 0 <= i < out.len() && split_key(out@[i]) == wkey(witnesses@[j]@) by {
                let kj = wkey(witnesses@[j]@);
                if old_pk is Some && !key_lt(old_pk->0, kj) {
                    let i = choose|i: int| 0 <= i < old_out.len() && split_key(old_out[i]) == kj;
                    assert(out@[i] == old_out[i]);
                } else {
                    // Still remaining before this step, so not below the least.
                    assert(remaining@.contains(j as usize));
                    let s = choose|s: int| 0 <= s < remaining.len() && remaining@[s] == j as usize;
                    assert(!key_lt(kj, km));
                    if kj != km {
                        lemma_key_total(kj, km);
                    }
                    assert(ws[j] == witnesses@[j]@);
                    assert(split_key(out@[out.len() - 1]) == km);
                }
            }
            assert forall|i: int| 0 <= i < out.len() implies (key_lt(split_key(#[trigger] out@[i]), km) || split_key(
                out@[i],
            ) == km) by {
                if i < out.len() - 1 || split_key(out@[i]) != km {
                    if old_pk is Some && key_lt(split_key(out@[i]), old_pk->0) {
                        lemma_key_trans(split_key(out@[i]), old_pk->0, km);
                    }
                }
            }
        }
        remaining = next;
    }
    out
}

} // verus!
