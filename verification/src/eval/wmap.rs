//! Weight tables keyed by text, kept in ascending key order.
//!
//! Every table the propagation builds is walked in key order, so that the
//! order in which saturating sums accumulate is fixed by the keys and not
//! by the order the inputs arrived in.

use crate::cbor::{lemma_lex_irrefl, lemma_lex_total, lemma_lex_trans, lex_lt};
use crate::eval::fixed::{clamp, Fixed6};
use crate::text::text_eq;
use vstd::prelude::*;
use vstd::utf8::*;

verus! {

broadcast use vstd::utf8::group_utf8_lib;

/// A table of weights: keys and the weights they carry.
pub type WTable = Seq<(Seq<char>, int)>;

/// Whether key `a` sorts before key `b`.
pub open spec fn key_before(a: Seq<char>, b: Seq<char>) -> bool {
    lex_lt(encode_utf8(a), encode_utf8(b))
}

/// Add `v` to the weight under `k`, inserting the key in order when it is
/// new.
pub open spec fn add_at(m: WTable, k: Seq<char>, v: int) -> WTable
    decreases m.len(),
{
    if m.len() == 0 {
        seq![(k, clamp(v))]
    } else if m[0].0 == k {
        seq![(k, clamp(m[0].1 + v))] + m.drop_first()
    } else if key_before(k, m[0].0) {
        seq![(k, clamp(v))] + m
    } else {
        seq![m[0]] + add_at(m.drop_first(), k, v)
    }
}

/// The view of an executable table.
pub open spec fn table_view(t: Seq<(String, Fixed6)>) -> WTable {
    t.map_values(|e: (String, Fixed6)| (e.0@, e.1@))
}

/// The weight under `k` in a table, if any.
pub open spec fn table_get(m: WTable, k: Seq<char>) -> Option<int>
    decreases m.len(),
{
    if m.len() == 0 {
        None
    } else if m[0].0 == k {
        Some(m[0].1)
    } else {
        table_get(m.drop_first(), k)
    }
}

/// Adding where the first `i` keys sort before `k` passes over them.
proof fn lemma_add_at_split(m: WTable, k: Seq<char>, v: int, i: int)
    requires
        0 <= i <= m.len(),
        forall|j: int| 0 <= j < i ==> key_before(#[trigger] m[j].0, k),
    ensures
        add_at(m, k, v) == m.take(i) + add_at(m.skip(i), k, v),
    decreases i,
{
    if i > 0 {
        lemma_lex_irrefl(encode_utf8(k));
        assert(m[0].0 != k);
        if key_before(k, m[0].0) {
            lemma_lex_trans(encode_utf8(k), encode_utf8(m[0].0), encode_utf8(k));
        }
        let r = m.drop_first();
        assert forall|j: int| 0 <= j < i - 1 implies key_before(#[trigger] r[j].0, k) by {
            assert(r[j] == m[j + 1]);
        }
        lemma_add_at_split(r, k, v, i - 1);
        assert(r.take(i - 1) =~= m.take(i).drop_first());
        assert(r.skip(i - 1) =~= m.skip(i));
        assert(m.take(i) =~= seq![m[0]] + m.take(i).drop_first());
    } else {
        assert(m.skip(0) =~= m);
        assert(m.take(0) =~= Seq::<(Seq<char>, int)>::empty());
        assert(m.take(0) + add_at(m, k, v) =~= add_at(m, k, v));
    }
}

/// Add `w` to the weight under `key`, inserting the key in order.
pub fn table_add(t: &mut Vec<(String, Fixed6)>, key: &str, w: Fixed6)
    ensures
        table_view(final(t)@) == add_at(table_view(old(t)@), key@, w@),
{
    let ghost m = table_view(t@);
    let mut i: usize = 0;
    while i < t.len() && crate::cbor::lex_less_bytes(t[i].0.as_str().as_bytes(), key.as_bytes())
        invariant
            i <= t.len(),
            m == table_view(t@),
            m.len() == t.len(),
            forall|j: int| 0 <= j < i ==> key_before(#[trigger] m[j].0, key@),
        decreases t.len() - i,
    {
        assert(m[i as int] == (t@[i as int].0@, t@[i as int].1@));
        i = i + 1;
    }
    proof {
        lemma_add_at_split(m, key@, w@, i as int);
    }
    let ghost rest = m.skip(i as int);
    if i < t.len() && text_eq(t[i].0.as_str(), key) {
        let cur = t[i].1;
        let s = cur + w;
        let k = crate::text::copy_text(key);
        t.set(i, (k, s));
        proof {
            assert(rest[0] == m[i as int]);
            assert(table_view(t@) =~= m.take(i as int) + add_at(rest, key@, w@)) by {
                assert(add_at(rest, key@, w@) =~= seq![(key@, clamp(rest[0].1 + w@))] + rest.drop_first());
            }
        }
    } else {
        proof {
            if i < t.len() {
                assert(m[i as int] == (t@[i as int].0@, t@[i as int].1@));
                assert(rest[0] == m[i as int]);
                let a = encode_utf8(m[i as int].0);
                let b = encode_utf8(key@);
                if a == b {
                    assert(decode_utf8(a) == m[i as int].0);
                }
                lemma_lex_total(a, b);
            }
        }
        let k = crate::text::copy_text(key);
        let z = Fixed6::zero() + w;
        t.insert(i, (k, z));
        proof {
            if i < m.len() {
                assert(add_at(rest, key@, w@) =~= seq![(key@, clamp(w@))] + rest);
            } else {
                assert(rest =~= Seq::<(Seq<char>, int)>::empty());
            }
            assert(table_view(t@) =~= m.take(i as int) + add_at(rest, key@, w@));
        }
    }
}

/// Find the weight under `key`.
pub fn table_find(t: &Vec<(String, Fixed6)>, key: &str) -> (r: Option<Fixed6>)
    ensures
        match r {
            Some(w) => table_get(table_view(t@), key@) == Some(w@),
            None => table_get(table_view(t@), key@) is None,
        },
{
    let ghost m = table_view(t@);
    let mut i: usize = 0;
    assert(m.skip(0) =~= m);
    while i < t.len()
        invariant
            i <= t.len(),
            m == table_view(t@),
            m.len() == t.len(),
            table_get(m.skip(i as int), key@) == table_get(m, key@),
        decreases t.len() - i,
    {
        assert(m[i as int] == (t@[i as int].0@, t@[i as int].1@));
        assert(m.skip(i as int).drop_first() =~= m.skip(i + 1));
        if text_eq(t[i].0.as_str(), key) {
            return Some(t[i].1);
        }
        i = i + 1;
    }
    None
}

/// Whether a table's keys ascend strictly.
pub open spec fn ascending_table(m: WTable) -> bool {
    forall|i: int, j: int| 0 <= i < j < m.len() ==> key_before(#[trigger] m[i].0, #[trigger] m[j].0)
}

/// The weight under `k`, zero when the key is absent.
pub open spec fn get_or_zero(m: WTable, k: Seq<char>) -> int {
    match table_get(m, k) {
        Some(w) => w,
        None => 0,
    }
}

/// A key that sorts before every key of an ascending table is not in it.
pub(crate) proof fn lemma_get_below(m: WTable, k: Seq<char>)
    requires
        ascending_table(m),
        forall|j: int| 0 <= j < m.len() ==> key_before(k, #[trigger] m[j].0),
    ensures
        table_get(m, k) is None,
    decreases m.len(),
{
    if m.len() > 0 {
        crate::eval::order::lemma_key_order(k, m[0].0);
        let t = m.drop_first();
        assert forall|i: int, j: int| 0 <= i < j < t.len() implies key_before(#[trigger] t[i].0, #[trigger] t[j].0) by {
            assert(t[i] == m[i + 1] && t[j] == m[j + 1]);
        }
        assert forall|j: int| 0 <= j < t.len() implies key_before(k, #[trigger] t[j].0) by {
            assert(t[j] == m[j + 1]);
        }
        lemma_get_below(t, k);
    }
}

/// Adding to an ascending table keeps it ascending, adds to the weight
/// under that key alone, and brings in no key below both the old keys
/// and the new one.
pub(crate) proof fn lemma_add_at_get(m: WTable, k: Seq<char>, v: int)
    requires
        ascending_table(m),
    ensures
        ascending_table(add_at(m, k, v)),
        table_get(add_at(m, k, v), k) == Some(clamp(get_or_zero(m, k) + v)),
        forall|x: Seq<char>| x != k ==> #[trigger] table_get(add_at(m, k, v), x) == table_get(m, x),
        forall|z: Seq<char>|
            (forall|j: int| 0 <= j < m.len() ==> key_before(z, #[trigger] m[j].0)) && key_before(z, k) ==> (forall|j: int|
                0 <= j < add_at(m, k, v).len() ==> key_before(z, #[trigger] add_at(m, k, v)[j].0)),
    decreases m.len(),
{
    let r = add_at(m, k, v);
    if m.len() == 0 {
        assert forall|x: Seq<char>| x != k implies #[trigger] table_get(r, x) == table_get(m, x) by {
            assert(r.drop_first() =~= Seq::<(Seq<char>, int)>::empty());
            assert(table_get(r.drop_first(), x) is None);
        }
    } else if m[0].0 == k {
        let t = m.drop_first();
        assert(r == seq![(k, clamp(m[0].1 + v))] + t);
        assert forall|i: int, j: int| 0 <= i < j < r.len() implies key_before(#[trigger] r[i].0, #[trigger] r[j].0) by {
            assert(r[i].0 == m[i].0 && r[j].0 == m[j].0);
        }
        assert forall|x: Seq<char>| x != k implies #[trigger] table_get(r, x) == table_get(m, x) by {
            assert(r.drop_first() =~= t);
        }
        assert forall|z: Seq<char>|
            (forall|j: int| 0 <= j < m.len() ==> key_before(z, #[trigger] m[j].0)) && key_before(z, k) implies (forall|j: int|
                0 <= j < r.len() ==> key_before(z, #[trigger] r[j].0)) by {
            assert forall|j: int| 0 <= j < r.len() implies key_before(z, #[trigger] r[j].0) by {
                assert(r[j].0 == m[j].0);
            }
        }
    } else if key_before(k, m[0].0) {
        assert forall|j: int| 0 <= j < m.len() implies key_before(k, #[trigger] m[j].0) by {
            if j > 0 {
                crate::eval::order::lemma_key_trans(k, m[0].0, m[j].0);
            }
        }
        lemma_get_below(m, k);
        assert forall|i: int, j: int| 0 <= i < j < r.len() implies key_before(#[trigger] r[i].0, #[trigger] r[j].0) by {
            if i == 0 {
                assert(r[j] == m[j - 1]);
            } else {
                assert(r[i] == m[i - 1] && r[j] == m[j - 1]);
            }
        }
        assert forall|x: Seq<char>| x != k implies #[trigger] table_get(r, x) == table_get(m, x) by {
            assert(r.drop_first() =~= m);
        }
        assert forall|z: Seq<char>|
            (forall|j: int| 0 <= j < m.len() ==> key_before(z, #[trigger] m[j].0)) && key_before(z, k) implies (forall|j: int|
                0 <= j < r.len() ==> key_before(z, #[trigger] r[j].0)) by {
            assert forall|j: int| 0 <= j < r.len() implies key_before(z, #[trigger] r[j].0) by {
                if j > 0 {
                    assert(r[j] == m[j - 1]);
                }
            }
        }
    } else {
        let t = m.drop_first();
        crate::eval::order::lemma_key_order(k, m[0].0);
        assert forall|i: int, j: int| 0 <= i < j < t.len() implies key_before(#[trigger] t[i].0, #[trigger] t[j].0) by {
            assert(t[i] == m[i + 1] && t[j] == m[j + 1]);
        }
        lemma_add_at_get(t, k, v);
        let rt = add_at(t, k, v);
        assert(r == seq![m[0]] + rt);
        assert forall|j: int| 0 <= j < t.len() implies key_before(m[0].0, #[trigger] t[j].0) by {
            assert(t[j] == m[j + 1]);
        }
        assert(forall|j: int| 0 <= j < rt.len() ==> key_before(m[0].0, #[trigger] rt[j].0));
        assert forall|i: int, j: int| 0 <= i < j < r.len() implies key_before(#[trigger] r[i].0, #[trigger] r[j].0) by {
            if i == 0 {
                assert(r[j] == rt[j - 1]);
            } else {
                assert(r[i] == rt[i - 1] && r[j] == rt[j - 1]);
            }
        }
        assert(r.drop_first() =~= rt);
        assert(table_get(m, k) == table_get(t, k));
        assert forall|x: Seq<char>| x != k implies #[trigger] table_get(r, x) == table_get(m, x) by {
            if x != m[0].0 {
                assert(table_get(rt, x) == table_get(t, x));
            }
        }
        assert forall|z: Seq<char>|
            (forall|j: int| 0 <= j < m.len() ==> key_before(z, #[trigger] m[j].0)) && key_before(z, k) implies (forall|j: int|
                0 <= j < r.len() ==> key_before(z, #[trigger] r[j].0)) by {
            assert forall|j: int| 0 <= j < t.len() implies key_before(z, #[trigger] t[j].0) by {
                assert(t[j] == m[j + 1]);
            }
            assert forall|j: int| 0 <= j < r.len() implies key_before(z, #[trigger] r[j].0) by {
                if j == 0 {
                    assert(r[0] == m[0]);
                } else {
                    assert(r[j] == rt[j - 1]);
                }
            }
        }
    }
}

} // verus!
