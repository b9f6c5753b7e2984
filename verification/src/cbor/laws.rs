//! What the codec promises: canonical values round-trip through their
//! encoding, and canonical bytes round-trip through their value.

use super::lemmas::{
    lemma_be_len, lemma_enc_head, lemma_enc_nonempty, lemma_from_be_of_be, lemma_head,
    lemma_starts_with_concat, lemma_starts_with_trans, m_arg, m_major,
};
use super::{
    accepts, arg_width, be, canonical, dec_len, dec_len_entries, dec_len_seq, enc, enc_entries,
    enc_seq, enc_text, encodes, head, info_for, normal, prefix_len, starts_with, within,
    Model,
};
use super::sort::lemma_normal_canonical;
use vstd::prelude::*;
use vstd::utf8::*;

verus! {

broadcast use vstd::utf8::group_utf8_lib;

proof fn lemma_starts_with_append(p: Seq<u8>, r: Seq<u8>)
    ensures
        starts_with(p + r, p),
        (p + r).skip(p.len() as int) == r,
{
    lemma_starts_with_concat(p, r);
    assert((p + r).skip(p.len() as int) =~= r);
}

/// The decoder's grammar reads a canonical encoding as exactly its model,
/// whatever follows it.
proof fn lemma_dec_len_enc(m: Model, r: Seq<u8>)
    ensures
        dec_len(m, enc(m) + r) == Some(enc(m).len()),
    decreases m,
{
    let b = enc(m) + r;
    lemma_starts_with_append(enc(m), r);
    match m {
        Model::Array(items) => {
            let h = head(4, items.len());
            assert(enc(m) + r =~= h + (enc_seq(items) + r));
            lemma_starts_with_append(h, enc_seq(items) + r);
            lemma_dec_len_enc_seq(items, r);
        },
        Model::Dict(es) => {
            let h = head(5, es.len());
            assert(enc(m) + r =~= h + (enc_entries(es) + r));
            lemma_starts_with_append(h, enc_entries(es) + r);
            lemma_dec_len_enc_entries(es, r);
        },
        _ => {},
    }
}

proof fn lemma_dec_len_enc_seq(s: Seq<Model>, r: Seq<u8>)
    ensures
        dec_len_seq(s, enc_seq(s) + r) == Some(enc_seq(s).len()),
    decreases s,
{
    if s.len() > 0 {
        let prev = enc_seq(s.drop_last());
        let last = enc(s.last());
        assert(enc_seq(s) + r =~= prev + (last + r));
        lemma_dec_len_enc_seq(s.drop_last(), last + r);
        lemma_starts_with_append(prev, last + r);
        lemma_dec_len_enc(s.last(), r);
    }
}

proof fn lemma_dec_len_enc_entries(s: Seq<(Seq<char>, Model)>, r: Seq<u8>)
    ensures
        dec_len_entries(s, enc_entries(s) + r) == Some(enc_entries(s).len()),
    decreases s,
{
    if s.len() > 0 {
        let prev = enc_entries(s.drop_last());
        let key = enc_text(s.last().0);
        let val = enc(s.last().1);
        assert(enc_entries(s) + r =~= prev + (key + (val + r)));
        lemma_dec_len_enc_entries(s.drop_last(), key + (val + r));
        lemma_starts_with_append(prev, key + (val + r));
        lemma_starts_with_append(key, val + r);
        let b = enc_entries(s) + r;
        assert(b.skip((prev.len() + key.len()) as int) =~= val + r);
        lemma_dec_len_enc(s.last().1, r);
    }
}

/// Two shortest-form heads at the start of one byte string agree.
proof fn lemma_head_unique(m1: nat, a1: nat, m2: nat, a2: nat, b: Seq<u8>)
    requires
        m1 < 8,
        m2 < 8,
        a1 <= u64::MAX,
        a2 <= u64::MAX,
        starts_with(b, head(m1, a1)),
        starts_with(b, head(m2, a2)),
    ensures
        m1 == m2,
        a1 == a2,
{
    lemma_head(m1, a1);
    lemma_head(m2, a2);
    let h1 = head(m1, a1);
    let h2 = head(m2, a2);
    assert(b.take(h1.len() as int)[0] == b[0]);
    assert(b.take(h2.len() as int)[0] == b[0]);
    let x = b[0] as int;
    assert(x == m1 * 32 + info_for(a1));
    assert(x == m2 * 32 + info_for(a2));
    assert(m1 == m2 && info_for(a1) == info_for(a2)) by (nonlinear_arith)
        requires
            x == m1 * 32 + info_for(a1),
            x == m2 * 32 + info_for(a2),
            info_for(a1) < 32,
            info_for(a2) < 32,
    ;
    let w = arg_width(a1);
    assert(arg_width(a2) == w);
    if w > 0 {
        assert(b.subrange(1, 1 + w as int) =~= be(a1, w)) by {
            assert forall|i: int| 0 <= i < w implies b.subrange(1, 1 + w as int)[i] == be(a1, w)[i] by {
                assert(b.take(h1.len() as int)[1 + i] == h1[1 + i]);
                assert(h1.skip(1)[i] == h1[1 + i]);
            }
        }
        assert(b.subrange(1, 1 + w as int) =~= be(a2, w)) by {
            assert forall|i: int| 0 <= i < w implies b.subrange(1, 1 + w as int)[i] == be(a2, w)[i] by {
                assert(b.take(h2.len() as int)[1 + i] == h2[1 + i]);
                assert(h2.skip(1)[i] == h2[1 + i]);
            }
        }
        lemma_from_be_of_be(a1, w);
        lemma_from_be_of_be(a2, w);
    }
}

/// What the grammar reads fits within the bytes, and covers the head's
/// argument for lengths.
proof fn lemma_dec_len_bounds(m: Model, b: Seq<u8>)
    requires
        dec_len(m, b) is Some,
    ensures
        1 <= dec_len(m, b)->0 <= b.len(),
        m_arg(m) <= u64::MAX || m_arg(m) <= b.len(),
    decreases m,
{
    match m {
        Model::Array(items) => {
            let h = head(4, items.len());
            lemma_dec_len_seq_bounds(items, b.skip(h.len() as int));
        },
        Model::Dict(es) => {
            let h = head(5, es.len());
            lemma_dec_len_entries_bounds(es, b.skip(h.len() as int));
        },
        Model::Uint(_) | Model::Nint(_) | Model::Bool(_) | Model::Null => {
            lemma_enc_nonempty(m);
        },
        _ => {
            lemma_enc_nonempty(m);
        },
    }
}

proof fn lemma_dec_len_seq_bounds(s: Seq<Model>, b: Seq<u8>)
    requires
        dec_len_seq(s, b) is Some,
    ensures
        s.len() <= dec_len_seq(s, b)->0 <= b.len(),
    decreases s,
{
    if s.len() > 0 {
        lemma_dec_len_seq_bounds(s.drop_last(), b);
        let k = dec_len_seq(s.drop_last(), b)->0;
        lemma_dec_len_bounds(s.last(), b.skip(k as int));
    }
}

proof fn lemma_dec_len_entries_bounds(s: Seq<(Seq<char>, Model)>, b: Seq<u8>)
    requires
        dec_len_entries(s, b) is Some,
    ensures
        s.len() <= dec_len_entries(s, b)->0 <= b.len(),
    decreases s,
{
    if s.len() > 0 {
        lemma_dec_len_entries_bounds(s.drop_last(), b);
        let k = dec_len_entries(s.drop_last(), b)->0;
        let key = enc_text(s.last().0);
        lemma_dec_len_bounds(s.last().1, b.skip((k + key.len()) as int));
    }
}

/// The head a model's grammar begins with.
proof fn lemma_dec_len_head(m: Model, b: Seq<u8>)
    requires
        dec_len(m, b) is Some,
        b.len() <= u64::MAX,
    ensures
        starts_with(b, head(m_major(m), m_arg(m))),
        m_arg(m) <= u64::MAX,
        m_major(m) < 8,
{
    lemma_dec_len_bounds(m, b);
    lemma_enc_head(m);
    match m {
        Model::Array(_) | Model::Dict(_) => {},
        _ => {
            lemma_starts_with_trans(b, enc(m), head(m_major(m), m_arg(m)));
        },
    }
}

/// The decoder's grammar is unambiguous: one byte string begins with the
/// reading of at most one model.
proof fn lemma_unambiguous(m1: Model, m2: Model, b: Seq<u8>)
    requires
        dec_len(m1, b) is Some,
        dec_len(m2, b) is Some,
        b.len() <= u64::MAX,
    ensures
        m1 == m2,
    decreases m1,
{
    lemma_dec_len_head(m1, b);
    lemma_dec_len_head(m2, b);
    lemma_head_unique(m_major(m1), m_arg(m1), m_major(m2), m_arg(m2), b);
    match m1 {
        Model::Bytes(x1) => {
            let x2 = m2->Bytes_0;
            let h = head(2, x1.len());
            assert(x1 =~= x2) by {
                assert forall|i: int| 0 <= i < x1.len() implies x1[i] == x2[i] by {
                    assert(b.take(enc(m1).len() as int)[h.len() + i] == enc(m1)[h.len() + i]);
                    assert(b.take(enc(m2).len() as int)[h.len() + i] == enc(m2)[h.len() + i]);
                }
            }
        },
        Model::Text(t1) => {
            lemma_text_unique(t1, m2->Text_0, b);
        },
        Model::Array(s1) => {
            let s2 = m2->Array_0;
            let h = head(4, s1.len());
            lemma_unambiguous_seq(s1, s2, b.skip(h.len() as int));
        },
        Model::Dict(e1) => {
            let e2 = m2->Dict_0;
            let h = head(5, e1.len());
            lemma_unambiguous_entries(e1, e2, b.skip(h.len() as int));
        },
        _ => {},
    }
}

/// Two text strings encoded at the start of one byte string are equal.
proof fn lemma_text_unique(t1: Seq<char>, t2: Seq<char>, b: Seq<u8>)
    requires
        starts_with(b, enc_text(t1)),
        starts_with(b, enc_text(t2)),
        b.len() <= u64::MAX,
    ensures
        t1 == t2,
{
    let e1 = enc_text(t1);
    let e2 = enc_text(t2);
    let h1 = head(3, encode_utf8(t1).len());
    let h2 = head(3, encode_utf8(t2).len());
    lemma_starts_with_concat(h1, encode_utf8(t1));
    lemma_starts_with_concat(h2, encode_utf8(t2));
    lemma_starts_with_trans(b, e1, h1);
    lemma_starts_with_trans(b, e2, h2);
    lemma_head_unique(3, encode_utf8(t1).len(), 3, encode_utf8(t2).len(), b);
    assert(encode_utf8(t1) =~= encode_utf8(t2)) by {
        assert forall|i: int| 0 <= i < encode_utf8(t1).len() implies encode_utf8(t1)[i]
            == encode_utf8(t2)[i] by {
            assert(b.take(e1.len() as int)[h1.len() + i] == e1[h1.len() + i]);
            assert(b.take(e2.len() as int)[h2.len() + i] == e2[h2.len() + i]);
        }
    }
    assert(decode_utf8(encode_utf8(t1)) == t1);
    assert(decode_utf8(encode_utf8(t2)) == t2);
}

proof fn lemma_unambiguous_seq(s1: Seq<Model>, s2: Seq<Model>, b: Seq<u8>)
    requires
        dec_len_seq(s1, b) is Some,
        dec_len_seq(s2, b) is Some,
        s1.len() == s2.len(),
        b.len() <= u64::MAX,
    ensures
        s1 == s2,
    decreases s1,
{
    if s1.len() > 0 {
        lemma_unambiguous_seq(s1.drop_last(), s2.drop_last(), b);
        let k = dec_len_seq(s1.drop_last(), b)->0;
        lemma_dec_len_seq_bounds(s1.drop_last(), b);
        lemma_unambiguous(s1.last(), s2.last(), b.skip(k as int));
        assert(s1 =~= s2.drop_last().push(s2.last()));
        assert(s2 =~= s2.drop_last().push(s2.last()));
    } else {
        assert(s1 =~= s2);
    }
}

proof fn lemma_unambiguous_entries(
    s1: Seq<(Seq<char>, Model)>,
    s2: Seq<(Seq<char>, Model)>,
    b: Seq<u8>,
)
    requires
        dec_len_entries(s1, b) is Some,
        dec_len_entries(s2, b) is Some,
        s1.len() == s2.len(),
        b.len() <= u64::MAX,
    ensures
        s1 == s2,
    decreases s1,
{
    if s1.len() > 0 {
        lemma_unambiguous_entries(s1.drop_last(), s2.drop_last(), b);
        let k = dec_len_entries(s1.drop_last(), b)->0;
        lemma_dec_len_entries_bounds(s1.drop_last(), b);
        let t1 = s1.last().0;
        let t2 = s2.last().0;
        let rest = b.skip(k as int);
        // The keys are both text strings at the same place.
        lemma_text_unique(t1, t2, rest);
        let key = enc_text(t1);
        lemma_unambiguous(s1.last().1, s2.last().1, b.skip((k + key.len()) as int));
        assert(s1 =~= s2.drop_last().push(s2.last()));
        assert(s2 =~= s2.drop_last().push(s2.last()));
    } else {
        assert(s1 =~= s2);
    }
}

proof fn lemma_starts_with_join(b: Seq<u8>, x: Seq<u8>, y: Seq<u8>)
    requires
        starts_with(b, x),
        starts_with(b.skip(x.len() as int), y),
    ensures
        starts_with(b, x + y),
{
    assert(b.take((x + y).len() as int) =~= x + y) by {
        assert forall|i: int| 0 <= i < (x + y).len() implies b.take((x + y).len() as int)[i] == (x + y)[i] by {
            if i < x.len() {
                assert(b.take(x.len() as int)[i] == x[i]);
            } else {
                assert(b.skip(x.len() as int).take(y.len() as int)[i - x.len()] == y[i - x.len()]);
            }
        }
    }
}

/// What the decoder's grammar reads of a model is its canonical encoding.
proof fn lemma_dec_len_is_enc(m: Model, b: Seq<u8>)
    requires
        dec_len(m, b) is Some,
    ensures
        starts_with(b, enc(m)),
        dec_len(m, b)->0 == enc(m).len(),
    decreases m,
{
    match m {
        Model::Array(items) => {
            let h = head(4, items.len());
            lemma_dec_len_seq_is_enc(items, b.skip(h.len() as int));
            lemma_starts_with_join(b, h, enc_seq(items));
        },
        Model::Dict(es) => {
            let h = head(5, es.len());
            lemma_dec_len_entries_is_enc(es, b.skip(h.len() as int));
            lemma_starts_with_join(b, h, enc_entries(es));
        },
        _ => {},
    }
}

proof fn lemma_dec_len_seq_is_enc(s: Seq<Model>, b: Seq<u8>)
    requires
        dec_len_seq(s, b) is Some,
    ensures
        starts_with(b, enc_seq(s)),
        dec_len_seq(s, b)->0 == enc_seq(s).len(),
    decreases s,
{
    if s.len() == 0 {
        assert(b.take(0) =~= Seq::<u8>::empty());
    } else {
        lemma_dec_len_seq_is_enc(s.drop_last(), b);
        let k = dec_len_seq(s.drop_last(), b)->0;
        lemma_dec_len_is_enc(s.last(), b.skip(k as int));
        lemma_starts_with_join(b, enc_seq(s.drop_last()), enc(s.last()));
    }
}

proof fn lemma_dec_len_entries_is_enc(s: Seq<(Seq<char>, Model)>, b: Seq<u8>)
    requires
        dec_len_entries(s, b) is Some,
    ensures
        starts_with(b, enc_entries(s)),
        dec_len_entries(s, b)->0 == enc_entries(s).len(),
    decreases s,
{
    if s.len() == 0 {
        assert(b.take(0) =~= Seq::<u8>::empty());
    } else {
        lemma_dec_len_entries_is_enc(s.drop_last(), b);
        let k = dec_len_entries(s.drop_last(), b)->0;
        let a = enc_entries(s.drop_last());
        let key = enc_text(s.last().0);
        lemma_starts_with_join(b, a, key);
        assert(b.skip((k + key.len()) as int) == b.skip((a + key).len() as int));
        lemma_dec_len_is_enc(s.last().1, b.skip((k + key.len()) as int));
        lemma_starts_with_join(b, a + key, enc(s.last().1));
    }
}

/// A value the decoder accepts re-encodes to exactly the bytes it was
/// read from: its maps are already in key order, so the encoder writes
/// them as they came, and no value has two accepted encodings.
pub proof fn law_decoded_reencodes(b: Seq<u8>, m: Model, max_bytes: int, max_depth: int)
    requires
        accepts(b, m, max_bytes, max_depth),
    ensures
        enc(normal(m)) == b,
{
    lemma_dec_len_is_enc(m, b);
    lemma_normal_canonical(m);
    assert(b.take(b.len() as int) =~= b);
}

/// A canonical value, within the decoder's limits, survives a round trip
/// through its encoding: it is what the encoder writes, and the decoder
/// accepts the encoding and reads it as that value and no other.
pub proof fn law_value_round_trip(m: Model, m2: Model, max_bytes: int, max_depth: int)
    requires
        canonical(m),
        within(m, max_depth),
        enc(m).len() <= max_bytes,
        enc(m).len() <= u64::MAX,
    ensures
        normal(m) == m,
        encodes(enc(m), m, max_bytes, max_depth),
        accepts(enc(m), m, max_bytes, max_depth),
        accepts(enc(m), m2, max_bytes, max_depth) ==> m2 == m,
{
    lemma_normal_canonical(m);
    lemma_dec_len_enc(m, Seq::empty());
    assert(enc(m) + Seq::<u8>::empty() =~= enc(m));
    if accepts(enc(m), m2, max_bytes, max_depth) {
        lemma_unambiguous(m, m2, enc(m));
    }
}

/// Canonical bytes survive a round trip through their value: whatever the
/// decoder reads from the canonical encoding of some value re-encodes to
/// exactly those bytes.
pub proof fn law_bytes_round_trip(b: Seq<u8>, m0: Model, m: Model, max_bytes: int, max_depth: int)
    requires
        encodes(b, m0, max_bytes, max_depth),
        accepts(b, m, max_bytes, max_depth),
        b.len() <= u64::MAX,
    ensures
        enc(m) == b,
{
    law_value_round_trip(m0, m, max_bytes, max_depth);
}

/// The decoder reads bytes in at most one way: two values it accepts for
/// the same bytes are the same value.
pub proof fn law_reading_unique(b: Seq<u8>, m1: Model, m2: Model, max_bytes: int, max_depth: int)
    requires
        accepts(b, m1, max_bytes, max_depth),
        accepts(b, m2, max_bytes, max_depth),
        b.len() <= u64::MAX,
    ensures
        m1 == m2,
{
    lemma_unambiguous(m1, m2, b);
}

/// Distinct models have distinct encodings.
pub proof fn law_encoding_injective(m1: Model, m2: Model)
    requires
        enc(m1) == enc(m2),
        enc(m1).len() <= u64::MAX,
    ensures
        m1 == m2,
{
    lemma_dec_len_enc(m1, Seq::empty());
    lemma_dec_len_enc(m2, Seq::empty());
    assert(enc(m1) + Seq::<u8>::empty() =~= enc(m1));
    assert(enc(m2) + Seq::<u8>::empty() =~= enc(m2));
    lemma_unambiguous(m1, m2, enc(m1));
}

} // verus!
