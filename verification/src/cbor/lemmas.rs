//! Facts about the canonical encoding that the decoder's proof uses.

use super::{
    be, canonical, canonical_entries, canonical_seq, enc, enc_entries, enc_seq, enc_text, entry_models,
    from_be, head, arg_width, info_for, model, models, simple_code, starts_with, within, within_entries,
    within_seq, Model, Value,
};
use vstd::prelude::*;
use vstd::utf8::*;

verus! {

broadcast use vstd::utf8::group_utf8_lib;

/// 256 to the power `n`.
pub open spec fn pow256(n: nat) -> nat
    decreases n,
{
    if n == 0 {
        1
    } else {
        256 * pow256((n - 1) as nat)
    }
}

pub proof fn lemma_be_len(x: nat, n: nat)
    ensures
        be(x, n).len() == n,
    decreases n,
{
    if n > 0 {
        lemma_be_len(x / 256, (n - 1) as nat);
    }
}

pub proof fn lemma_from_be_bound(b: Seq<u8>)
    ensures
        from_be(b) < pow256(b.len()),
    decreases b.len(),
{
    if b.len() > 0 {
        lemma_from_be_bound(b.drop_last());
    }
}

pub proof fn lemma_be_of_from_be(b: Seq<u8>)
    ensures
        be(from_be(b), b.len()) == b,
    decreases b.len(),
{
    if b.len() > 0 {
        let x = from_be(b);
        let p = from_be(b.drop_last());
        assert(x == p * 256 + b.last());
        assert(x / 256 == p);
        assert(x % 256 == b.last());
        lemma_be_of_from_be(b.drop_last());
        assert(be(x, b.len()) =~= b);
    } else {
        assert(be(from_be(b), 0) =~= b);
    }
}

pub proof fn lemma_from_be_of_be(x: nat, n: nat)
    requires
        x < pow256(n),
    ensures
        from_be(be(x, n)) == x,
    decreases n,
{
    if n > 0 {
        lemma_from_be_of_be(x / 256, (n - 1) as nat);
        lemma_be_len(x, n);
        assert(be(x, n).drop_last() =~= be(x / 256, (n - 1) as nat));
    }
}

pub proof fn lemma_pow256_values()
    ensures
        pow256(0) == 1,
        pow256(1) == 0x100,
        pow256(2) == 0x1_0000,
        pow256(4) == 0x1_0000_0000,
        pow256(8) == 0x1_0000_0000_0000_0000,
{
    reveal_with_fuel(pow256, 9);
}

/// The head's length and first byte.
pub proof fn lemma_head(major: nat, arg: nat)
    requires
        major < 8,
        arg <= u64::MAX,
    ensures
        head(major, arg).len() == 1 + arg_width(arg),
        head(major, arg)[0] == major * 32 + info_for(arg),
        head(major, arg).skip(1) == be(arg, arg_width(arg)),
        arg_width(arg) > 0 ==> arg < pow256(arg_width(arg)),
        arg_width(arg) == 0 ==> info_for(arg) == arg,
        info_for(arg) < 28,
{
    lemma_be_len(arg, arg_width(arg));
    lemma_pow256_values();
    if arg <= 23 {
        assert(arg_width(arg) == 0);
    } else if arg <= 0xff {
        assert(arg_width(arg) == 1);
        assert(arg < pow256(1));
    } else if arg <= 0xffff {
        assert(arg_width(arg) == 2);
        assert(arg < pow256(2));
    } else if arg <= 0xffff_ffff {
        assert(arg_width(arg) == 4);
        assert(arg < pow256(4));
    } else {
        assert(arg_width(arg) == 8);
        assert(arg < pow256(8));
    }
    assert(head(major, arg).skip(1) =~= be(arg, arg_width(arg)));
}

/// The major type of the item a model encodes as.
pub open spec fn m_major(m: Model) -> nat {
    match m {
        Model::Uint(_) => 0,
        Model::Nint(_) => 1,
        Model::Bytes(_) => 2,
        Model::Text(_) => 3,
        Model::Array(_) => 4,
        Model::Dict(_) => 5,
        _ => 7,
    }
}

/// The argument of the head of the item a model encodes as.
pub open spec fn m_arg(m: Model) -> nat {
    match m {
        Model::Uint(n) => n as nat,
        Model::Nint(n) => n as nat,
        Model::Bytes(b) => b.len(),
        Model::Text(t) => encode_utf8(t).len(),
        Model::Array(items) => items.len(),
        Model::Dict(es) => es.len(),
        _ => simple_code(m) as nat,
    }
}

pub proof fn lemma_starts_with_concat(a: Seq<u8>, b: Seq<u8>)
    ensures
        starts_with(a + b, a),
{
    assert((a + b).take(a.len() as int) =~= a);
}

pub proof fn lemma_starts_with_trans(x: Seq<u8>, y: Seq<u8>, z: Seq<u8>)
    requires
        starts_with(x, y),
        starts_with(y, z),
    ensures
        starts_with(x, z),
{
    assert(x.take(z.len() as int) =~= y.take(z.len() as int));
}

/// Every encoding begins with the head its model determines.
pub proof fn lemma_enc_head(m: Model)
    requires
        m_arg(m) <= u64::MAX,
    ensures
        starts_with(enc(m), head(m_major(m), m_arg(m))),
        m_major(m) < 8,
        m_major(m) != 6,
        m_major(m) == 7 ==> 20 <= m_arg(m) <= 22,
{
    let h = head(m_major(m), m_arg(m));
    match m {
        Model::Bool(_) | Model::Null => {
            assert(be(m_arg(m), 0) =~= Seq::<u8>::empty());
            assert(enc(m) =~= h);
            assert(h.take(h.len() as int) =~= h);
        },
        Model::Uint(_) | Model::Nint(_) => {
            assert(enc(m).take(h.len() as int) =~= h);
        },
        Model::Bytes(b) => {
            lemma_starts_with_concat(h, b);
        },
        Model::Text(t) => {
            lemma_starts_with_concat(h, encode_utf8(t));
        },
        Model::Array(items) => {
            lemma_starts_with_concat(h, enc_seq(items));
        },
        Model::Dict(es) => {
            lemma_starts_with_concat(h, enc_entries(es));
        },
    }
}

pub proof fn lemma_enc_nonempty(m: Model)
    ensures
        enc(m).len() >= 1,
{
    match m {
        Model::Bool(_) | Model::Null => {},
        _ => {
            assert(head(m_major(m), m_arg(m)).len() >= 1);
        },
    }
}

pub proof fn lemma_enc_seq_len(s: Seq<Model>)
    ensures
        enc_seq(s).len() >= s.len(),
    decreases s.len(),
{
    if s.len() > 0 {
        lemma_enc_seq_len(s.drop_last());
        lemma_enc_nonempty(s.last());
    }
}

pub proof fn lemma_enc_entries_len(s: Seq<(Seq<char>, Model)>)
    ensures
        enc_entries(s).len() >= s.len(),
    decreases s.len(),
{
    if s.len() > 0 {
        lemma_enc_entries_len(s.drop_last());
        lemma_enc_nonempty(s.last().1);
    }
}

/// Encoding a prefix of a sequence yields a prefix of its encoding.
pub proof fn lemma_enc_seq_prefix(s: Seq<Model>, i: int)
    requires
        0 <= i <= s.len(),
    ensures
        starts_with(enc_seq(s), enc_seq(s.take(i))),
    decreases s.len() - i,
{
    if i == s.len() {
        assert(s.take(i) =~= s);
        assert(enc_seq(s).take(enc_seq(s).len() as int) =~= enc_seq(s));
    } else {
        lemma_enc_seq_prefix(s, i + 1);
        assert(s.take(i + 1).drop_last() =~= s.take(i));
        lemma_starts_with_concat(enc_seq(s.take(i)), enc(s[i]));
        lemma_starts_with_trans(enc_seq(s), enc_seq(s.take(i + 1)), enc_seq(s.take(i)));
    }
}

pub proof fn lemma_enc_entries_prefix(s: Seq<(Seq<char>, Model)>, i: int)
    requires
        0 <= i <= s.len(),
    ensures
        starts_with(enc_entries(s), enc_entries(s.take(i))),
    decreases s.len() - i,
{
    if i == s.len() {
        assert(s.take(i) =~= s);
        assert(enc_entries(s).take(enc_entries(s).len() as int) =~= enc_entries(s));
    } else {
        lemma_enc_entries_prefix(s, i + 1);
        assert(s.take(i + 1).drop_last() =~= s.take(i));
        assert(enc_entries(s.take(i + 1)) =~= enc_entries(s.take(i)) + (enc_text(s[i].0) + enc(
            s[i].1,
        )));
        lemma_starts_with_concat(enc_entries(s.take(i)), enc_text(s[i].0) + enc(s[i].1));
        lemma_starts_with_trans(enc_entries(s), enc_entries(s.take(i + 1)), enc_entries(s.take(i)));
    }
}

pub proof fn lemma_canonical_seq(s: Seq<Model>, i: int)
    requires
        canonical_seq(s),
        0 <= i < s.len(),
    ensures
        canonical(s[i]),
    decreases s.len(),
{
    if i < s.len() - 1 {
        lemma_canonical_seq(s.drop_last(), i);
    }
}

pub proof fn lemma_within_seq(s: Seq<Model>, budget: int, i: int)
    requires
        within_seq(s, budget),
        0 <= i < s.len(),
    ensures
        within(s[i], budget),
    decreases s.len(),
{
    if i < s.len() - 1 {
        lemma_within_seq(s.drop_last(), budget, i);
    }
}

pub proof fn lemma_canonical_entries(s: Seq<(Seq<char>, Model)>, i: int)
    requires
        canonical_entries(s),
        0 <= i < s.len(),
    ensures
        canonical(s[i].1),
        crate::text::is_nfc_text(s[i].0),
    decreases s.len(),
{
    if i < s.len() - 1 {
        lemma_canonical_entries(s.drop_last(), i);
    }
}

pub proof fn lemma_within_entries(s: Seq<(Seq<char>, Model)>, budget: int, i: int)
    requires
        within_entries(s, budget),
        0 <= i < s.len(),
    ensures
        within(s[i].1, budget),
    decreases s.len(),
{
    if i < s.len() - 1 {
        lemma_within_entries(s.drop_last(), budget, i);
    }
}

pub proof fn lemma_models_push(s: Seq<Value>, v: Value)
    ensures
        models(s.push(v)) == models(s).push(model(v)),
{
    assert(s.push(v).drop_last() =~= s);
}

pub proof fn lemma_entry_models_push(s: Seq<(String, Value)>, k: String, v: Value)
    ensures
        entry_models(s.push((k, v))) == entry_models(s).push((k@, model(v))),
{
    assert(s.push((k, v)).drop_last() =~= s);
}

} // verus!
