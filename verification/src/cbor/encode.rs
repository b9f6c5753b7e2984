//! Canonical encoder for the deterministic CBOR profile.
//!
//! Encoding is total: every [`Value`] has exactly one representation, the
//! spec function [`enc`] of its model.

use super::{enc, enc_entries, enc_seq, enc_text, entry_models, head, model, models, be, normal, normal_entries, normal_seq, sorted_entries, Value};
use super::sort::{key_order, lemma_sorted_normal, picked};
use vstd::prelude::*;
use vstd::utf8::*;

verus! {

/// Append the low `8n` bits of `x`, most significant byte first.
pub(crate) fn push_be(out: &mut Vec<u8>, x: u64, n: usize)
    requires
        n <= 8,
    ensures
        final(out)@ == old(out)@ + be(x as nat, n as nat),
    decreases n,
{
    if n == 0 {
        assert(old(out)@ + be(x as nat, 0) =~= old(out)@);
    } else {
        push_be(out, x / 256, n - 1);
        out.push((x % 256) as u8);
        assert(final(out)@ =~= old(out)@ + be(x as nat, n as nat));
    }
}

/// Write a CBOR head with the shortest argument encoding that fits.
fn write_head(out: &mut Vec<u8>, major: u8, arg: u64)
    requires
        major < 8,
    ensures
        final(out)@ == old(out)@ + head(major as nat, arg as nat),
{
    let m: u8 = major * 32;
    if arg <= 23 {
        out.push(m + arg as u8);
        assert(be(arg as nat, 0) =~= Seq::<u8>::empty());
    } else if arg <= 0xff {
        out.push(m + 24);
        push_be(out, arg, 1);
    } else if arg <= 0xffff {
        out.push(m + 25);
        push_be(out, arg, 2);
    } else if arg <= 0xffff_ffff {
        out.push(m + 26);
        push_be(out, arg, 4);
    } else {
        out.push(m + 27);
        push_be(out, arg, 8);
    }
    assert(final(out)@ =~= old(out)@ + head(major as nat, arg as nat));
}

/// Append every byte of a slice.
fn push_all(out: &mut Vec<u8>, bytes: &[u8])
    ensures
        final(out)@ == old(out)@ + bytes@,
{
    let mut i: usize = 0;
    while i < bytes.len()
        invariant
            i <= bytes.len(),
            out@ == old(out)@ + bytes@.take(i as int),
        decreases bytes.len() - i,
    {
        out.push(bytes[i]);
        i = i + 1;
        assert(out@ =~= old(out)@ + bytes@.take(i as int));
    }
    assert(bytes@.take(bytes.len() as int) =~= bytes@);
}

/// Write a text string: its head and its UTF-8 bytes.
fn write_text(out: &mut Vec<u8>, s: &str)
    ensures
        final(out)@ == old(out)@ + enc_text(s@),
{
    let bytes = s.as_bytes();
    write_head(out, 3, bytes.len() as u64);
    push_all(out, bytes);
    assert(final(out)@ =~= old(out)@ + enc_text(s@));
}

fn write_value(out: &mut Vec<u8>, value: &Value)
    ensures
        final(out)@ == old(out)@ + enc(normal(model(*value))),
    decreases value,
{
    match value {
        Value::Uint(n) => write_head(out, 0, *n),
        Value::Nint(n) => write_head(out, 1, *n),
        Value::Bytes(b) => {
            write_head(out, 2, b.len() as u64);
            push_all(out, b.as_slice());
            assert(final(out)@ =~= old(out)@ + enc(model(*value)));
        },
        Value::Text(s) => write_text(out, s.as_str()),
        Value::Array(items) => {
            write_head(out, 4, items.len() as u64);
            let ghost start = out@;
            let mut i: usize = 0;
            while i < items.len()
                invariant
                    i <= items.len(),
                    *value == Value::Array(*items),
                    out@ == start + enc_seq(normal_seq(models(items@.take(i as int)))),
                decreases items.len() - i,
            {
                proof {
                    assert(decreases_to!(*value => value->Array_0));
                    assert(decreases_to!(value->Array_0 => value->Array_0@));
                    assert(decreases_to!(value->Array_0@ => value->Array_0@[i as int]));
                }
                write_value(out, &items[i]);
                proof {
                    let t = items@.take(i + 1);
                    assert(t.drop_last() =~= items@.take(i as int));
                    let ms = models(t);
                    assert(ms.drop_last() =~= models(items@.take(i as int)));
                    assert(ms.last() == model(items@[i as int]));
                    let n0 = normal_seq(models(items@.take(i as int)));
                    let n1 = normal_seq(ms);
                    assert(n1 == n0.push(normal(model(items@[i as int]))));
                    assert(n1.drop_last() =~= n0);
                    assert(enc_seq(n1) == enc_seq(n0) + enc(normal(model(items@[i as int]))));
                    assert(out@ =~= start + enc_seq(normal_seq(ms)));
                }
                i = i + 1;
            }
            proof {
                assert(items@.take(items.len() as int) =~= items@);
                assert(models(items@).len() == items@.len()) by {
                    lemma_models_len(items@);
                }
                lemma_normal_seq_len(models(items@));
                assert(final(out)@ =~= old(out)@ + enc(normal(model(*value))));
            }
        },
        Value::Dict(entries) => {
            let order = key_order(entries);
            let ghost em = entry_models(entries@);
            let ghost pk = picked(em, order@);
            proof {
                lemma_entry_models_len(entries@);
            }
            write_head(out, 5, order.len() as u64);
            let ghost start = out@;
            let mut j: usize = 0;
            assert(pk.take(0) =~= Seq::<(Seq<char>, super::Model)>::empty());
            while j < order.len()
                invariant
                    j <= order.len(),
                    *value == Value::Dict(*entries),
                    em == entry_models(entries@),
                    em.len() == entries.len(),
                    pk == picked(em, order@),
                    forall|t: int| 0 <= t < order.len() ==> order@[t] < entries.len(),
                    out@ == start + enc_entries(normal_entries(pk.take(j as int))),
                decreases order.len() - j,
            {
                let o = order[j];
                proof {
                    assert(decreases_to!(*value => value->Dict_0));
                    assert(decreases_to!(value->Dict_0 => value->Dict_0@));
                    assert(decreases_to!(value->Dict_0@ => value->Dict_0@[o as int]));
                    assert(decreases_to!(value->Dict_0@[o as int] => value->Dict_0@[o as int].1));
                    super::dict::lemma_entry_index(entries@, o as int);
                }
                write_text(out, entries[o].0.as_str());
                write_value(out, &entries[o].1);
                proof {
                    let t = pk.take(j + 1);
                    assert(t.drop_last() =~= pk.take(j as int));
                    assert(t.last() == em[o as int]);
                    let n0 = normal_entries(pk.take(j as int));
                    let n1 = normal_entries(t);
                    let p = (entries@[o as int].0@, normal(model(entries@[o as int].1)));
                    assert(n1 == n0.push(p));
                    assert(n1.drop_last() =~= n0);
                    assert(enc_entries(n1) == enc_entries(n0) + enc_text(p.0) + enc(p.1));
                    assert(out@ =~= start + enc_entries(normal_entries(t)));
                }
                j = j + 1;
            }
            proof {
                assert(pk.take(order.len() as int) =~= pk);
                lemma_sorted_normal(em);
                lemma_normal_entries_len(sorted_entries(normal_entries(em)));
                lemma_normal_entries_len(pk);
                assert(final(out)@ =~= old(out)@ + enc(normal(model(*value))));
            }
        },
        Value::Bool(b) => {
            if *b {
                out.push(0xf5);
            } else {
                out.push(0xf4);
            }
            assert(final(out)@ =~= old(out)@ + enc(model(*value)));
        },
        Value::Null => {
            out.push(0xf6);
            assert(final(out)@ =~= old(out)@ + enc(model(*value)));
        },
    }
}

pub proof fn lemma_models_len(s: Seq<Value>)
    ensures
        models(s).len() == s.len(),
    decreases s.len(),
{
    if s.len() > 0 {
        lemma_models_len(s.drop_last());
    }
}

pub proof fn lemma_entry_models_len(s: Seq<(String, Value)>)
    ensures
        entry_models(s).len() == s.len(),
    decreases s.len(),
{
    if s.len() > 0 {
        lemma_entry_models_len(s.drop_last());
    }
}

/// Encode a value in canonical form.
///
/// Every map is written in ascending key order, the last entry of a key
/// kept: the result is the canonical encoding of [`normal`] of the value's
/// model, and [`decode`] reads it back as the same value whenever the
/// value is canonical.
///
/// [`decode`]: super::decode
pub fn encode(value: &Value) -> (r: Vec<u8>)
    ensures
        r@ == enc(normal(model(*value))),
{
    let mut out: Vec<u8> = Vec::new();
    write_value(&mut out, value);
    assert(out@ =~= enc(normal(model(*value))));
    out
}

proof fn lemma_normal_seq_len(s: Seq<super::Model>)
    ensures
        normal_seq(s).len() == s.len(),
    decreases s.len(),
{
    if s.len() > 0 {
        lemma_normal_seq_len(s.drop_last());
    }
}

proof fn lemma_normal_entries_len(s: Seq<(Seq<char>, super::Model)>)
    ensures
        normal_entries(s).len() == s.len(),
    decreases s.len(),
{
    if s.len() > 0 {
        lemma_normal_entries_len(s.drop_last());
    }
}

} // verus!
