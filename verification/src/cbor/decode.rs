//! Validating decoder for the deterministic CBOR profile.
//!
//! Validation happens during parsing rather than as a second pass, so the
//! first violation is reported with its offset and no partially-normalized
//! value is ever constructed.

use super::lemmas::{
    lemma_be_of_from_be, lemma_from_be_bound, lemma_from_be_of_be, lemma_head, pow256,
};
use super::lemmas::{
    lemma_canonical_entries, lemma_canonical_seq, lemma_enc_entries_len, lemma_enc_entries_prefix,
    lemma_enc_head, lemma_enc_seq_len, lemma_enc_seq_prefix, lemma_entry_models_push,
    lemma_models_push, lemma_starts_with_concat, lemma_starts_with_trans, lemma_within_entries,
    lemma_within_seq, m_arg, m_major,
};
use super::{
    accepts, arg_width, canonical, canonical_entries, canonical_seq, dec_len, dec_len_entries,
    dec_len_seq, enc, enc_entries, enc_seq, enc_text, encodes, entry_models, from_be, head,
    info_for, keys_ascending, lex_lt, model, models, starts_with, within,
    within_entries, within_seq, Model, Value,
};
use crate::text::{copy_bytes, is_nfc, is_nfc_text, string_from_utf8, to_nfc};
use vstd::utf8::*;
use super::scan::{scan_head, scan_item, scan_items, scan_entries, scan_text, shortfall, scan};
use crate::error::Fault;
use crate::CanonError;
use vstd::prelude::*;

verus! {

broadcast use vstd::utf8::group_utf8_lib;

/// Maximum object size in bytes.
pub const MAX_OBJECT_BYTES: usize = 64 * 1024;

/// Default nesting limit.
///
/// Not a protocol constant. Object schemas nest a handful of levels, so a
/// generous ceiling still refuses the stack exhaustion that hostile input
/// would otherwise cause.
pub const DEFAULT_MAX_DEPTH: usize = 64;

/// The major type and argument of a CBOR head.
struct Head {
    major: u8,
    arg: u64,
    /// Offset of the initial byte, for error reporting.
    offset: usize,
}

/// Whether `b[pos..end]` is a head the decoder reads as `major`, `arg`.
///
/// For every major type but 7 this is exactly the shortest-form head. For
/// major type 7 it is the one-byte head of a simple value, or the two-byte
/// head of a simple value that does not fit in one, which no item of the
/// profile has.
spec fn head_ok(b: Seq<u8>, pos: int, end: int, major: nat, arg: nat) -> bool {
    if major == 7 {
        ||| (end == pos + 1 && arg <= 23 && b[pos] == 224 + arg)
        ||| (end == pos + 2 && b[pos] == 0xf8 && b[pos + 1] == arg && arg > 23)
    } else {
        b.subrange(pos, end) == head(major, arg)
    }
}

proof fn lemma_pow256_le(i: nat, j: nat)
    requires
        i <= j,
    ensures
        pow256(i) <= pow256(j),
    decreases j,
{
    if i < j {
        lemma_pow256_le(i, (j - 1) as nat);
    }
}

/// Read `n` big-endian bytes.
pub(crate) fn read_be(input: &[u8], start: usize, n: usize) -> (r: u64)
    requires
        start + n <= input.len(),
        n <= 8,
    ensures
        r == from_be(input@.subrange(start as int, start + n)),
{
    let mut acc: u64 = 0;
    let mut i: usize = 0;
    proof {
        reveal_with_fuel(pow256, 9);
    }
    while i < n
        invariant
            i <= n <= 8,
            start + n <= input.len(),
            acc == from_be(input@.subrange(start as int, start + i)),
            acc < pow256(i as nat),
        decreases n - i,
    {
        proof {
            lemma_pow256_le(i as nat, 7);
            reveal_with_fuel(pow256, 9);
            let s = input@.subrange(start as int, start + i + 1);
            assert(s.drop_last() =~= input@.subrange(start as int, start + i));
        }
        acc = acc * 256 + input[start + i] as u64;
        i = i + 1;
    }
    acc
}

/// Read a head, enforcing shortest-form argument encoding.
fn read_head(input: &[u8], pos: usize) -> (r: Result<(Head, usize), CanonError>)
    requires
        pos <= input.len(),
    ensures
        r matches Ok((h, end)) ==> {
            &&& h.offset == pos
            &&& pos < end <= input.len()
            &&& h.major < 8
            &&& head_ok(input@, pos as int, end as int, h.major as nat, h.arg as nat)
        },
        forall|major: nat, arg: nat|
            #![trigger head(major, arg)]
            major < 8 && arg <= u64::MAX && (major == 7 ==> arg <= 23) && starts_with(
                input@.skip(pos as int),
                head(major, arg),
            ) ==> r == Ok::<(Head, usize), CanonError>(
                (
                    Head { major: major as u8, arg: arg as u64, offset: pos },
                    (pos + head(major, arg).len()) as usize,
                ),
            ),
        r matches Err(e) ==> !(e is TooLarge) && !(e is TrailingData),
        match r {
            Ok((h, end)) => scan_head(input@, pos as int) == Ok::<_, Fault>((h.major as nat, h.arg as nat, end as int)),
            Err(e) => scan_head(input@, pos as int) == Err::<(nat, nat, int), _>(e@),
        },
{
    let offset = pos;
    if pos >= input.len() {
        proof {
            assert forall|major: nat, arg: nat|
                #![trigger head(major, arg)]
                major < 8 && arg <= u64::MAX implies !starts_with(
                input@.skip(pos as int),
                head(major, arg),
            ) by {
                lemma_head(major, arg);
            }
        }
        return Err(CanonError::Truncated { offset: pos, needed: 1 });
    }
    let initial = input[pos];
    let major: u8 = initial / 32;
    let info: u8 = initial % 32;
    proof {
        assert forall|major0: nat, arg0: nat|
            #![trigger head(major0, arg0)]
            major0 < 8 && arg0 <= u64::MAX && starts_with(
                input@.skip(pos as int),
                head(major0, arg0),
            ) implies major0 == major && info_for(arg0) == info by {
            lemma_head(major0, arg0);
            assert(input@.skip(pos as int).take(head(major0, arg0).len() as int)[0] == head(
                major0,
                arg0,
            )[0]);
        }
    }
    if major == 7 {
        if info >= 25 && info <= 27 {
            return Err(CanonError::Float { offset });
        }
        if info == 31 {
            return Err(CanonError::IndefiniteLength { offset });
        }
        if info == 24 {
            if pos + 1 >= input.len() {
                return Err(CanonError::Truncated { offset: pos + 1, needed: 1 });
            }
            let arg = input[pos + 1] as u64;
            if arg <= 23 {
                return Err(CanonError::NonShortestInteger { offset, value: arg, used: 1 });
            }
            return Ok((Head { major, arg, offset }, pos + 2));
        } else if info <= 23 {
            proof {
                assert forall|major0: nat, arg0: nat|
                    #![trigger head(major0, arg0)]
                    major0 < 8 && arg0 <= u64::MAX && (major0 == 7 ==> arg0 <= 23) && starts_with(
                        input@.skip(pos as int),
                        head(major0, arg0),
                    ) implies arg0 == info && head(major0, arg0).len() == 1 by {
                    lemma_head(major0, arg0);
                }
            }
            return Ok((Head { major, arg: info as u64, offset }, pos + 1));
        } else {
            return Err(CanonError::Unsupported { offset, detail: "reserved simple value" });
        }
    }
    let start = pos + 1;
    let extra: usize = if info <= 23 {
        0
    } else if info == 24 {
        1
    } else if info == 25 {
        2
    } else if info == 26 {
        4
    } else if info == 27 {
        8
    } else if info == 31 {
        return Err(CanonError::IndefiniteLength { offset });
    } else {
        return Err(CanonError::Unsupported { offset, detail: "reserved additional information" });
    };
    if extra > input.len() - start {
        proof {
            assert forall|major0: nat, arg0: nat|
                #![trigger head(major0, arg0)]
                major0 < 8 && arg0 <= u64::MAX && (major0 == 7 ==> arg0 <= 23) implies !starts_with(
                input@.skip(pos as int),
                head(major0, arg0),
            ) by {
                lemma_head(major0, arg0);
            }
        }
        return Err(CanonError::Truncated { offset: start, needed: extra - (input.len() - start) });
    }
    let arg: u64 = if extra == 0 {
        info as u64
    } else {
        read_be(input, start, extra)
    };
    let minimal: usize = if arg <= 23 {
        0
    } else if arg <= 0xff {
        1
    } else if arg <= 0xffff {
        2
    } else if arg <= 0xffff_ffff {
        4
    } else {
        8
    };
    proof {
        assert forall|major0: nat, arg0: nat|
            #![trigger head(major0, arg0)]
            major0 < 8 && arg0 <= u64::MAX && (major0 == 7 ==> arg0 <= 23) && starts_with(
                input@.skip(pos as int),
                head(major0, arg0),
            ) implies arg0 == arg && arg_width(arg0) == extra by {
            lemma_head(major0, arg0);
            let h = head(major0, arg0);
            let w = arg_width(arg0);
            if w > 0 {
                assert(input@.subrange(start as int, start + w) =~= h.skip(1));
                lemma_from_be_of_be(arg0, w);
            }
        }
    }
    if extra != minimal {
        return Err(CanonError::NonShortestInteger { offset, value: arg, used: extra });
    }
    proof {
        let b = input@.subrange(start as int, start + extra);
        if extra > 0 {
            lemma_be_of_from_be(b);
        }
        lemma_head(major as nat, arg as nat);
        assert(input@.subrange(pos as int, start + extra) =~= head(major as nat, arg as nat));
    }
    Ok((Head { major, arg, offset }, start + extra))
}


/// Whether a canonical `m`, nesting within `budget`, is encoded at `pos`.
spec fn canon_at(m: Model, b: Seq<u8>, pos: int, budget: int) -> bool {
    &&& canonical(m)
    &&& within(m, budget)
    &&& starts_with(b.skip(pos), enc(m))
}

/// Whether canonical models, nesting within `budget`, are encoded at `pos`.
spec fn seq_at(ms: Seq<Model>, b: Seq<u8>, pos: int, budget: int) -> bool {
    &&& canonical_seq(ms)
    &&& within_seq(ms, budget)
    &&& starts_with(b.skip(pos), enc_seq(ms))
}

/// Whether the canonical entries of a map, nesting within `budget`, are
/// encoded at `pos`.
spec fn entries_at(es: Seq<(Seq<char>, Model)>, b: Seq<u8>, pos: int, budget: int) -> bool {
    &&& keys_ascending(es)
    &&& canonical_entries(es)
    &&& within_entries(es, budget)
    &&& starts_with(b.skip(pos), enc_entries(es))
}

spec fn not_outer(e: CanonError) -> bool {
    !(e is TooLarge) && !(e is TrailingData)
}

proof fn lemma_starts_with_skip(b: Seq<u8>, pos: int, x: Seq<u8>, y: Seq<u8>)
    requires
        0 <= pos <= b.len(),
        starts_with(b.skip(pos), x + y),
    ensures
        starts_with(b.skip(pos + x.len()), y),
        starts_with(b.skip(pos), x),
{
    let bs = b.skip(pos);
    assert(bs.take((x + y).len() as int) == x + y);
    assert forall|k: int| 0 <= k < y.len() implies #[trigger] b.skip(pos + x.len())[k] == y[k] by {
        assert(bs.take((x + y).len() as int)[x.len() + k] == (x + y)[x.len() + k]);
    }
    assert(b.skip(pos + x.len()).take(y.len() as int) =~= y);
    lemma_starts_with_concat(x, y);
    lemma_starts_with_trans(b.skip(pos), x + y, x);
}

/// The length of an item's encoding bounds the argument of its head.
proof fn lemma_arg_bound(m: Model)
    ensures
        m_arg(m) <= u64::MAX || m_arg(m) <= enc(m).len(),
        (m is Bytes || m is Text || m is Array || m is Dict) ==> m_arg(m) <= enc(m).len(),
{
    match m {
        Model::Array(items) => lemma_enc_seq_len(items),
        Model::Dict(es) => lemma_enc_entries_len(es),
        _ => {},
    }
}

/// Check that `n` more bytes are available at `pos`.
fn take_bytes(input: &[u8], pos: usize, n: u64) -> (r: Result<usize, CanonError>)
    requires
        pos <= input.len(),
    ensures
        r matches Ok(end) ==> end == pos + n && end <= input.len(),
        r is Err ==> pos + n > input.len(),
        r matches Err(e) ==> not_outer(e) && e@ == shortfall(input@, pos as int, n as int),
{
    if n > (input.len() - pos) as u64 {
        if n > usize::MAX as u64 {
            return Err(CanonError::Truncated { offset: pos, needed: usize::MAX });
        }
        return Err(CanonError::Truncated { offset: pos, needed: n as usize - (input.len() - pos) });
    }
    Ok(pos + n as usize)
}

/// Read a text string of `n` bytes at `pos`.
fn text_at(input: &[u8], pos: usize, n: u64) -> (r: Result<(String, usize), CanonError>)
    requires
        pos <= input.len(),
    ensures
        r matches Ok((s, end)) ==> {
            &&& end == pos + n <= input.len()
            &&& input@.subrange(pos as int, end as int) == encode_utf8(s@)
            &&& is_nfc_text(s@)
        },
        forall|t: Seq<char>|
            #![trigger encode_utf8(t)]
            is_nfc_text(t) && encode_utf8(t).len() == n && starts_with(
                input@.skip(pos as int),
                encode_utf8(t),
            ) ==> (r matches Ok((s, end)) && s@ == t),
        r matches Err(e) ==> not_outer(e),
        match r {
            Ok((s, end)) => scan_text(input@, pos as int, n as nat) == Ok::<_, Fault>((s@, end as int)),
            Err(e) => scan_text(input@, pos as int, n as nat) == Err::<(Seq<char>, int), _>(e@),
        },
{
    let end = match take_bytes(input, pos, n) {
        Ok(end) => end,
        Err(e) => return Err(e),
    };
    let raw = copy_bytes(&input[pos..end]);
    proof {
        assert forall|t: Seq<char>|
            #![trigger encode_utf8(t)]
            encode_utf8(t).len() == n && starts_with(
                input@.skip(pos as int),
                encode_utf8(t),
            ) implies raw@ == encode_utf8(t) by {
            assert(raw@ =~= input@.skip(pos as int).take(n as int));
        }
    }
    let s = match string_from_utf8(raw) {
        Some(s) => s,
        None => return Err(CanonError::InvalidUtf8 { offset: pos }),
    };
    if !is_nfc(s.as_str()) {
        let text = to_nfc(s.as_str());
        return Err(CanonError::NotNfc { offset: pos, text });
    }
    Ok((s, end))
}

/// Strict lexicographic comparison of byte strings.
pub(crate) fn lex_less(a: &[u8], b: &[u8]) -> (r: bool)
    ensures
        r == lex_lt(a@, b@),
{
    let mut i: usize = 0;
    assert(a@.skip(0) =~= a@);
    assert(b@.skip(0) =~= b@);
    while i < a.len() && i < b.len()
        invariant
            i <= a.len(),
            i <= b.len(),
            lex_lt(a@, b@) == lex_lt(a@.skip(i as int), b@.skip(i as int)),
        decreases a.len() - i,
    {
        if a[i] < b[i] {
            return true;
        }
        if a[i] > b[i] {
            return false;
        }
        proof {
            assert(a@.skip(i as int).drop_first() =~= a@.skip(i + 1));
            assert(b@.skip(i as int).drop_first() =~= b@.skip(i + 1));
        }
        i = i + 1;
    }
    a.len() < b.len()
}

/// What reading one item at `pos` may return, nesting within `budget`.
spec fn item_post(b: Seq<u8>, pos: int, budget: int, r: Result<(Value, usize), CanonError>) -> bool {
    &&& r matches Ok((v, end)) ==> {
        &&& pos < end <= b.len()
        &&& dec_len(model(v), b.skip(pos)) == Some((end - pos) as nat)
        &&& canonical(model(v))
        &&& within(model(v), budget)
    }
    &&& forall|m: Model| #[trigger]
        canon_at(m, b, pos, budget) ==> (r matches Ok((v, end)) && model(v) == m && end == pos + enc(
            m,
        ).len())
    &&& r matches Err(e) ==> not_outer(e)
}

/// Whether `r` is what [`scan_item`] reads, `s`.
spec fn item_scan(r: Result<(Value, usize), CanonError>, s: Result<(Model, int), Fault>) -> bool {
    match r {
        Ok((v, end)) => s == Ok::<_, Fault>((model(v), end as int)),
        Err(e) => s == Err::<(Model, int), _>(e@),
    }
}

/// Whether every canonical item at `pos` has the head that was read.
spec fn head_read(b: Seq<u8>, pos: int, budget: int, major: nat, arg: nat, after: int) -> bool {
    &&& 0 <= pos < after <= b.len()
    &&& major < 8
    &&& head_ok(b, pos, after, major, arg)
    &&& forall|m: Model| #[trigger]
        canon_at(m, b, pos, budget) ==> m_major(m) == major && m_arg(m) == arg && after == pos
            + head(major, arg).len() && enc(m).len() <= b.len() - pos
}

/// Read one item at `pos`, `depth` levels below the top.
fn item(input: &[u8], pos: usize, depth: usize, max_depth: usize) -> (r: Result<
    (Value, usize),
    CanonError,
>)
    requires
        pos <= input.len(),
        depth <= pos,
    ensures
        item_post(input@, pos as int, max_depth - depth, r),
        item_scan(r, scan_item(input@, pos as int, depth as int, max_depth as int)),
    decreases input.len() - pos, 2int,
{
    if depth > max_depth {
        return Err(CanonError::TooDeep { offset: pos, limit: max_depth });
    }
    let ghost budget = max_depth - depth;
    proof {
        assert forall|m: Model| #[trigger]
            canon_at(m, input@, pos as int, budget) implies starts_with(
            input@.skip(pos as int),
            head(m_major(m), m_arg(m)),
        ) && m_arg(m) <= u64::MAX && enc(m).len() <= input.len() - pos by {
            lemma_arg_bound(m);
            lemma_enc_head(m);
            lemma_starts_with_trans(input@.skip(pos as int), enc(m), head(m_major(m), m_arg(m)));
        }
    }
    let (h, after) = match read_head(input, pos) {
        Ok(x) => x,
        Err(e) => {
            proof {
                assert forall|m: Model| #[trigger]
                    canon_at(m, input@, pos as int, budget) implies false by {
                    lemma_enc_head(m);
                    assert(head(m_major(m), m_arg(m)) == head(m_major(m), m_arg(m)));
                }
            }
            return Err(e);
        },
    };
    proof {
        assert forall|m: Model| #[trigger]
            canon_at(m, input@, pos as int, budget) implies h.major == m_major(m) && h.arg
            == m_arg(m) && after == pos + head(m_major(m), m_arg(m)).len() by {
            lemma_enc_head(m);
            assert(head(m_major(m), m_arg(m)) == head(m_major(m), m_arg(m)));
        }
        assert(head_read(input@, pos as int, budget, h.major as nat, h.arg as nat, after as int));
    }
    if h.major <= 3 {
        read_scalar(input, pos, h.major, h.arg, after, Ghost(budget), Ghost(depth as int), Ghost(max_depth as int))
    } else if h.major == 4 {
        read_array(input, pos, h.arg, after, depth, max_depth)
    } else if h.major == 5 {
        read_dict(input, pos, h.arg, after, depth, max_depth)
    } else if h.major == 6 {
        Err(CanonError::Unsupported { offset: h.offset, detail: "tags are not part of the profile" })
    } else {
        read_simple(input, pos, h.arg, after, Ghost(budget), Ghost(depth as int), Ghost(max_depth as int))
    }
}

/// Read the rest of an integer, byte string or text string.
fn read_scalar(
    input: &[u8],
    pos: usize,
    major: u8,
    arg: u64,
    after: usize,
    Ghost(budget): Ghost<int>,
    Ghost(depth): Ghost<int>,
    Ghost(max_depth): Ghost<int>,
) -> (r: Result<(Value, usize), CanonError>)
    requires
        major <= 3,
        head_read(input@, pos as int, budget, major as nat, arg as nat, after as int),
        budget >= 0,
        budget == max_depth - depth,
        scan_head(input@, pos as int) == Ok::<_, Fault>((major as nat, arg as nat, after as int)),
    ensures
        item_post(input@, pos as int, budget, r),
        item_scan(r, scan_item(input@, pos as int, depth, max_depth)),
{
    if major == 0 {
        proof {
            assert(input@.skip(pos as int).take(after - pos) =~= input@.subrange(pos as int, after as int));
        }
        Ok((Value::Uint(arg), after))
    } else if major == 1 {
        proof {
            assert(input@.skip(pos as int).take(after - pos) =~= input@.subrange(pos as int, after as int));
        }
        Ok((Value::Nint(arg), after))
    } else if major == 2 {
        let end = match take_bytes(input, after, arg) {
            Ok(end) => end,
            Err(e) => {
                proof {
                    assert forall|m: Model| #[trigger]
                        canon_at(m, input@, pos as int, budget) implies false by {
                        lemma_head(2, arg as nat);
                    }
                }
                return Err(e);
            },
        };
        let b = copy_bytes(&input[after..end]);
        proof {
            let hd = head(2, arg as nat);
            assert(input@.skip(pos as int).take(end - pos) =~= hd + b@);
            assert forall|m: Model| #[trigger]
                canon_at(m, input@, pos as int, budget) implies model(Value::Bytes(b)) == m && end
                == pos + enc(m).len() by {
                let x = m->Bytes_0;
                assert(enc(m) == hd + x);
                assert(x =~= b@) by {
                    assert forall|i: int| 0 <= i < x.len() implies x[i] == b@[i] by {
                        assert(enc(m)[hd.len() + i] == x[i]);
                        assert(input@.skip(pos as int).take(enc(m).len() as int)[hd.len() + i]
                            == enc(m)[hd.len() + i]);
                    }
                }
            }
        }
        Ok((Value::Bytes(b), end))
    } else {
        proof {
            assert forall|m: Model| #[trigger]
                canon_at(m, input@, pos as int, budget) implies is_nfc_text(m->Text_0) && starts_with(
                input@.skip(after as int),
                encode_utf8(m->Text_0),
            ) && encode_utf8(m->Text_0).len() == arg by {
                let t = m->Text_0;
                lemma_starts_with_skip(input@, pos as int, head(3, encode_utf8(t).len()), encode_utf8(t));
            }
        }
        let (s, end) = match text_at(input, after, arg) {
            Ok(x) => x,
            Err(e) => {
                proof {
                    assert forall|m: Model| #[trigger]
                        canon_at(m, input@, pos as int, budget) implies false by {
                        let t = m->Text_0;
                        assert(encode_utf8(t) == encode_utf8(t));
                    }
                }
                return Err(e);
            },
        };
        proof {
            let hd = head(3, arg as nat);
            assert(input@.skip(pos as int).take(end - pos) =~= hd + encode_utf8(s@));
            assert forall|m: Model| #[trigger]
                canon_at(m, input@, pos as int, budget) implies model(Value::Text(s)) == m by {
                let t = m->Text_0;
                assert(encode_utf8(t) == encode_utf8(t));
            }
        }
        Ok((Value::Text(s), end))
    }
}

/// Read the items of an array whose head has been read.
fn read_array(input: &[u8], pos: usize, arg: u64, after: usize, depth: usize, max_depth: usize) -> (r: Result<(Value, usize), CanonError>)
    requires
        head_read(input@, pos as int, max_depth - depth, 4, arg as nat, after as int),
        depth <= pos,
        depth <= max_depth,
        scan_head(input@, pos as int) == Ok::<_, Fault>((4nat, arg as nat, after as int)),
    ensures
        item_post(input@, pos as int, max_depth - depth, r),
        item_scan(r, scan_item(input@, pos as int, depth as int, max_depth as int)),
    decreases input.len() - pos, 1int,
{
    let ghost budget = max_depth - depth;
    if arg > usize::MAX as u64 {
        proof {
            assert forall|m: Model| #[trigger]
                canon_at(m, input@, pos as int, budget) implies false by {
                lemma_arg_bound(m);
            }
        }
        return Err(CanonError::Truncated { offset: after, needed: usize::MAX });
    }
    proof {
        assert forall|ms: Seq<Model>|
            canon_at(Model::Array(ms), input@, pos as int, budget) implies #[trigger] seq_at(
            ms,
            input@,
            after as int,
            budget - 1,
        ) by {
            lemma_starts_with_skip(input@, pos as int, head(4, ms.len()), enc_seq(ms));
        }
    }
    let (items, end) = match array_items(input, after, arg as usize, depth, max_depth) {
        Ok(x) => x,
        Err(e) => {
            proof {
                assert forall|m: Model| #[trigger]
                    canon_at(m, input@, pos as int, budget) implies false by {
                    assert(seq_at(m->Array_0, input@, after as int, budget - 1));
                }
            }
            return Err(e);
        },
    };
    proof {
        let hd = head(4, arg as nat);
        super::encode::lemma_models_len(items@);
        assert(input@.skip(pos as int).take(after - pos) =~= hd);
        assert(input@.skip(pos as int).skip(hd.len() as int) =~= input@.skip(after as int));
        assert forall|m: Model| #[trigger]
            canon_at(m, input@, pos as int, budget) implies model(Value::Array(items)) == m
            && end == pos + enc(m).len() by {
            assert(seq_at(m->Array_0, input@, after as int, budget - 1));
        }
    }
    Ok((Value::Array(items), end))
}

/// Read the entries of a map whose head has been read.
fn read_dict(input: &[u8], pos: usize, arg: u64, after: usize, depth: usize, max_depth: usize) -> (r: Result<(Value, usize), CanonError>)
    requires
        head_read(input@, pos as int, max_depth - depth, 5, arg as nat, after as int),
        depth <= pos,
        depth <= max_depth,
        scan_head(input@, pos as int) == Ok::<_, Fault>((5nat, arg as nat, after as int)),
    ensures
        item_post(input@, pos as int, max_depth - depth, r),
        item_scan(r, scan_item(input@, pos as int, depth as int, max_depth as int)),
    decreases input.len() - pos, 1int,
{
    proof {
        reveal_with_fuel(scan_entries, 1);
    }
    let ghost budget = max_depth - depth;
    if arg > usize::MAX as u64 {
        proof {
            assert forall|m: Model| #[trigger]
                canon_at(m, input@, pos as int, budget) implies false by {
                lemma_arg_bound(m);
            }
        }
        return Err(CanonError::Truncated { offset: after, needed: usize::MAX });
    }
    proof {
        assert forall|es: Seq<(Seq<char>, Model)>|
            canon_at(Model::Dict(es), input@, pos as int, budget) implies #[trigger] entries_at(
            es,
            input@,
            after as int,
            budget - 1,
        ) by {
            lemma_starts_with_skip(input@, pos as int, head(5, es.len()), enc_entries(es));
        }
    }
    let (entries, end) = match dict_entries(input, after, arg as usize, depth, max_depth) {
        Ok(x) => x,
        Err(e) => {
            proof {
                assert forall|m: Model| #[trigger]
                    canon_at(m, input@, pos as int, budget) implies false by {
                    assert(entries_at(m->Dict_0, input@, after as int, budget - 1));
                }
            }
            return Err(e);
        },
    };
    proof {
        let hd = head(5, arg as nat);
        lemma_entry_models_len(entries@);
        assert(input@.skip(pos as int).take(after - pos) =~= hd);
        assert(input@.skip(pos as int).skip(hd.len() as int) =~= input@.skip(after as int));
        assert forall|m: Model| #[trigger]
            canon_at(m, input@, pos as int, budget) implies model(Value::Dict(entries)) == m
            && end == pos + enc(m).len() by {
            assert(entries_at(m->Dict_0, input@, after as int, budget - 1));
        }
    }
    Ok((Value::Dict(entries), end))
}

/// Read a simple value whose head has been read.
fn read_simple(
    input: &[u8],
    pos: usize,
    arg: u64,
    after: usize,
    Ghost(budget): Ghost<int>,
    Ghost(depth): Ghost<int>,
    Ghost(max_depth): Ghost<int>,
) -> (r: Result<(Value, usize), CanonError>)
    requires
        head_read(input@, pos as int, budget, 7, arg as nat, after as int),
        budget >= 0,
        budget == max_depth - depth,
        scan_head(input@, pos as int) == Ok::<_, Fault>((7nat, arg as nat, after as int)),
    ensures
        item_post(input@, pos as int, budget, r),
        item_scan(r, scan_item(input@, pos as int, depth, max_depth)),
{
    let v = if arg == 20 {
        Value::Bool(false)
    } else if arg == 21 {
        Value::Bool(true)
    } else if arg == 22 {
        Value::Null
    } else if arg == 23 {
        return Err(
            CanonError::Unsupported { offset: pos, detail: "undefined is not part of the profile" },
        );
    } else {
        return Err(
            CanonError::Unsupported { offset: pos, detail: "simple value outside the profile" },
        );
    };
    proof {
        let b = input@.skip(pos as int);
        assert(b[0] == input@[pos as int]);
        assert(b.take(1) =~= enc(model(v)));
    }
    Ok((v, after))
}

/// `p` put before what `r` read, if it read anything.
spec fn prepend<T>(p: Seq<T>, r: Result<(Seq<T>, int), Fault>) -> Result<(Seq<T>, int), Fault> {
    match r {
        Ok((s, end)) => Ok((p + s, end)),
        Err(f) => Err(f),
    }
}

proof fn lemma_prepend_empty<T>(r: Result<(Seq<T>, int), Fault>)
    ensures
        prepend(Seq::<T>::empty(), r) == r,
{
    if let Ok((s, end)) = r {
        assert(Seq::<T>::empty() + s =~= s);
    }
}

proof fn lemma_prepend_push<T>(p: Seq<T>, m: T, r: Result<(Seq<T>, int), Fault>)
    ensures
        prepend(p, prepend(seq![m], r)) == prepend(p.push(m), r),
{
    if let Ok((s, end)) = r {
        assert(p + (seq![m] + s) =~= p.push(m) + s);
    }
}

proof fn lemma_prepend_done<T>(p: Seq<T>, end: int)
    ensures
        prepend(p, Ok::<_, Fault>((Seq::<T>::empty(), end))) == Ok::<_, Fault>((p, end)),
{
    assert(p + Seq::<T>::empty() =~= p);
}

/// Read `count` items starting at `start`.
fn array_items(input: &[u8], start: usize, count: usize, depth: usize, max_depth: usize) -> (r:
    Result<(Vec<Value>, usize), CanonError>)
    requires
        start <= input.len(),
        depth < start,
        depth <= max_depth,
    ensures
        r matches Ok((vals, end)) ==> {
            &&& start <= end <= input.len()
            &&& vals.len() == count
            &&& dec_len_seq(models(vals@), input@.skip(start as int)) == Some((end - start) as nat)
            &&& canonical_seq(models(vals@))
            &&& within_seq(models(vals@), max_depth - depth - 1)
        },
        forall|ms: Seq<Model>|
            #[trigger] seq_at(ms, input@, start as int, max_depth - depth - 1) && ms.len() == count
                ==> (r matches Ok((vals, end)) && models(vals@) == ms && end == start + enc_seq(
                ms,
            ).len()),
        r matches Err(e) ==> not_outer(e),
        match r {
            Ok((vals, end)) => scan_items(input@, start as int, count as nat, depth as int, max_depth as int)
                == Ok::<_, Fault>((models(vals@), end as int)),
            Err(e) => scan_items(input@, start as int, count as nat, depth as int, max_depth as int) == Err::<
                (Seq<Model>, int),
                _,
            >(e@),
        },
    decreases input.len() - start + 1, 0int,
{
    let ghost budget = max_depth - depth - 1;
    let mut vals: Vec<Value> = Vec::new();
    let mut cur = start;
    let mut i: usize = 0;
    proof {
        lemma_prepend_empty(scan_items(input@, start as int, count as nat, depth as int, max_depth as int));
        assert(input@.skip(start as int).skip(0) =~= input@.skip(start as int));
        assert forall|ms: Seq<Model>|
            #[trigger] seq_at(ms, input@, start as int, budget) && ms.len() == count implies models(vals@)
            == ms.take(0) && cur == start + enc_seq(ms.take(0)).len() by {
            assert(ms.take(0) =~= Seq::<Model>::empty());
        }
    }
    while i < count
        invariant
            start <= cur <= input.len(),
            i <= count,
            vals.len() == i,
            budget == max_depth - depth - 1,
            depth < start,
            depth <= max_depth,
            dec_len_seq(models(vals@), input@.skip(start as int)) == Some((cur - start) as nat),
            canonical_seq(models(vals@)),
            within_seq(models(vals@), budget),
            forall|ms: Seq<Model>|
                #[trigger] seq_at(ms, input@, start as int, budget) && ms.len() == count ==> models(vals@)
                    == ms.take(i as int) && cur == start + enc_seq(ms.take(i as int)).len(),
            scan_items(input@, start as int, count as nat, depth as int, max_depth as int) == prepend(
                models(vals@),
                scan_items(input@, cur as int, (count - i) as nat, depth as int, max_depth as int),
            ),
        decreases count - i,
    {
        proof {
            assert forall|ms: Seq<Model>|
                #[trigger] seq_at(ms, input@, start as int, budget) && ms.len() == count implies canon_at(
                ms[i as int],
                input@,
                cur as int,
                max_depth - (depth + 1),
            ) by {
                lemma_canonical_seq(ms, i as int);
                lemma_within_seq(ms, budget, i as int);
                lemma_enc_seq_prefix(ms, i + 1);
                assert(ms.take(i + 1).drop_last() =~= ms.take(i as int));
                lemma_starts_with_trans(input@.skip(start as int), enc_seq(ms), enc_seq(ms.take(i + 1)));
                lemma_starts_with_skip(input@, start as int, enc_seq(ms.take(i as int)), enc(ms[i as int]));
            }
        }
        let (v, e) = match item(input, cur, depth + 1, max_depth) {
            Ok(x) => x,
            Err(err) => {
                proof {
                    assert forall|ms: Seq<Model>|
                        #[trigger] seq_at(ms, input@, start as int, budget) && ms.len() == count implies false by {
                        assert(canon_at(ms[i as int], input@, cur as int, max_depth - (depth + 1)));
                    }
                    assert(scan_items(input@, cur as int, (count - i) as nat, depth as int, max_depth as int)
                        == Err::<(Seq<Model>, int), _>(err@));
                }
                return Err(err);
            },
        };
        proof {
            let rest = scan_items(input@, e as int, (count - i - 1) as nat, depth as int, max_depth as int);
            assert(scan_items(input@, cur as int, (count - i) as nat, depth as int, max_depth as int) == prepend(
                seq![model(v)],
                rest,
            ));
            lemma_prepend_push(models(vals@), model(v), rest);
            lemma_models_push(vals@, v);
            let ms0 = models(vals@);
            let ms1 = ms0.push(model(v));
            assert(ms1.drop_last() =~= ms0);
            assert(input@.skip(start as int).skip(cur - start) =~= input@.skip(cur as int));
            assert forall|ms: Seq<Model>|
                #[trigger] seq_at(ms, input@, start as int, budget) && ms.len() == count implies ms1
                == ms.take(i + 1) && e == start + enc_seq(ms.take(i + 1)).len() by {
                assert(canon_at(ms[i as int], input@, cur as int, max_depth - (depth + 1)));
                assert(ms.take(i + 1) =~= ms.take(i as int).push(ms[i as int]));
                assert(ms.take(i + 1).drop_last() =~= ms.take(i as int));
            }
        }
        vals.push(v);
        cur = e;
        i = i + 1;
    }
    proof {
        assert forall|ms: Seq<Model>|
            #[trigger] seq_at(ms, input@, start as int, budget) && ms.len() == count implies ms.take(
            count as int,
        ) == ms by {
            assert(ms.take(count as int) =~= ms);
        }
        lemma_prepend_done(models(vals@), cur as int);
    }
    Ok((vals, cur))
}

/// The key of the last entry read, if any.
spec fn last_key(es: Seq<(String, Value)>) -> Option<Seq<char>> {
    if es.len() == 0 {
        None
    } else {
        Some(es.last().0@)
    }
}

proof fn lemma_entries_head_fault(b: Seq<u8>, cur: int, n: nat, prev: Option<Seq<char>>, d: int, mx: int, f: Fault)
    requires
        n > 0,
        scan_head(b, cur) == Err::<(nat, nat, int), _>(f),
    ensures
        scan_entries(b, cur, n, prev, d, mx) == Err::<(Seq<(Seq<char>, Model)>, int), _>(f),
{
    reveal_with_fuel(scan_entries, 1);
}

proof fn lemma_entries_key_kind(b: Seq<u8>, cur: int, n: nat, prev: Option<Seq<char>>, d: int, mx: int, major: nat, arg: nat, ka: int)
    requires
        n > 0,
        scan_head(b, cur) == Ok::<_, Fault>((major, arg, ka)),
        major != 3,
    ensures
        scan_entries(b, cur, n, prev, d, mx) == Err::<(Seq<(Seq<char>, Model)>, int), _>(Fault::NonTextKey { offset: cur }),
{
    reveal_with_fuel(scan_entries, 1);
}

proof fn lemma_entries_key_text(b: Seq<u8>, cur: int, n: nat, prev: Option<Seq<char>>, d: int, mx: int, arg: nat, ka: int, f: Fault)
    requires
        n > 0,
        scan_head(b, cur) == Ok::<_, Fault>((3nat, arg, ka)),
        scan_text(b, ka, arg) == Err::<(Seq<char>, int), _>(f),
    ensures
        scan_entries(b, cur, n, prev, d, mx) == Err::<(Seq<(Seq<char>, Model)>, int), _>(f),
{
    reveal_with_fuel(scan_entries, 1);
}

proof fn lemma_entries_key_order(
    b: Seq<u8>,
    cur: int,
    n: nat,
    prev: Option<Seq<char>>,
    d: int,
    mx: int,
    arg: nat,
    ka: int,
    key: Seq<char>,
    kend: int,
)
    requires
        n > 0,
        scan_head(b, cur) == Ok::<_, Fault>((3nat, arg, ka)),
        scan_text(b, ka, arg) == Ok::<_, Fault>((key, kend)),
        prev is Some,
        !lex_lt(encode_utf8(prev->0), encode_utf8(key)),
    ensures
        scan_entries(b, cur, n, prev, d, mx) == Err::<(Seq<(Seq<char>, Model)>, int), _>(
            if prev->0 == key {
                Fault::DuplicateKey { offset: cur, key }
            } else {
                Fault::UnsortedKeys { offset: cur, previous: prev->0, current: key }
            },
        ),
{
    reveal_with_fuel(scan_entries, 1);
}

proof fn lemma_entries_value(
    b: Seq<u8>,
    cur: int,
    n: nat,
    prev: Option<Seq<char>>,
    d: int,
    mx: int,
    arg: nat,
    ka: int,
    key: Seq<char>,
    kend: int,
)
    requires
        n > 0,
        scan_head(b, cur) == Ok::<_, Fault>((3nat, arg, ka)),
        scan_text(b, ka, arg) == Ok::<_, Fault>((key, kend)),
        !(prev is Some && !lex_lt(encode_utf8(prev->0), encode_utf8(key))),
    ensures
        scan_entries(b, cur, n, prev, d, mx) == match scan_item(b, kend, d + 1, mx) {
            Err(f) => Err(f),
            Ok((m, e)) => if cur < e <= b.len() {
                prepend(seq![(key, m)], scan_entries(b, e, (n - 1) as nat, Some(key), d, mx))
            } else {
                Err(Fault::Truncated { offset: e, needed: 0 })
            },
        },
{
    reveal_with_fuel(scan_entries, 1);
}

/// Read `count` map entries starting at `start`.
#[verifier::rlimit(100)]
#[verifier::spinoff_prover]
fn dict_entries(input: &[u8], start: usize, count: usize, depth: usize, max_depth: usize) -> (r:
    Result<(Vec<(String, Value)>, usize), CanonError>)
    requires
        start <= input.len(),
        depth < start,
        depth <= max_depth,
    ensures
        r matches Ok((es, end)) ==> {
            &&& start <= end <= input.len()
            &&& es.len() == count
            &&& dec_len_entries(entry_models(es@), input@.skip(start as int)) == Some(
                (end - start) as nat,
            )
            &&& keys_ascending(entry_models(es@))
            &&& canonical_entries(entry_models(es@))
            &&& within_entries(entry_models(es@), max_depth - depth - 1)
        },
        forall|ems: Seq<(Seq<char>, Model)>|
            #[trigger] entries_at(ems, input@, start as int, max_depth - depth - 1) && ems.len()
                == count ==> (r matches Ok((es, end)) && entry_models(es@) == ems && end == start
                + enc_entries(ems).len()),
        r matches Err(e) ==> not_outer(e),
        match r {
            Ok((es, end)) => scan_entries(input@, start as int, count as nat, None, depth as int, max_depth as int)
                == Ok::<_, Fault>((entry_models(es@), end as int)),
            Err(e) => scan_entries(input@, start as int, count as nat, None, depth as int, max_depth as int)
                == Err::<(Seq<(Seq<char>, Model)>, int), _>(e@),
        },
    decreases input.len() - start + 1, 0int,
{
    let ghost budget = max_depth - depth - 1;
    let mut es: Vec<(String, Value)> = Vec::new();
    let mut cur = start;
    let mut i: usize = 0;
    proof {
        assert forall|ems: Seq<(Seq<char>, Model)>|
            #[trigger] entries_at(ems, input@, start as int, budget) && ems.len() == count implies entry_models(es@)
            == ems.take(0) && cur == start + enc_entries(ems.take(0)).len() by {
            assert(ems.take(0) =~= Seq::<(Seq<char>, Model)>::empty());
        }
        lemma_prepend_empty(scan_entries(input@, start as int, count as nat, None, depth as int, max_depth as int));
        reveal_with_fuel(scan_entries, 1);
    }
    while i < count
        invariant
            start <= cur <= input.len(),
            i <= count,
            es.len() == i,
            budget == max_depth - depth - 1,
            depth < start,
            depth <= max_depth,
            dec_len_entries(entry_models(es@), input@.skip(start as int)) == Some((cur - start) as nat),
            keys_ascending(entry_models(es@)),
            canonical_entries(entry_models(es@)),
            within_entries(entry_models(es@), budget),
            forall|ems: Seq<(Seq<char>, Model)>|
                #[trigger] entries_at(ems, input@, start as int, budget) && ems.len() == count ==> entry_models(es@)
                    == ems.take(i as int) && cur == start + enc_entries(ems.take(i as int)).len(),
            scan_entries(input@, start as int, count as nat, None, depth as int, max_depth as int) == prepend(
                entry_models(es@),
                scan_entries(input@, cur as int, (count - i) as nat, last_key(es@), depth as int, max_depth as int),
            ),
        decreases count - i,
    {
        let ghost cands = Set::new(|ems: Seq<(Seq<char>, Model)>| entries_at(ems, input@, start as int, budget) && ems.len() == count);
        proof {
            assert forall|ems: Seq<(Seq<char>, Model)>|
                #[trigger] entries_at(ems, input@, start as int, budget) && ems.len() == count implies {
                    let t = ems[i as int].0;
                    &&& starts_with(input@.skip(cur as int), head(3, encode_utf8(t).len()))
                    &&& starts_with(input@.skip(cur + head(3, encode_utf8(t).len()).len()), encode_utf8(t))
                    &&& canon_at(ems[i as int].1, input@, cur + enc_text(t).len(), max_depth - (depth + 1))
                    &&& is_nfc_text(t)
                    &&& encode_utf8(t).len() <= u64::MAX
                    &&& (i > 0 ==> lex_lt(encode_utf8(ems[i - 1].0), encode_utf8(t)))
                } by {
                let t = ems[i as int].0;
                lemma_canonical_entries(ems, i as int);
                lemma_within_entries(ems, budget, i as int);
                lemma_enc_entries_prefix(ems, i + 1);
                assert(ems.take(i + 1).drop_last() =~= ems.take(i as int));
                lemma_starts_with_trans(input@.skip(start as int), enc_entries(ems), enc_entries(ems.take(i + 1)));
                assert(enc_entries(ems.take(i + 1)) =~= enc_entries(ems.take(i as int)) + enc_text(t) + enc(ems[i as int].1));
                assert(enc_entries(ems.take(i + 1)) =~= enc_entries(ems.take(i as int)) + (enc_text(t) + enc(ems[i as int].1)));
                lemma_starts_with_skip(input@, start as int, enc_entries(ems.take(i as int)), enc_text(t) + enc(ems[i as int].1));
                lemma_starts_with_skip(input@, cur as int, enc_text(t), enc(ems[i as int].1));
                lemma_starts_with_skip(input@, cur as int, head(3, encode_utf8(t).len()), encode_utf8(t));
                assert(input@.skip(cur as int).len() >= encode_utf8(t).len());
            }
        }
        let key_pos = cur;
        let (kh, kafter) = match read_head(input, cur) {
            Ok(x) => x,
            Err(err) => {
                proof {
                    assert forall|ems: Seq<(Seq<char>, Model)>|
                        #[trigger] entries_at(ems, input@, start as int, budget) && ems.len() == count implies false by {
                        lemma_head(3, encode_utf8(ems[i as int].0).len());
                        assert(head(3, encode_utf8(ems[i as int].0).len()) == head(3, encode_utf8(ems[i as int].0).len()));
                    }
                    lemma_entries_head_fault(input@, cur as int, (count - i) as nat, last_key(es@), depth as int, max_depth as int, err@);
                }
                return Err(err);
            },
        };
        if kh.major != 3 {
            proof {
                assert forall|ems: Seq<(Seq<char>, Model)>|
                    #[trigger] entries_at(ems, input@, start as int, budget) && ems.len() == count implies false by {
                    lemma_head(3, encode_utf8(ems[i as int].0).len());
                    assert(head(3, encode_utf8(ems[i as int].0).len()) == head(3, encode_utf8(ems[i as int].0).len()));
                }
                lemma_entries_key_kind(input@, cur as int, (count - i) as nat, last_key(es@), depth as int, max_depth as int, kh.major as nat, kh.arg as nat, kafter as int);
            }
            return Err(CanonError::NonTextKey { offset: key_pos });
        }
        proof {
            assert forall|ems: Seq<(Seq<char>, Model)>|
                #[trigger] entries_at(ems, input@, start as int, budget) && ems.len() == count implies kh.arg
                == encode_utf8(ems[i as int].0).len() && kafter == cur + head(3, encode_utf8(ems[i as int].0).len()).len() by {
                lemma_head(3, encode_utf8(ems[i as int].0).len());
                assert(head(3, encode_utf8(ems[i as int].0).len()) == head(3, encode_utf8(ems[i as int].0).len()));
            }
        }
        let (key, kend) = match text_at(input, kafter, kh.arg) {
            Ok(x) => x,
            Err(err) => {
                proof {
                    assert forall|ems: Seq<(Seq<char>, Model)>|
                        #[trigger] entries_at(ems, input@, start as int, budget) && ems.len() == count implies false by {
                        assert(encode_utf8(ems[i as int].0) == encode_utf8(ems[i as int].0));
                    }
                    lemma_entries_key_text(input@, cur as int, (count - i) as nat, last_key(es@), depth as int, max_depth as int, kh.arg as nat, kafter as int, err@);
                }
                return Err(err);
            },
        };
        proof {
            assert forall|ems: Seq<(Seq<char>, Model)>|
                #[trigger] entries_at(ems, input@, start as int, budget) && ems.len() == count implies key@
                == ems[i as int].0 by {
                assert(encode_utf8(ems[i as int].0) == encode_utf8(ems[i as int].0));
            }
        }
        if i > 0 {
            let prev = es[i - 1].0.as_str();
            if !lex_less(prev.as_bytes(), key.as_str().as_bytes()) {
                proof {
                    lemma_entry_models_len(es@);
                    assert forall|ems: Seq<(Seq<char>, Model)>|
                        #[trigger] entries_at(ems, input@, start as int, budget) && ems.len() == count implies false by {
                        assert(entry_models(es@)[i - 1] == ems.take(i as int)[i - 1]);
                        lemma_entry_models_index(es@, i - 1);
                    }
                }
                proof {
                    assert(last_key(es@) == Some(prev@));
                    lemma_entries_key_order(input@, cur as int, (count - i) as nat, last_key(es@), depth as int, max_depth as int, kh.arg as nat, kafter as int, key@, kend as int);
                }
                if crate::text::bytes_eq(prev.as_bytes(), key.as_str().as_bytes()) {
                    return Err(CanonError::DuplicateKey { offset: key_pos, key });
                }
                let previous = crate::text::copy_text(prev);
                return Err(CanonError::UnsortedKeys { offset: key_pos, previous, current: key });
            }
        }
        let (v, e) = match item(input, kend, depth + 1, max_depth) {
            Ok(x) => x,
            Err(err) => {
                proof {
                    assert forall|ems: Seq<(Seq<char>, Model)>|
                        #[trigger] entries_at(ems, input@, start as int, budget) && ems.len() == count implies false by {
                        assert(canon_at(ems[i as int].1, input@, kend as int, max_depth - (depth + 1)));
                    }
                    lemma_entries_value(input@, cur as int, (count - i) as nat, last_key(es@), depth as int, max_depth as int, kh.arg as nat, kafter as int, key@, kend as int);
                }
                return Err(err);
            },
        };
        proof {
            lemma_entries_value(input@, cur as int, (count - i) as nat, last_key(es@), depth as int, max_depth as int, kh.arg as nat, kafter as int, key@, kend as int);
            lemma_prepend_push(
                entry_models(es@),
                (key@, model(v)),
                scan_entries(input@, e as int, (count - i - 1) as nat, Some(key@), depth as int, max_depth as int),
            );
            assert(last_key(es@.push((key, v))) == Some(key@));
            let ghost key_view = key@;
            lemma_entry_models_push(es@, key, v);
            lemma_entry_models_len(es@);
            let ms0 = entry_models(es@);
            let ms1 = ms0.push((key@, model(v)));
            assert(ms1.drop_last() =~= ms0);
            assert(input@.skip(start as int).skip(cur - start) =~= input@.skip(cur as int));
            assert(input@.subrange(cur as int, kend as int) =~= enc_text(key@));
            assert(input@.skip(cur as int).take(enc_text(key@).len() as int) =~= enc_text(key@));
            assert(input@.skip(cur as int).skip(enc_text(key@).len() as int) =~= input@.skip(kend as int));
            assert(input@.skip(start as int).skip(cur - start + enc_text(key@).len()) =~= input@.skip(kend as int));
            if i > 0 {
                lemma_entry_models_index(es@, i - 1);
            }
            assert(keys_ascending(ms1)) by {
                assert forall|j: int| 0 < j < ms1.len() implies lex_lt(encode_utf8(#[trigger] ms1[j - 1].0), encode_utf8(ms1[j].0)) by {
                    if j < ms1.len() - 1 {
                        assert(ms1[j - 1] == ms0[j - 1]);
                        assert(ms1[j] == ms0[j]);
                    }
                }
            }
            assert forall|ems: Seq<(Seq<char>, Model)>|
                #[trigger] entries_at(ems, input@, start as int, budget) && ems.len() == count implies ms1
                == ems.take(i + 1) && e == start + enc_entries(ems.take(i + 1)).len() by {
                assert(canon_at(ems[i as int].1, input@, kend as int, max_depth - (depth + 1)));
                assert(ems.take(i + 1) =~= ems.take(i as int).push(ems[i as int]));
                assert(ems.take(i + 1).drop_last() =~= ems.take(i as int));
            }
        }
        es.push((key, v));
        cur = e;
        i = i + 1;
    }
    proof {
        assert forall|ems: Seq<(Seq<char>, Model)>|
            #[trigger] entries_at(ems, input@, start as int, budget) && ems.len() == count implies ems.take(
            count as int,
        ) == ems by {
            assert(ems.take(count as int) =~= ems);
        }
        lemma_prepend_done(entry_models(es@), cur as int);
        reveal_with_fuel(scan_entries, 1);
    }
    Ok((es, cur))
}

proof fn lemma_entry_models_index(s: Seq<(String, Value)>, j: int)
    requires
        0 <= j < s.len(),
    ensures
        entry_models(s)[j] == (s[j].0@, model(s[j].1)),
        entry_models(s).len() == s.len(),
    decreases s.len(),
{
    lemma_entry_models_len(s);
    if j < s.len() - 1 {
        lemma_entry_models_index(s.drop_last(), j);
    }
}

proof fn lemma_entry_models_len(s: Seq<(String, Value)>)
    ensures
        entry_models(s).len() == s.len(),
    decreases s.len(),
{
    if s.len() > 0 {
        lemma_entry_models_len(s.drop_last());
    }
}

/// Decode canonical CBOR, rejecting anything outside the profile.
///
/// Uses [`MAX_OBJECT_BYTES`] and [`DEFAULT_MAX_DEPTH`]. What it gives, the
/// value or the first violation with its place, is [`scan`].
pub fn decode(input: &[u8]) -> (r: Result<Value, CanonError>)
    ensures
        match r {
            Ok(v) => scan(input@, MAX_OBJECT_BYTES as int, DEFAULT_MAX_DEPTH as int) == Ok::<Model, Fault>(model(v)),
            Err(e) => scan(input@, MAX_OBJECT_BYTES as int, DEFAULT_MAX_DEPTH as int) == Err::<Model, Fault>(e@),
        },
        (input.len() > MAX_OBJECT_BYTES) <==> r == Err::<Value, CanonError>(
            CanonError::TooLarge { size: input.len(), limit: MAX_OBJECT_BYTES },
        ),
        r matches Ok(v) ==> accepts(input@, model(v), MAX_OBJECT_BYTES as int, DEFAULT_MAX_DEPTH as int),
        forall|m: Model|
            #[trigger] encodes(input@, m, MAX_OBJECT_BYTES as int, DEFAULT_MAX_DEPTH as int) ==> (r matches Ok(v)
                && model(v) == m),
{
    decode_with_limit(input, MAX_OBJECT_BYTES, DEFAULT_MAX_DEPTH)
}

/// Decode with explicit size and nesting limits.
///
/// Succeeds on exactly the canonical encodings of canonical values that fit
/// the limits, and reads back the value that was encoded; otherwise names
/// the first violation and its place, as [`scan`] does.
pub fn decode_with_limit(input: &[u8], max_bytes: usize, max_depth: usize) -> (r: Result<
    Value,
    CanonError,
>)
    ensures
        (input.len() > max_bytes) <==> r == Err::<Value, CanonError>(
            CanonError::TooLarge { size: input.len(), limit: max_bytes },
        ),
        r matches Ok(v) ==> accepts(input@, model(v), max_bytes as int, max_depth as int),
        forall|m: Model|
            #[trigger] encodes(input@, m, max_bytes as int, max_depth as int) ==> (r matches Ok(v)
                && model(v) == m),
        forall|m: Model|
            input.len() <= max_bytes && #[trigger] canonical(m) && within(m, max_depth as int)
                && starts_with(input@, enc(m)) && enc(m).len() < input.len() ==> r == Err::<
                Value,
                CanonError,
            >(CanonError::TrailingData { count: (input.len() - enc(m).len()) as usize }),
        match r {
            Ok(v) => scan(input@, max_bytes as int, max_depth as int) == Ok::<Model, Fault>(model(v)),
            Err(e) => scan(input@, max_bytes as int, max_depth as int) == Err::<Model, Fault>(e@),
        },
        r matches Err(CanonError::TrailingData { count }) ==> 0 < count < input.len() && exists|
            m: Model,
        |
            #![trigger dec_len(m, input@)]
            canonical(m) && within(m, max_depth as int) && dec_len(m, input@) == Some(
                (input.len() - count) as nat,
            ),
{
    if input.len() > max_bytes {
        return Err(CanonError::TooLarge { size: input.len(), limit: max_bytes });
    }
    proof {
        assert(input@.skip(0) =~= input@);
        assert forall|m: Model| #[trigger]
            encodes(input@, m, max_bytes as int, max_depth as int) implies canon_at(
            m,
            input@,
            0,
            max_depth - 0,
        ) by {
            assert(input@.take(input.len() as int) =~= input@);
        }
        assert forall|m: Model|
            #[trigger] canonical(m) && within(m, max_depth as int) && starts_with(input@, enc(m))
                implies canon_at(m, input@, 0, max_depth - 0) by {}
    }
    let (value, end) = match item(input, 0, 0, max_depth) {
        Ok(x) => x,
        Err(e) => return Err(e),
    };
    let remaining = input.len() - end;
    if remaining > 0 {
        proof {
            assert forall|m: Model| #[trigger] encodes(input@, m, max_bytes as int, max_depth as int) implies false by {
                assert(canon_at(m, input@, 0, max_depth - 0));
            }
        }
        return Err(CanonError::TrailingData { count: remaining });
    }
    proof {
        assert forall|m: Model|
            #[trigger] canonical(m) && within(m, max_depth as int) && starts_with(input@, enc(m))
                implies enc(m).len() == input.len() by {
            assert(canon_at(m, input@, 0, max_depth - 0));
        }
    }
    Ok(value)
}

} // verus!
