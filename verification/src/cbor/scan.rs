//! What the decoder reads from a byte string, as spec functions: the value
//! it gives, or the first violation it meets, with its offset.
//!
//! Reading goes from the front, item by item, and stops at the first rule
//! broken, so each error names the rule and the place of the first
//! violation.

use super::{arg_width, from_be, lex_lt, Model};
use crate::error::Fault;
use crate::text::{is_nfc_text, nfc_form};
use vstd::prelude::*;
use vstd::utf8::*;

verus! {

/// The violation of a read of `n` bytes at `pos` that runs past the end.
pub open spec fn shortfall(b: Seq<u8>, pos: int, n: int) -> Fault {
    Fault::Truncated {
        offset: pos,
        needed: if n > usize::MAX {
            usize::MAX as int
        } else {
            n - (b.len() - pos)
        },
    }
}

/// The head at `pos`: its major type, its argument and where it ends; or
/// the violation, which is at `pos` unless the input ends inside the head.
///
/// An argument must use the shortest form; floats and indefinite lengths
/// are refused by their initial byte, before any argument byte is read.
pub open spec fn scan_head(b: Seq<u8>, pos: int) -> Result<(nat, nat, int), Fault> {
    if pos >= b.len() {
        Err(Fault::Truncated { offset: pos, needed: 1 })
    } else {
        let major = (b[pos] / 32) as nat;
        let info = (b[pos] % 32) as nat;
        if major == 7 {
            if 25 <= info <= 27 {
                Err(Fault::Float { offset: pos })
            } else if info == 31 {
                Err(Fault::IndefiniteLength { offset: pos })
            } else if info == 24 {
                if pos + 1 >= b.len() {
                    Err(Fault::Truncated { offset: pos + 1, needed: 1 })
                } else if b[pos + 1] <= 23 {
                    Err(Fault::NonShortestInteger { offset: pos, value: b[pos + 1] as int, used: 1 })
                } else {
                    Ok((7, b[pos + 1] as nat, pos + 2))
                }
            } else if info <= 23 {
                Ok((7, info, pos + 1))
            } else {
                Err(Fault::Unsupported { offset: pos, detail: "reserved simple value"@ })
            }
        } else if info == 31 {
            Err(Fault::IndefiniteLength { offset: pos })
        } else if info >= 28 {
            Err(Fault::Unsupported { offset: pos, detail: "reserved additional information"@ })
        } else {
            let extra: nat = if info <= 23 {
                0
            } else if info == 24 {
                1
            } else if info == 25 {
                2
            } else if info == 26 {
                4
            } else {
                8
            };
            let start = pos + 1;
            if extra > b.len() - start {
                Err(Fault::Truncated { offset: start, needed: extra - (b.len() - start) })
            } else {
                let arg = if extra == 0 {
                    info
                } else {
                    from_be(b.subrange(start, start + extra))
                };
                if extra != arg_width(arg) {
                    Err(Fault::NonShortestInteger { offset: pos, value: arg as int, used: extra as int })
                } else {
                    Ok((major, arg, start + extra))
                }
            }
        }
    }
}

/// The text of `n` bytes at `pos`, and where it ends: the bytes must be
/// valid UTF-8, and the text in Normalization Form C.
pub open spec fn scan_text(b: Seq<u8>, pos: int, n: nat) -> Result<(Seq<char>, int), Fault> {
    if n > b.len() - pos {
        Err(shortfall(b, pos, n as int))
    } else {
        let raw = b.subrange(pos, pos + n);
        if !valid_utf8(raw) {
            Err(Fault::InvalidUtf8 { offset: pos })
        } else if !is_nfc_text(decode_utf8(raw)) {
            Err(Fault::NotNfc { offset: pos, text: nfc_form(decode_utf8(raw)) })
        } else {
            Ok((decode_utf8(raw), pos + n))
        }
    }
}

/// The item at `pos`, `depth` levels below the top, and where it ends; or
/// the first violation in it.
pub open spec fn scan_item(b: Seq<u8>, pos: int, depth: int, max_depth: int) -> Result<(Model, int), Fault>
    decreases b.len() - pos, 0int, 0int,
{
    if depth > max_depth {
        Err(Fault::TooDeep { offset: pos, limit: max_depth })
    } else {
        match scan_head(b, pos) {
            Err(f) => Err(f),
            Ok((major, arg, after)) => {
                if major == 0 {
                    Ok((Model::Uint(arg as u64), after))
                } else if major == 1 {
                    Ok((Model::Nint(arg as u64), after))
                } else if major == 2 {
                    if arg > b.len() - after {
                        Err(shortfall(b, after, arg as int))
                    } else {
                        Ok((Model::Bytes(b.subrange(after, after + arg)), after + arg))
                    }
                } else if major == 3 {
                    match scan_text(b, after, arg) {
                        Err(f) => Err(f),
                        Ok((t, end)) => Ok((Model::Text(t), end)),
                    }
                } else if major == 4 {
                    if arg > usize::MAX {
                        Err(Fault::Truncated { offset: after, needed: usize::MAX as int })
                    } else {
                        match scan_items(b, after, arg, depth, max_depth) {
                            Err(f) => Err(f),
                            Ok((ms, end)) => Ok((Model::Array(ms), end)),
                        }
                    }
                } else if major == 5 {
                    if arg > usize::MAX {
                        Err(Fault::Truncated { offset: after, needed: usize::MAX as int })
                    } else {
                        match scan_entries(b, after, arg, None, depth, max_depth) {
                            Err(f) => Err(f),
                            Ok((es, end)) => Ok((Model::Dict(es), end)),
                        }
                    }
                } else if major == 6 {
                    Err(Fault::Unsupported { offset: pos, detail: "tags are not part of the profile"@ })
                } else if arg == 20 {
                    Ok((Model::Bool(false), after))
                } else if arg == 21 {
                    Ok((Model::Bool(true), after))
                } else if arg == 22 {
                    Ok((Model::Null, after))
                } else if arg == 23 {
                    Err(Fault::Unsupported { offset: pos, detail: "undefined is not part of the profile"@ })
                } else {
                    Err(Fault::Unsupported { offset: pos, detail: "simple value outside the profile"@ })
                }
            },
        }
    }
}

/// The `count` items of an array at `start`, one level below `depth`, and
/// where they end; or the first violation in them.
///
/// An item always ends past where it starts and within the input (see
/// `lemma_scan_item_ends`), so the last branch is never taken.
pub open spec fn scan_items(b: Seq<u8>, start: int, count: nat, depth: int, max_depth: int) -> Result<
    (Seq<Model>, int),
    Fault,
>
    decreases b.len() - start, 1int, count,
{
    if count == 0 {
        Ok((Seq::empty(), start))
    } else {
        match scan_item(b, start, depth + 1, max_depth) {
            Err(f) => Err(f),
            Ok((m, end)) => if start < end <= b.len() {
                match scan_items(b, end, (count - 1) as nat, depth, max_depth) {
                    Err(f) => Err(f),
                    Ok((ms, fin)) => Ok((seq![m] + ms, fin)),
                }
            } else {
                Err(Fault::Truncated { offset: end, needed: 0 })
            },
        }
    }
}

/// The `count` entries of a map at `start`, one level below `depth`, the
/// key before them being `prev`, and where they end; or the first
/// violation in them. Each key must be text, and come after the key
/// before it in UTF-8 byte order.
#[verifier::opaque]
pub open spec fn scan_entries(
    b: Seq<u8>,
    start: int,
    count: nat,
    prev: Option<Seq<char>>,
    depth: int,
    max_depth: int,
) -> Result<(Seq<(Seq<char>, Model)>, int), Fault>
    decreases b.len() - start, 1int, count,
{
    if count == 0 {
        Ok((Seq::empty(), start))
    } else {
        match scan_head(b, start) {
            Err(f) => Err(f),
            Ok((major, arg, kafter)) => if major != 3 {
                Err(Fault::NonTextKey { offset: start })
            } else {
                match scan_text(b, kafter, arg) {
                    Err(f) => Err(f),
                    Ok((key, kend)) => if prev is Some && !lex_lt(encode_utf8(prev->0), encode_utf8(key)) {
                        if prev->0 == key {
                            Err(Fault::DuplicateKey { offset: start, key })
                        } else {
                            Err(Fault::UnsortedKeys { offset: start, previous: prev->0, current: key })
                        }
                    } else {
                        match scan_item(b, kend, depth + 1, max_depth) {
                            Err(f) => Err(f),
                            Ok((m, end)) => if start < end <= b.len() {
                                match scan_entries(b, end, (count - 1) as nat, Some(key), depth, max_depth) {
                                    Err(f) => Err(f),
                                    Ok((es, fin)) => Ok((seq![(key, m)] + es, fin)),
                                }
                            } else {
                                Err(Fault::Truncated { offset: end, needed: 0 })
                            },
                        }
                    },
                }
            },
        }
    }
}

/// What decoding `b` gives: the size limit first, then one item from the
/// start, which must end where the input does.
pub open spec fn scan(b: Seq<u8>, max_bytes: int, max_depth: int) -> Result<Model, Fault> {
    if b.len() > max_bytes {
        Err(Fault::TooLarge { size: b.len() as int, limit: max_bytes })
    } else {
        match scan_item(b, 0, 0, max_depth) {
            Err(f) => Err(f),
            Ok((m, end)) => if end < b.len() {
                Err(Fault::TrailingData { count: b.len() - end })
            } else {
                Ok(m)
            },
        }
    }
}

} // verus!
