//! Content identifiers.
//!
//! A CID names an object by the hash of its canonical serialization:
//!
//! ```text
//! pub:<hash-algorithm-id>:<base32-lower-no-pad(digest)>
//! ```
//!
//! The algorithm identifier travels in-band so that a future migration is a
//! new identifier rather than a flag day.

use crate::cbor::{be, from_be};
use crate::text::{bytes_eq, string_from_utf8};
use sha2::{Digest, Sha256};
use vstd::prelude::*;
use vstd::utf8::*;

verus! {

broadcast use vstd::utf8::group_utf8_lib;

/// The SHA-256 digest of `bytes`, as computed by the `sha2` crate.
pub uninterp spec fn sha256_of(bytes: Seq<u8>) -> Seq<u8>;

/// Calls `sha2::Sha256::digest`. The digest is named [`sha256_of`]; its
/// length is the 32 bytes of the crate's output type.
#[verifier::external_body]
fn sha256(bytes: &[u8]) -> (r: Vec<u8>)
    ensures
        r@ == sha256_of(bytes@),
        r@.len() == 32,
{
    Sha256::digest(bytes).to_vec()
}

/// A hash algorithm usable for content identifiers.
///
/// `sha2-256` is required of every implementation.
#[derive(Debug, Clone, Copy, PartialEq, Eq, Hash, Structural)]
#[non_exhaustive]
pub enum HashAlg {
    /// SHA-256, required of every implementation.
    Sha2_256,
}

/// The in-band identifier of an algorithm, as bytes.
pub open spec fn alg_id_bytes(alg: HashAlg) -> Seq<u8> {
    match alg {
        HashAlg::Sha2_256 => seq![115u8, 104, 97, 50, 45, 50, 53, 54],
    }
}

/// The digest an algorithm computes.
pub open spec fn digest_of(alg: HashAlg, bytes: Seq<u8>) -> Seq<u8> {
    match alg {
        HashAlg::Sha2_256 => sha256_of(bytes),
    }
}

impl HashAlg {
    /// The in-band identifier used in a CID.
    pub fn id(self) -> (r: &'static str)
        ensures
            encode_utf8(r@) == alg_id_bytes(self),
    {
        match self {
            HashAlg::Sha2_256 => {
                let r = "sha2-256";
                proof {
                    reveal_strlit("sha2-256");
                    assert(encode_utf8(r@) =~= alg_id_bytes(self)) by {
                        assert(is_ascii_chars(r@));
                    }
                }
                r
            },
        }
    }

    /// Resolve an in-band identifier.
    pub fn from_id(id: &str) -> (r: Option<Self>)
        ensures
            r == (if encode_utf8(id@) == alg_id_bytes(HashAlg::Sha2_256) {
                Some(HashAlg::Sha2_256)
            } else {
                None
            }),
    {
        let known = HashAlg::Sha2_256.id();
        if bytes_eq(id.as_bytes(), known.as_bytes()) {
            Some(HashAlg::Sha2_256)
        } else {
            None
        }
    }

    /// Hash `bytes` with this algorithm.
    pub fn digest(self, bytes: &[u8]) -> (r: Vec<u8>)
        ensures
            r@ == digest_of(self, bytes@),
            r@.len() == 32,
    {
        match self {
            HashAlg::Sha2_256 => sha256(bytes),
        }
    }
}

/// A content identifier.
#[derive(Debug, PartialEq, Eq, Hash)]
pub struct Cid {
    alg: HashAlg,
    digest: Vec<u8>,
}

impl View for Cid {
    type V = (HashAlg, Seq<u8>);

    closed spec fn view(&self) -> (HashAlg, Seq<u8>) {
        (self.alg, self.digest@)
    }
}

impl Clone for Cid {
    fn clone(&self) -> (r: Self)
        ensures
            r@ == self@,
    {
        Cid { alg: self.alg, digest: crate::text::copy_bytes(self.digest.as_slice()) }
    }
}

/// The lower-case base32 character for a five-bit value.
pub open spec fn b32_char(d: nat) -> u8 {
    if d < 26 {
        (97 + d) as u8
    } else {
        (24 + d) as u8
    }
}

/// `x` as `n` base-32 digits, most significant first (the low `5n` bits).
pub open spec fn digits32(x: nat, n: nat) -> Seq<u8>
    decreases n,
{
    if n == 0 {
        Seq::empty()
    } else {
        digits32(x / 32, (n - 1) as nat).push(b32_char(x % 32))
    }
}

/// How many base32 characters encode `k` bytes (without padding).
pub open spec fn chars_for(k: nat) -> nat {
    if k == 0 {
        0
    } else if k == 1 {
        2
    } else if k == 2 {
        4
    } else if k == 3 {
        5
    } else if k == 4 {
        7
    } else {
        8
    }
}

/// Zero bits appended to `k` bytes to fill whole characters.
pub open spec fn pad_bits_for(k: nat) -> nat {
    if k == 1 {
        4
    } else if k == 2 {
        16
    } else if k == 3 {
        2
    } else if k == 4 {
        8
    } else {
        1
    }
}

/// RFC 4648 base32 of one group of up to five bytes, lower case, without
/// padding: the group's bits, zero-filled to whole characters, five at a
/// time.
pub open spec fn b32_group(d: Seq<u8>) -> Seq<u8> {
    digits32(from_be(d) * pad_bits_for(d.len()), chars_for(d.len()))
}

/// RFC 4648 base32, lower case, without padding.
pub open spec fn base32(data: Seq<u8>) -> Seq<u8>
    decreases data.len(),
{
    if data.len() == 0 {
        Seq::empty()
    } else if data.len() <= 5 {
        b32_group(data)
    } else {
        b32_group(data.take(5)) + base32(data.skip(5))
    }
}

/// The text of an identifier, as bytes.
pub open spec fn cid_text(c: (HashAlg, Seq<u8>)) -> Seq<u8> {
    seq![112u8, 117, 98, 58] + alg_id_bytes(c.0) + seq![58u8] + base32(c.1)
}

pub(crate) proof fn lemma_ascii_valid(b: Seq<u8>)
    requires
        forall|i: int| 0 <= i < b.len() ==> b[i] < 128,
    ensures
        valid_utf8(b),
{
    assert(b.subrange(0, 0) =~= Seq::<u8>::empty());
    assert(partial_valid_utf8(b, 0));
    assert forall|i: int| 0 <= 0 <= i < b.len() <= b.len() implies #[trigger] is_leading_byte_width_1(b[i]) by {}
    partial_valid_utf8_extend_ascii_block(b, 0, b.len() as int);
    assert(b.subrange(0, b.len() as int) =~= b);
}

/// Append `n` base-32 digits of `x`.
fn push_digits(out: &mut Vec<u8>, x: u64, n: usize)
    requires
        n <= 8,
    ensures
        final(out)@ == old(out)@ + digits32(x as nat, n as nat),
    decreases n,
{
    if n == 0 {
        assert(old(out)@ + digits32(x as nat, 0) =~= old(out)@);
    } else {
        push_digits(out, x / 32, n - 1);
        let d = x % 32;
        let c: u8 = if d < 26 {
            97 + d as u8
        } else {
            24 + d as u8
        };
        out.push(c);
        assert(final(out)@ =~= old(out)@ + digits32(x as nat, n as nat));
    }
}

proof fn lemma_b32_chars(x: nat, n: nat)
    ensures
        forall|i: int| 0 <= i < digits32(x, n).len() ==> #[trigger] digits32(x, n)[i] < 128,
        digits32(x, n).len() == n,
    decreases n,
{
    if n > 0 {
        lemma_b32_chars(x / 32, (n - 1) as nat);
    }
}

/// RFC 4648 base32, lower case, no padding.
fn base32_bytes(data: &[u8]) -> (r: Vec<u8>)
    ensures
        r@ == base32(data@),
        forall|i: int| 0 <= i < r@.len() ==> r@[i] < 128,
{
    let mut out: Vec<u8> = Vec::new();
    let mut i: usize = 0;
    assert(data@.skip(0) =~= data@);
    while i < data.len()
        invariant
            i <= data.len(),
            out@ + base32(data@.skip(i as int)) == base32(data@),
            forall|j: int| 0 <= j < out@.len() ==> out@[j] < 128,
        decreases data.len() - i,
    {
        let k: usize = if data.len() - i < 5 {
            data.len() - i
        } else {
            5
        };
        let ghost rest = data@.skip(i as int);
        let group = crate::cbor::read_be(data, i, k);
        let (pad, chars): (u64, usize) = if k == 1 {
            (4, 2)
        } else if k == 2 {
            (16, 4)
        } else if k == 3 {
            (2, 5)
        } else if k == 4 {
            (8, 7)
        } else {
            (1, 8)
        };
        proof {
            crate::cbor::lemma_from_be_bound(data@.subrange(i as int, i + k));
            reveal_with_fuel(crate::cbor::pow256, 6);
            assert(group < crate::cbor::pow256(k as nat));
            if k == 1 {
                assert(crate::cbor::pow256(1) == 256);
            } else if k == 2 {
                assert(crate::cbor::pow256(2) == 65536);
            } else if k == 3 {
                assert(crate::cbor::pow256(3) == 16777216);
            } else if k == 4 {
                assert(crate::cbor::pow256(4) == 4294967296);
            } else {
                assert(crate::cbor::pow256(5) == 1099511627776);
            }
        }
        let ghost before = out@;
        push_digits(&mut out, group * pad, chars);
        proof {
            lemma_b32_chars((group * pad) as nat, chars as nat);
            let g = data@.subrange(i as int, i + k);
            if rest.len() <= 5 {
                assert(rest =~= g);
            } else {
                assert(rest.take(5) =~= g);
                assert(rest.skip(5) =~= data@.skip(i + 5));
            }
            assert forall|j: int| 0 <= j < out@.len() implies out@[j] < 128 by {
                if j >= before.len() {
                    assert(out@[j] == digits32((group * pad) as nat, chars as nat)[j - before.len()]);
                }
            }
        }
        i = i + k;
        proof {
            if i == data.len() {
                assert(data@.skip(i as int) =~= Seq::<u8>::empty());
            }
            assert(out@ + base32(data@.skip(i as int)) =~= base32(data@));
        }
    }
    assert(data@.skip(data.len() as int) =~= Seq::<u8>::empty());
    assert(out@ =~= base32(data@));
    out
}

/// The value of a base32 character, when it is one.
pub open spec fn b32_value(c: u8) -> Option<nat> {
    if 97 <= c <= 122 {
        Some((c - 97) as nat)
    } else if 50 <= c <= 55 {
        Some((c - 24) as nat)
    } else {
        None
    }
}

/// The number held in base-32 characters, most significant first.
pub open spec fn from_digits32(t: Seq<u8>) -> nat
    decreases t.len(),
{
    if t.len() == 0 {
        0
    } else {
        from_digits32(t.drop_last()) * 32 + match b32_value(t.last()) {
            Some(v) => v,
            None => 0,
        }
    }
}

/// How many bytes `c` base32 characters carry.
pub open spec fn bytes_for(c: nat) -> nat {
    if c <= 1 {
        0
    } else if c <= 3 {
        1
    } else if c == 4 {
        2
    } else if c <= 6 {
        3
    } else if c == 7 {
        4
    } else {
        5
    }
}

/// Two to the number of bits `c` characters carry beyond whole bytes.
pub open spec fn spare_bits_for(c: nat) -> nat {
    if c == 1 {
        32
    } else if c == 2 {
        4
    } else if c == 3 {
        128
    } else if c == 4 {
        16
    } else if c == 5 {
        2
    } else if c == 6 {
        64
    } else if c == 7 {
        8
    } else {
        1
    }
}

/// The bytes one group of up to eight base32 characters carries: the
/// whole bytes of its bits, leftover bits dropped.
pub open spec fn b32_group_decode(t: Seq<u8>) -> Seq<u8> {
    be(from_digits32(t) / spare_bits_for(t.len()), bytes_for(t.len()))
}

/// RFC 4648 base32 of `data`, lower-cased and unpadded, as text.
pub fn base32_lower(data: &[u8]) -> (r: String)
    ensures
        encode_utf8(r@) == base32(data@),
{
    let b = base32_bytes(data);
    let ghost bv = b@;
    proof {
        lemma_ascii_valid(bv);
    }
    match string_from_utf8(b) {
        Some(s) => s,
        None => String::new(),
    }
}

/// The bytes a base32 text carries, eight characters at a time.
pub open spec fn base32_decode(t: Seq<u8>) -> Seq<u8>
    decreases t.len(),
{
    if t.len() == 0 {
        Seq::empty()
    } else if t.len() <= 8 {
        b32_group_decode(t)
    } else {
        b32_group_decode(t.take(8)) + base32_decode(t.skip(8))
    }
}

/// Index of the first byte that is not a base32 character, or -1.
pub open spec fn first_invalid(t: Seq<u8>) -> int
    decreases t.len(),
{
    if t.len() == 0 {
        -1
    } else if first_invalid(t.drop_last()) >= 0 {
        first_invalid(t.drop_last())
    } else if b32_value(t.last()) is None {
        t.len() - 1
    } else {
        -1
    }
}

/// Why a character is not base32.
pub open spec fn invalid_reason(c: u8) -> Seq<char> {
    if 65 <= c <= 90 {
        "digests are lower case"@
    } else if c == 61 {
        "digests are unpadded"@
    } else {
        "not a base32 character"@
    }
}

proof fn lemma_first_invalid(t: Seq<u8>)
    ensures
        -1 <= first_invalid(t) < t.len(),
        first_invalid(t) >= 0 ==> b32_value(t[first_invalid(t)]) is None,
        forall|j: int| 0 <= j < t.len() && first_invalid(t) == -1 ==> #[trigger] b32_value(t[j]) is Some,
        forall|j: int| 0 <= j < first_invalid(t) ==> #[trigger] b32_value(t[j]) is Some,
    decreases t.len(),
{
    if t.len() > 0 {
        lemma_first_invalid(t.drop_last());
        assert forall|j: int| 0 <= j < t.len() - 1 implies t.drop_last()[j] == t[j] by {}
    }
}

/// The digits of one group.
fn group_value(text: &[u8], start: usize, n: usize) -> (r: u64)
    requires
        start + n <= text.len(),
        n <= 8,
        forall|j: int| start <= j < start + n ==> #[trigger] b32_value(text@[j]) is Some,
    ensures
        r == from_digits32(text@.subrange(start as int, start + n)),
{
    let mut acc: u64 = 0;
    let mut i: usize = 0;
    while i < n
        invariant
            i <= n <= 8,
            start + n <= text.len(),
            forall|j: int| start <= j < start + n ==> #[trigger] b32_value(text@[j]) is Some,
            acc == from_digits32(text@.subrange(start as int, start + i)),
            acc < pow32(i as nat),
        decreases n - i,
    {
        proof {
            lemma_pow32_le(i as nat, 7);
            reveal_with_fuel(pow32, 9);
            let t = text@.subrange(start as int, start + i + 1);
            assert(t.drop_last() =~= text@.subrange(start as int, start + i));
            assert(b32_value(text@[start + i]) is Some);
        }
        let c = text[start + i];
        let d: u64 = if c >= 97 {
            (c - 97) as u64
        } else {
            (c - 24) as u64
        };
        acc = acc * 32 + d;
        i = i + 1;
    }
    acc
}

/// 32 to the power `n`.
pub open spec fn pow32(n: nat) -> nat
    decreases n,
{
    if n == 0 {
        1
    } else {
        32 * pow32((n - 1) as nat)
    }
}

proof fn lemma_pow32_le(i: nat, j: nat)
    requires
        i <= j,
    ensures
        pow32(i) <= pow32(j),
    decreases j,
{
    if i < j {
        lemma_pow32_le(i, (j - 1) as nat);
    }
}

/// Lower-case unpadded base32 back to bytes.
fn base32_lower_decode(text: &[u8]) -> (r: Result<Vec<u8>, CidError>)
    ensures
        first_invalid(text@) == -1 <==> r is Ok,
        r matches Ok(d) ==> d@ == base32_decode(text@),
        r matches Err(e) ==> (e matches CidError::InvalidDigest(m) && m@ == invalid_reason(
            text@[first_invalid(text@)],
        )),
{
    proof {
        lemma_first_invalid(text@);
    }
    let mut i: usize = 0;
    while i < text.len()
        invariant
            i <= text.len(),
            forall|j: int| 0 <= j < i ==> #[trigger] b32_value(text@[j]) is Some,
            -1 <= first_invalid(text@) < text.len(),
            first_invalid(text@) >= 0 ==> b32_value(text@[first_invalid(text@)]) is None,
            forall|j: int| 0 <= j < text.len() && first_invalid(text@) == -1 ==> #[trigger] b32_value(text@[j]) is Some,
            forall|j: int| 0 <= j < first_invalid(text@) ==> #[trigger] b32_value(text@[j]) is Some,
        decreases text.len() - i,
    {
        let c = text[i];
        if !((c >= 97 && c <= 122) || (c >= 50 && c <= 55)) {
            proof {
                assert(first_invalid(text@) == i) by {
                    if first_invalid(text@) == -1 {
                        assert(b32_value(text@[i as int]) is Some);
                    } else if first_invalid(text@) > i {
                        assert(b32_value(text@[i as int]) is Some);
                    }
                }
            }
            if c >= 65 && c <= 90 {
                return Err(CidError::InvalidDigest("digests are lower case"));
            }
            if c == 61 {
                return Err(CidError::InvalidDigest("digests are unpadded"));
            }
            return Err(CidError::InvalidDigest("not a base32 character"));
        }
        i = i + 1;
    }
    proof {
        if first_invalid(text@) >= 0 {
            assert(b32_value(text@[first_invalid(text@)]) is Some);
        }
    }
    let mut out: Vec<u8> = Vec::new();
    let mut k: usize = 0;
    assert(text@.skip(0) =~= text@);
    while k < text.len()
        invariant
            k <= text.len(),
            forall|j: int| 0 <= j < text.len() ==> #[trigger] b32_value(text@[j]) is Some,
            out@ + base32_decode(text@.skip(k as int)) == base32_decode(text@),
        decreases text.len() - k,
    {
        let c: usize = if text.len() - k < 8 {
            text.len() - k
        } else {
            8
        };
        let ghost rest = text@.skip(k as int);
        let v = group_value(text, k, c);
        let (spare, nbytes): (u64, usize) = if c == 1 {
            (32, 0)
        } else if c == 2 {
            (4, 1)
        } else if c == 3 {
            (128, 1)
        } else if c == 4 {
            (16, 2)
        } else if c == 5 {
            (2, 3)
        } else if c == 6 {
            (64, 3)
        } else if c == 7 {
            (8, 4)
        } else {
            (1, 5)
        };
        crate::cbor::push_be(&mut out, v / spare, nbytes);
        proof {
            let g = text@.subrange(k as int, k + c);
            if rest.len() <= 8 {
                assert(rest =~= g);
            } else {
                assert(rest.take(8) =~= g);
                assert(rest.skip(8) =~= text@.skip(k + 8));
            }
        }
        k = k + c;
        proof {
            if k == text.len() {
                assert(text@.skip(k as int) =~= Seq::<u8>::empty());
            }
            assert(out@ + base32_decode(text@.skip(k as int)) =~= base32_decode(text@));
        }
    }
    assert(text@.skip(text.len() as int) =~= Seq::<u8>::empty());
    assert(out@ =~= base32_decode(text@));
    Ok(out)
}

/// Reasons a string is not a well-formed CID.
#[derive(Debug, PartialEq, Eq, Clone)]
#[non_exhaustive]
pub enum CidError {
    /// The `pub:` scheme prefix was absent.
    MissingScheme,
    /// The three-part structure was not present.
    Malformed,
    /// The algorithm identifier is not implemented.
    UnknownAlgorithm(String),
    /// The digest was not lower-case unpadded base32.
    InvalidDigest(&'static str),
    /// The digest length did not match the algorithm.
    WrongDigestLength {
        /// The algorithm named in the identifier.
        alg: &'static str,
        /// Expected digest length in bytes.
        expected: usize,
        /// Length actually decoded.
        got: usize,
    },
}

/// The outcome of reading an identifier's text, by the rules of
/// [`Cid::parse`].
pub enum CidReading {
    MissingScheme,
    Malformed,
    /// The algorithm identifier (bytes) is unknown.
    Unknown(Seq<u8>),
    /// The first character of the digest that is not base32.
    Invalid(u8),
    /// The digest decodes to this many bytes, not 32.
    WrongLength(nat),
    /// The identifier names a SHA-256 digest.
    Parsed(Seq<u8>),
}

/// Index of the first `:` in `t`, or -1.
pub open spec fn colon_index(t: Seq<u8>) -> int
    decreases t.len(),
{
    if t.len() == 0 {
        -1
    } else if colon_index(t.drop_last()) >= 0 {
        colon_index(t.drop_last())
    } else if t.last() == 58 {
        t.len() - 1
    } else {
        -1
    }
}

/// The scheme prefix `pub:`.
pub open spec fn scheme_bytes() -> Seq<u8> {
    seq![112u8, 117, 98, 58]
}

/// How [`Cid::parse`] reads text whose UTF-8 bytes are `b`.
pub open spec fn read_cid(b: Seq<u8>) -> CidReading {
    if !(b.len() >= 4 && b.take(4) == scheme_bytes()) {
        CidReading::MissingScheme
    } else {
        let rest = b.skip(4);
        let p = colon_index(rest);
        if p < 0 {
            CidReading::Malformed
        } else {
            let a = rest.take(p);
            let d = rest.skip(p + 1);
            if a.len() == 0 || d.len() == 0 {
                CidReading::Malformed
            } else if a != alg_id_bytes(HashAlg::Sha2_256) {
                CidReading::Unknown(a)
            } else if first_invalid(d) >= 0 {
                CidReading::Invalid(d[first_invalid(d)])
            } else if base32_decode(d).len() != 32 {
                CidReading::WrongLength(base32_decode(d).len())
            } else {
                CidReading::Parsed(base32_decode(d))
            }
        }
    }
}

proof fn lemma_colon_index(t: Seq<u8>)
    ensures
        -1 <= colon_index(t) < t.len(),
        colon_index(t) >= 0 ==> t[colon_index(t)] == 58,
        forall|j: int| 0 <= j < t.len() && colon_index(t) == -1 ==> #[trigger] t[j] != 58,
        forall|j: int| 0 <= j < colon_index(t) ==> #[trigger] t[j] != 58,
    decreases t.len(),
{
    if t.len() > 0 {
        lemma_colon_index(t.drop_last());
        assert forall|j: int| 0 <= j < t.len() - 1 implies t.drop_last()[j] == t[j] by {}
    }
}

proof fn lemma_alg_text_valid(b: Seq<u8>, p: int)
    requires
        valid_utf8(b),
        b.len() >= 4,
        b[3] == 58,
        0 <= p,
        4 + p < b.len(),
        b[4 + p] == 58,
    ensures
        valid_utf8(b.subrange(4, 4 + p)),
{
    assert(is_char_boundary(b, 3)) by {
        is_char_boundary_iff_is_leading_byte(b, 3);
    }
    valid_utf8_split(b, 3);
    let c = b.subrange(3, b.len() as int);
    assert(c[1 + p] == 58);
    assert(is_char_boundary(c, 1 + p)) by {
        is_char_boundary_iff_is_leading_byte(c, 1 + p);
    }
    valid_utf8_split(c, 1 + p);
    let d = c.subrange(0, 1 + p);
    assert(d[0] == 58);
    assert(valid_utf8(d));
    assert(pop_first_scalar(d) =~= b.subrange(4, 4 + p));
}

proof fn lemma_digits32_len(x: nat, n: nat)
    ensures
        digits32(x, n).len() == n,
    decreases n,
{
    if n > 0 {
        lemma_digits32_len(x / 32, (n - 1) as nat);
    }
}

proof fn lemma_digits32_valid(x: nat, n: nat)
    ensures
        forall|i: int| 0 <= i < n ==> #[trigger] b32_value(digits32(x, n)[i]) is Some,
    decreases n,
{
    lemma_digits32_len(x, n);
    if n > 0 {
        lemma_digits32_valid(x / 32, (n - 1) as nat);
        lemma_digits32_len(x / 32, (n - 1) as nat);
    }
}

proof fn lemma_from_digits32(x: nat, n: nat)
    requires
        x < pow32(n),
    ensures
        from_digits32(digits32(x, n)) == x,
    decreases n,
{
    lemma_digits32_len(x, n);
    if n > 0 {
        lemma_from_digits32(x / 32, (n - 1) as nat);
        assert(digits32(x, n).drop_last() =~= digits32(x / 32, (n - 1) as nat));
    }
}

/// One group of bytes survives base32 and back.
proof fn lemma_group_round_trip(g: Seq<u8>)
    requires
        1 <= g.len() <= 5,
    ensures
        b32_group_decode(b32_group(g)) == g,
        b32_group(g).len() == chars_for(g.len()),
        forall|i: int| 0 <= i < b32_group(g).len() ==> #[trigger] b32_value(b32_group(g)[i]) is Some,
{
    let k = g.len();
    let x = from_be(g);
    let c = chars_for(k);
    let pad = pad_bits_for(k);
    crate::cbor::lemma_from_be_bound(g);
    reveal_with_fuel(crate::cbor::pow256, 6);
    reveal_with_fuel(pow32, 9);
    assert(x * pad < pow32(c)) by {
        if k == 1 {
            assert(x < 256);
        } else if k == 2 {
            assert(x < 65536);
        } else if k == 3 {
            assert(x < 16777216);
        } else if k == 4 {
            assert(x < 4294967296);
        } else {
            assert(x < 1099511627776);
        }
    }
    lemma_from_digits32(x * pad, c);
    lemma_digits32_len(x * pad, c);
    lemma_digits32_valid(x * pad, c);
    assert(spare_bits_for(c) == pad);
    assert(bytes_for(c) == k);
    assert((x * pad) / pad == x) by (nonlinear_arith)
        requires
            pad > 0,
    ;
    crate::cbor::lemma_be_of_from_be_pub(g);
}

proof fn lemma_base32_round_trip(d: Seq<u8>)
    ensures
        base32_decode(base32(d)) == d,
        forall|i: int| 0 <= i < base32(d).len() ==> #[trigger] b32_value(base32(d)[i]) is Some,
        d.len() > 0 ==> base32(d).len() >= 2,
    decreases d.len(),
{
    if d.len() == 0 {
    } else if d.len() <= 5 {
        lemma_group_round_trip(d);
    } else {
        let g = d.take(5);
        lemma_group_round_trip(g);
        lemma_base32_round_trip(d.skip(5));
        let x = base32(d);
        let gs = b32_group(g);
        assert(gs.len() == 8);
        assert(x.take(8) =~= gs);
        assert(x.skip(8) =~= base32(d.skip(5)));
        assert(g + d.skip(5) =~= d);
        assert forall|i: int| 0 <= i < x.len() implies #[trigger] b32_value(x[i]) is Some by {
            if i < 8 {
                assert(x[i] == gs[i]);
            } else {
                assert(x[i] == base32(d.skip(5))[i - 8]);
            }
        }
    }
}

proof fn lemma_no_invalid(t: Seq<u8>)
    requires
        forall|i: int| 0 <= i < t.len() ==> #[trigger] b32_value(t[i]) is Some,
    ensures
        first_invalid(t) == -1,
{
    lemma_first_invalid(t);
}

/// An identifier survives a round trip through its text form: reading
/// the text of a SHA-256 identifier gives back that identifier.
pub proof fn law_cid_text_round_trip(c: (HashAlg, Seq<u8>))
    requires
        c.1.len() == 32,
    ensures
        read_cid(cid_text(c)) == CidReading::Parsed(c.1),
{
    let b = cid_text(c);
    lemma_base32_round_trip(c.1);
    lemma_no_invalid(base32(c.1));
    assert(b.take(4) =~= scheme_bytes());
    let rest = b.skip(4);
    let a = alg_id_bytes(c.0);
    assert(rest =~= a + seq![58u8] + base32(c.1));
    lemma_colon_index(rest);
    assert(colon_index(rest) == 8) by {
        assert(rest[8] == 58);
        if colon_index(rest) == -1 {
            assert(rest[8] != 58);
        } else if colon_index(rest) < 8 {
            assert(rest[colon_index(rest)] == a[colon_index(rest)]);
        }
    }
    assert(rest.take(8) =~= a);
    assert(rest.skip(9) =~= base32(c.1));
}

/// Whether `r` is what [`Cid::parse`] returns for a text read as `reading`.
pub open spec fn parse_outcome(r: Result<Cid, CidError>, reading: CidReading) -> bool {
    match reading {
        CidReading::MissingScheme => r == Err::<Cid, CidError>(CidError::MissingScheme),
        CidReading::Malformed => r == Err::<Cid, CidError>(CidError::Malformed),
        CidReading::Unknown(a) => r matches Err(CidError::UnknownAlgorithm(x)) && encode_utf8(x@) == a,
        CidReading::Invalid(c) => r matches Err(CidError::InvalidDigest(m)) && m@ == invalid_reason(c),
        CidReading::WrongLength(n) => r matches Err(CidError::WrongDigestLength { alg, expected, got })
            && encode_utf8(alg@) == alg_id_bytes(HashAlg::Sha2_256) && expected == 32 && got == n,
        CidReading::Parsed(d) => r matches Ok(c) && c@ == (HashAlg::Sha2_256, d),
    }
}

impl Cid {
    /// Read an identifier from its text form.
    pub fn parse(s: &str) -> (r: Result<Cid, CidError>)
        ensures
            parse_outcome(r, read_cid(encode_utf8(s@))),
    {
        let b = s.as_bytes();
        let ghost bs = b@;
        if b.len() < 4 || b[0] != 112 || b[1] != 117 || b[2] != 98 || b[3] != 58 {
            proof {
                if b.len() >= 4 && b@.take(4) == scheme_bytes() {
                    assert(b@.take(4)[0] == b@[0]);
                    assert(b@.take(4)[1] == b@[1]);
                    assert(b@.take(4)[2] == b@[2]);
                    assert(b@.take(4)[3] == b@[3]);
                }
            }
            return Err(CidError::MissingScheme);
        }
        assert(b@.take(4) =~= scheme_bytes());
        let ghost rest = b@.skip(4);
        proof {
            lemma_colon_index(rest);
        }
        let mut p: usize = 4;
        while p < b.len() && b[p] != 58
            invariant
                4 <= p <= b.len(),
                rest == b@.skip(4),
                forall|j: int| 4 <= j < p ==> #[trigger] b@[j] != 58,
            decreases b.len() - p,
        {
            p = p + 1;
        }
        proof {
            if p < b.len() {
                assert(rest[p - 4] == 58);
                assert(colon_index(rest) == p - 4) by {
                    if colon_index(rest) == -1 {
                        assert(rest[p - 4] != 58);
                    } else if colon_index(rest) < p - 4 {
                        assert(b@[colon_index(rest) + 4] != 58);
                    }
                }
            } else {
                assert(colon_index(rest) == -1) by {
                    if colon_index(rest) >= 0 {
                        assert(b@[colon_index(rest) + 4] != 58);
                    }
                }
            }
        }
        if p == b.len() || p == 4 || p + 1 == b.len() {
            return Err(CidError::Malformed);
        }
        let alg_bytes = crate::text::copy_bytes(&b[4..p]);
        let digest_text = &b[p + 1..b.len()];
        proof {
            assert(alg_bytes@ =~= rest.take(p - 4));
            assert(digest_text@ =~= rest.skip(p - 4 + 1));
        }
        let known = HashAlg::Sha2_256.id().as_bytes();
        if !bytes_eq(alg_bytes.as_slice(), known) {
            proof {
                lemma_alg_text_valid(b@, p - 4);
                assert(alg_bytes@ =~= b@.subrange(4, p as int));
            }
            let name = match string_from_utf8(alg_bytes) {
                Some(x) => x,
                None => {
                    assert(false);
                    String::new()
                },
            };
            return Err(CidError::UnknownAlgorithm(name));
        }
        let digest = match base32_lower_decode(digest_text) {
            Ok(d) => d,
            Err(e) => return Err(e),
        };
        if digest.len() != 32 {
            return Err(
                CidError::WrongDigestLength { alg: HashAlg::Sha2_256.id(), expected: 32, got: digest.len() },
            );
        }
        Ok(Cid { alg: HashAlg::Sha2_256, digest })
    }

    /// Compute the identifier of `bytes` under `alg`.
    ///
    /// `bytes` must already be canonical; this does not check that.
    pub fn of(bytes: &[u8], alg: HashAlg) -> (r: Self)
        ensures
            r@ == (alg, digest_of(alg, bytes@)),
            r@.1.len() == 32,
    {
        Cid { alg, digest: alg.digest(bytes) }
    }

    /// The algorithm this identifier uses.
    pub fn alg(&self) -> (r: HashAlg)
        ensures
            r == self@.0,
    {
        self.alg
    }

    /// The raw digest.
    pub fn digest(&self) -> (r: &[u8])
        ensures
            r@ == self@.1,
    {
        self.digest.as_slice()
    }

    /// Whether `bytes` hash to this identifier.
    ///
    /// A recipient must verify retrieved bytes against
    /// the identifier they asked for before parsing them.
    pub fn verifies(&self, bytes: &[u8]) -> (r: bool)
        ensures
            r == (digest_of(self@.0, bytes@) == self@.1),
    {
        let d = self.alg.digest(bytes);
        bytes_eq(d.as_slice(), self.digest.as_slice())
    }

    /// Whether two identifiers are the same.
    pub fn same(&self, other: &Cid) -> (r: bool)
        ensures
            r == (self@ == other@),
    {
        self.alg == other.alg && bytes_eq(self.digest.as_slice(), other.digest.as_slice())
    }

    /// The identifier's text form, `pub:<algorithm>:<base32 digest>`.
    pub fn to_string(&self) -> (r: String)
        ensures
            encode_utf8(r@) == cid_text(self@),
    {
        let mut out: Vec<u8> = Vec::new();
        out.push(112);
        out.push(117);
        out.push(98);
        out.push(58);
        let id = self.alg.id().as_bytes();
        let mut i: usize = 0;
        while i < id.len()
            invariant
                i <= id.len(),
                out@ == seq![112u8, 117, 98, 58] + id@.take(i as int),
            decreases id.len() - i,
        {
            out.push(id[i]);
            i = i + 1;
            assert(out@ =~= seq![112u8, 117, 98, 58] + id@.take(i as int));
        }
        out.push(58);
        let encoded = base32_bytes(self.digest.as_slice());
        let mut j: usize = 0;
        let ghost mid = out@;
        while j < encoded.len()
            invariant
                j <= encoded.len(),
                out@ == mid + encoded@.take(j as int),
            decreases encoded.len() - j,
        {
            out.push(encoded[j]);
            j = j + 1;
            assert(out@ =~= mid + encoded@.take(j as int));
        }
        proof {
            assert(id@.take(id.len() as int) =~= id@);
            assert(encoded@.take(encoded.len() as int) =~= encoded@);
            assert(out@ =~= cid_text(self@));
            assert forall|k: int| 0 <= k < out@.len() implies out@[k] < 128 by {
                let a = alg_id_bytes(self@.0);
                if k >= 4 + a.len() + 1 {
                    assert(out@[k] == encoded@[k - 5 - a.len()]);
                }
            }
            lemma_ascii_valid(out@);
        }
        let ghost bytes = out@;
        match string_from_utf8(out) {
            Some(s) => s,
            None => {
                assert(false);
                String::new()
            },
        }
    }
}

impl core::str::FromStr for Cid {
    type Err = CidError;

    fn from_str(s: &str) -> (r: Result<Cid, CidError>)
        ensures
            parse_outcome(r, read_cid(encode_utf8(s@))),
    {
        Cid::parse(s)
    }
}

} // verus!
