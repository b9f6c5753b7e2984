//! Detached signatures.
//!
//! A signature is its own object referencing a target by identifier, so
//! signatures accrue to an object without changing its identifier. The
//! signed message is domain-separated:
//!
//! ```text
//! "pub/v1/sig" || 0x00 || purpose || 0x00 || canonical-bytes-of-target
//! ```
//!
//! Without the separator, a signature made for one purpose could be
//! presented as a signature for another. [`verify`] takes the expected
//! purpose as an argument so that omitting the check is not possible.

use crate::text::{bytes_eq, copy_text, text_eq};
use ed25519_dalek::{Signature, Verifier, VerifyingKey};
use vstd::prelude::*;
use vstd::utf8::*;

verus! {

broadcast use vstd::utf8::group_utf8_lib;

/// Whether 32 bytes decode to an Ed25519 public key, as decided by
/// `ed25519_dalek::VerifyingKey::from_bytes`.
pub uninterp spec fn ed25519_key_valid(key: Seq<u8>) -> bool;

/// Whether an Ed25519 signature verifies over a message under a key, as
/// decided by `ed25519_dalek`.
pub uninterp spec fn ed25519_accepts(key: Seq<u8>, message: Seq<u8>, signature: Seq<u8>) -> bool;

/// Calls `ed25519_dalek::VerifyingKey::from_bytes` and reports whether it
/// succeeded; the answer is named [`ed25519_key_valid`].
#[verifier::external_body]
fn key_decodes(key: &[u8]) -> (r: bool)
    requires
        key.len() == 32,
    ensures
        r == ed25519_key_valid(key@),
{
    match <[u8; 32]>::try_from(key) {
        Ok(bytes) => VerifyingKey::from_bytes(&bytes).is_ok(),
        Err(_) => false,
    }
}

/// Calls `Verifier::verify` of `ed25519_dalek::VerifyingKey` on the key
/// decoded from `key` and the signature read by `Signature::from_bytes`;
/// the answer is named [`ed25519_accepts`].
#[verifier::external_body]
fn ed25519_verify(key: &[u8], message: &[u8], signature: &[u8]) -> (r: bool)
    requires
        key.len() == 32,
        signature.len() == 64,
        ed25519_key_valid(key@),
    ensures
        r == ed25519_accepts(key@, message@, signature@),
{
    match (<[u8; 32]>::try_from(key), <[u8; 64]>::try_from(signature)) {
        (Ok(k), Ok(s)) => match VerifyingKey::from_bytes(&k) {
            Ok(vk) => vk.verify(message, &Signature::from_bytes(&s)).is_ok(),
            Err(_) => false,
        },
        _ => false,
    }
}

/// A signature algorithm.
#[derive(Debug, Clone, Copy, PartialEq, Eq, Hash, Structural)]
#[non_exhaustive]
pub enum SigAlg {
    /// Ed25519, which every implementation must support.
    Ed25519,
}

/// The in-band identifier of a signature algorithm, as bytes.
pub open spec fn sig_alg_bytes(alg: SigAlg) -> Seq<u8> {
    match alg {
        SigAlg::Ed25519 => seq![101u8, 100, 50, 53, 53, 49, 57],
    }
}

impl SigAlg {
    /// The in-band identifier.
    pub fn id(self) -> (r: &'static str)
        ensures
            encode_utf8(r@) == sig_alg_bytes(self),
    {
        let r = "ed25519";
        proof {
            reveal_strlit("ed25519");
            assert(is_ascii_chars(r@));
            assert(encode_utf8(r@) =~= sig_alg_bytes(self));
        }
        r
    }

    /// Resolve an in-band identifier.
    pub fn from_id(id: &str) -> (r: Option<Self>)
        ensures
            r == (if encode_utf8(id@) == sig_alg_bytes(SigAlg::Ed25519) {
                Some(SigAlg::Ed25519)
            } else {
                None
            }),
    {
        if bytes_eq(id.as_bytes(), SigAlg::Ed25519.id().as_bytes()) {
            Some(SigAlg::Ed25519)
        } else {
            None
        }
    }
}

/// Reasons a signature does not verify.
#[derive(Debug, PartialEq, Eq, Clone)]
#[non_exhaustive]
pub enum SigError {
    /// The algorithm identifier is not implemented.
    UnknownAlgorithm(String),
    /// The public key was not the right length or shape.
    MalformedKey,
    /// The signature was not the right length or shape.
    MalformedSignature,
    /// The signature did not verify over the constructed message.
    BadSignature,
    /// The signature was made for a different purpose.
    PurposeMismatch {
        /// The purpose recorded in the signature object.
        found: String,
        /// The purpose the evaluating context requires.
        expected: String,
    },
    /// A purpose contained the separator byte.
    PurposeContainsNul,
}

/// The domain separation prefix, `pub/v1/sig`.
pub open spec fn domain_bytes() -> Seq<u8> {
    seq![112u8, 117, 98, 47, 118, 49, 47, 115, 105, 103]
}

/// The message a signature for `purpose` over `target` covers.
pub open spec fn message_for(purpose: Seq<char>, target: Seq<u8>) -> Seq<u8> {
    domain_bytes() + seq![0u8] + encode_utf8(purpose) + seq![0u8] + target
}

/// Whether a purpose's UTF-8 bytes contain the separator.
pub open spec fn has_nul(purpose: Seq<char>) -> bool {
    encode_utf8(purpose).contains(0u8)
}

/// Construct the message a signature covers.
///
/// Fails with [`SigError::PurposeContainsNul`] exactly when `purpose`
/// contains `0x00`, which would make the separated encoding ambiguous.
pub fn signing_message(purpose: &str, target_bytes: &[u8]) -> (r: Result<Vec<u8>, SigError>)
    ensures
        has_nul(purpose@) <==> r == Err::<Vec<u8>, SigError>(SigError::PurposeContainsNul),
        !has_nul(purpose@) ==> (r matches Ok(m) && m@ == message_for(purpose@, target_bytes@)),
{
    let p = purpose.as_bytes();
    let mut i: usize = 0;
    while i < p.len()
        invariant
            i <= p.len(),
            p@ == encode_utf8(purpose@),
            forall|j: int| 0 <= j < i ==> p@[j] != 0,
        decreases p.len() - i,
    {
        if p[i] == 0 {
            proof {
                assert(p@[i as int] == 0u8);
            }
            return Err(SigError::PurposeContainsNul);
        }
        i = i + 1;
    }
    assert(!p@.contains(0u8));
    let mut message: Vec<u8> = Vec::new();
    let domain: [u8; 10] = [112, 117, 98, 47, 118, 49, 47, 115, 105, 103];
    let mut k: usize = 0;
    while k < 10
        invariant
            k <= 10,
            domain@ == domain_bytes(),
            message@ == domain_bytes().take(k as int),
        decreases 10 - k,
    {
        message.push(domain[k]);
        k = k + 1;
        assert(message@ =~= domain_bytes().take(k as int));
    }
    assert(domain_bytes().take(10) =~= domain_bytes());
    message.push(0);
    append(&mut message, p);
    message.push(0);
    append(&mut message, target_bytes);
    assert(message@ =~= message_for(purpose@, target_bytes@));
    Ok(message)
}

fn append(out: &mut Vec<u8>, bytes: &[u8])
    ensures
        final(out)@ == old(out)@ + bytes@,
{
    let mut i: usize = 0;
    while i < bytes.len()
        invariant
            i <= bytes.len(),
            out@ == old(out)@ + bytes@.take(i as int),
        decreases bytes.len() - i,
    {
        out.push(bytes[i]);
        i = i + 1;
        assert(out@ =~= old(out)@ + bytes@.take(i as int));
    }
    assert(bytes@.take(bytes.len() as int) =~= bytes@);
}

/// Messages for different purposes or targets never coincide: the
/// separator makes the purpose and the target recoverable from the message.
pub proof fn law_messages_unambiguous(p1: Seq<char>, t1: Seq<u8>, p2: Seq<char>, t2: Seq<u8>)
    requires
        !has_nul(p1),
        !has_nul(p2),
        message_for(p1, t1) == message_for(p2, t2),
    ensures
        p1 == p2,
        t1 == t2,
{
    let e1 = encode_utf8(p1);
    let e2 = encode_utf8(p2);
    let m = message_for(p1, t1);
    let x1 = e1 + seq![0u8] + t1;
    let x2 = e2 + seq![0u8] + t2;
    assert(m =~= domain_bytes() + seq![0u8] + x1);
    assert(message_for(p2, t2) =~= domain_bytes() + seq![0u8] + x2);
    assert(x1 =~= m.skip(11));
    assert(x2 =~= m.skip(11));
    if e1.len() < e2.len() {
        assert(x1[e1.len() as int] == 0);
        assert(x2[e1.len() as int] == e2[e1.len() as int]);
        assert(e2.contains(0u8));
    } else if e2.len() < e1.len() {
        assert(x2[e2.len() as int] == 0);
        assert(x1[e2.len() as int] == e1[e2.len() as int]);
        assert(e1.contains(0u8));
    }
    assert(e1 =~= x1.take(e1.len() as int));
    assert(e2 =~= x2.take(e2.len() as int));
    assert(t1 =~= x1.skip((e1.len() + 1) as int));
    assert(t2 =~= x2.skip((e2.len() + 1) as int));
    assert(decode_utf8(e1) == p1);
    assert(decode_utf8(e2) == p2);
}

/// What [`verify`] concludes.
pub enum Verdict {
    PurposeMismatch,
    PurposeContainsNul,
    MalformedKey,
    MalformedSignature,
    BadSignature,
    Verified,
}

/// How [`verify`] decides, given the facts the Ed25519 library supplies.
pub open spec fn verdict_for(
    public_key: Seq<u8>,
    signature: Seq<u8>,
    found: Seq<char>,
    expected: Seq<char>,
    target: Seq<u8>,
) -> Verdict {
    if found != expected {
        Verdict::PurposeMismatch
    } else if has_nul(found) {
        Verdict::PurposeContainsNul
    } else if public_key.len() != 32 || !ed25519_key_valid(public_key) {
        Verdict::MalformedKey
    } else if signature.len() != 64 {
        Verdict::MalformedSignature
    } else if !ed25519_accepts(public_key, message_for(found, target), signature) {
        Verdict::BadSignature
    } else {
        Verdict::Verified
    }
}

/// Verify a detached signature over `target_bytes` for `expected_purpose`.
///
/// `found_purpose` is the purpose recorded in the signature object;
/// `expected_purpose` is what the calling context requires. They must
/// match, and the mismatch is reported before any cryptography is done.
pub fn verify(
    alg: SigAlg,
    public_key: &[u8],
    signature: &[u8],
    found_purpose: &str,
    expected_purpose: &str,
    target_bytes: &[u8],
) -> (r: Result<(), SigError>)
    ensures
        match verdict_for(public_key@, signature@, found_purpose@, expected_purpose@, target_bytes@) {
            Verdict::PurposeMismatch => r matches Err(SigError::PurposeMismatch { found, expected })
                && found@ == found_purpose@ && expected@ == expected_purpose@,
            Verdict::PurposeContainsNul => r == Err::<(), SigError>(SigError::PurposeContainsNul),
            Verdict::MalformedKey => r == Err::<(), SigError>(SigError::MalformedKey),
            Verdict::MalformedSignature => r == Err::<(), SigError>(SigError::MalformedSignature),
            Verdict::BadSignature => r == Err::<(), SigError>(SigError::BadSignature),
            Verdict::Verified => r == Ok::<(), SigError>(()),
        },
{
    if !text_eq(found_purpose, expected_purpose) {
        return Err(
            SigError::PurposeMismatch {
                found: copy_text(found_purpose),
                expected: copy_text(expected_purpose),
            },
        );
    }
    let message = match signing_message(found_purpose, target_bytes) {
        Ok(m) => m,
        Err(e) => return Err(e),
    };
    match alg {
        SigAlg::Ed25519 => {
            if public_key.len() != 32 || !key_decodes(public_key) {
                return Err(SigError::MalformedKey);
            }
            if signature.len() != 64 {
                return Err(SigError::MalformedSignature);
            }
            if ed25519_verify(public_key, message.as_slice(), signature) {
                Ok(())
            } else {
                Err(SigError::BadSignature)
            }
        },
    }
}

} // verus!
