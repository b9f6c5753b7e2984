//! Identifiers, signatures, and canonical encoding.

use ed25519_dalek::{Signer, SigningKey};
use publet::cbor::{decode, decode_with_limit, encode, Value};
use publet::{base32_lower, signing_message, verify, CanonError, Cid, CidError, HashAlg, Object, ObjectError, SigAlg, SigError};

fn rule_for(bytes: &[u8]) -> &'static str {
    decode(bytes).expect_err("expected rejection").rule()
}

fn key() -> SigningKey {
    SigningKey::from_bytes(&[7u8; 32])
}

#[test]
fn round_trips_through_text() {
    let cid = Cid::of(b"hello world", HashAlg::Sha2_256);
    let text = cid.to_string();
    assert_eq!(text.parse::<Cid>().unwrap(), cid);
}

#[test]
fn base32_matches_rfc4648_vectors_lowercased_unpadded() {
    assert_eq!(base32_lower(b"f"), "my");
    assert_eq!(base32_lower(b"fo"), "mzxq");
    assert_eq!(base32_lower(b"foo"), "mzxw6");
    assert_eq!(base32_lower(b"foob"), "mzxw6yq");
    assert_eq!(base32_lower(b"fooba"), "mzxw6ytb");
    assert_eq!(base32_lower(b"foobar"), "mzxw6ytboi");
}

#[test]
fn rejects_malformed_identifiers() {
    assert_eq!("nope".parse::<Cid>(), Err(CidError::MissingScheme));
    assert_eq!("pub:sha2-256".parse::<Cid>(), Err(CidError::Malformed));
    assert!(matches!("pub:md5:aaaa".parse::<Cid>(), Err(CidError::UnknownAlgorithm(_))));
    assert!(matches!("pub:sha2-256:MZXW6".parse::<Cid>(), Err(CidError::InvalidDigest(_))));
    assert!(matches!("pub:sha2-256:mzxw6".parse::<Cid>(), Err(CidError::WrongDigestLength { .. })));
}

#[test]
fn verifies_only_the_bytes_it_names() {
    let cid = Cid::of(b"a", HashAlg::Sha2_256);
    assert!(cid.verifies(b"a"));
    assert!(!cid.verifies(b"b"));
}

#[test]
fn the_text_form_names_the_algorithm_and_digest() {
    let cid = Cid::of(b"", HashAlg::Sha2_256);
    assert_eq!(
        cid.to_string(),
        "pub:sha2-256:4oymiquy7qobjgx36tejs35zeqt24qpemsnzgtfeswmrw6csxbkq"
    );
}

#[test]
fn verifies_a_correct_signature() {
    let sk = key();
    let target = b"canonical bytes";
    let msg = signing_message("endorse", target).unwrap();
    let sig = sk.sign(&msg);
    assert!(verify(
        SigAlg::Ed25519,
        sk.verifying_key().as_bytes(),
        &sig.to_bytes(),
        "endorse",
        "endorse",
        target,
    )
    .is_ok());
}

#[test]
fn rejects_a_signature_replayed_under_another_purpose() {
    let sk = key();
    let target = b"canonical bytes";
    let msg = signing_message("endorse", target).unwrap();
    let sig = sk.sign(&msg);
    assert!(matches!(
        verify(
            SigAlg::Ed25519,
            sk.verifying_key().as_bytes(),
            &sig.to_bytes(),
            "endorse",
            "retract",
            target,
        ),
        Err(SigError::PurposeMismatch { .. })
    ));
    assert!(matches!(
        verify(
            SigAlg::Ed25519,
            sk.verifying_key().as_bytes(),
            &sig.to_bytes(),
            "retract",
            "retract",
            target,
        ),
        Err(SigError::BadSignature)
    ));
}

#[test]
fn rejects_a_signature_over_different_bytes() {
    let sk = key();
    let msg = signing_message("endorse", b"original").unwrap();
    let sig = sk.sign(&msg);
    assert_eq!(
        verify(
            SigAlg::Ed25519,
            sk.verifying_key().as_bytes(),
            &sig.to_bytes(),
            "endorse",
            "endorse",
            b"tampered",
        ),
        Err(SigError::BadSignature)
    );
}

#[test]
fn purposes_cannot_be_made_ambiguous() {
    assert_eq!(signing_message("a\0b", b""), Err(SigError::PurposeContainsNul));
    let x = signing_message("ab", b"c").unwrap();
    let y = signing_message("a", b"bc").unwrap();
    assert_ne!(x, y);
}

#[test]
fn rejects_malformed_inputs() {
    let sk = key();
    assert_eq!(
        verify(SigAlg::Ed25519, b"short", &[0u8; 64], "p", "p", b""),
        Err(SigError::MalformedKey)
    );
    assert_eq!(
        verify(SigAlg::Ed25519, sk.verifying_key().as_bytes(), b"short", "p", "p", b""),
        Err(SigError::MalformedSignature)
    );
}

#[test]
fn the_signing_message_separates_domain_purpose_and_target() {
    let m = signing_message("p", b"xy").unwrap();
    assert_eq!(m, b"pub/v1/sig\0p\0xy".to_vec());
}

#[test]
fn accepts_canonical_forms() {
    assert_eq!(decode(&[0x05]).unwrap(), Value::Uint(5));
    assert_eq!(decode(&[0x18, 0x64]).unwrap(), Value::Uint(100));
    assert_eq!(decode(&[0x20]).unwrap(), Value::Nint(0));
    assert_eq!(decode(&[0xf4]).unwrap(), Value::Bool(false));
    assert_eq!(decode(&[0xf5]).unwrap(), Value::Bool(true));
    assert_eq!(decode(&[0xf6]).unwrap(), Value::Null);
    assert_eq!(decode(&[0x43, 1, 2, 3]).unwrap(), Value::Bytes(vec![1, 2, 3]));
    assert_eq!(decode(b"\x63abc").unwrap(), Value::Text("abc".into()));
}

#[test]
fn rejects_non_shortest_integer() {
    assert_eq!(rule_for(&[0x18, 0x05]), "shortest-form integers");
    assert_eq!(rule_for(&[0x19, 0x00, 0x64]), "shortest-form integers");
    assert_eq!(rule_for(&[0x1b, 0, 0, 0, 0, 0, 0, 0, 0]), "shortest-form integers");
}

#[test]
fn rejects_indefinite_length() {
    assert_eq!(rule_for(&[0x9f, 0x01, 0xff]), "no indefinite length");
    assert_eq!(rule_for(&[0xbf, 0xff]), "no indefinite length");
    assert_eq!(rule_for(&[0x5f, 0xff]), "no indefinite length");
}

#[test]
fn rejects_floats() {
    assert_eq!(rule_for(&[0xf9, 0x3c, 0x00]), "no floating point");
    assert_eq!(rule_for(&[0xfa, 0x3f, 0x80, 0x00, 0x00]), "no floating point");
    assert_eq!(rule_for(&[0xfb, 0x3f, 0xf0, 0, 0, 0, 0, 0, 0]), "no floating point");
}

#[test]
fn rejects_non_text_map_keys() {
    assert_eq!(rule_for(&[0xa1, 0x01, 0x02]), "text map keys");
}

#[test]
fn rejects_unsorted_map_keys() {
    assert_eq!(rule_for(b"\xa2\x61b\x01\x61a\x02"), "sorted map keys");
}

#[test]
fn rejects_duplicate_map_keys() {
    assert_eq!(rule_for(b"\xa2\x61a\x01\x61a\x02"), "unique map keys");
}

#[test]
fn rejects_invalid_utf8() {
    assert_eq!(rule_for(&[0x62, 0xff, 0xfe]), "valid UTF-8");
}

#[test]
fn rejects_non_nfc_text() {
    let mut bytes = vec![0x63];
    bytes.extend_from_slice("e\u{0301}".as_bytes());
    assert_eq!(rule_for(&bytes), "NFC normalization");
    let mut ok = vec![0x62];
    ok.extend_from_slice("\u{00e9}".as_bytes());
    assert_eq!(decode(&ok).unwrap(), Value::Text("é".into()));
}

#[test]
fn rejects_tags() {
    assert_eq!(rule_for(&[0xc0, 0x01]), "supported item types");
}

#[test]
fn rejects_trailing_data() {
    assert_eq!(rule_for(&[0x01, 0x02]), "single top-level item");
}

#[test]
fn rejects_truncated_input() {
    assert_eq!(rule_for(&[0x18]), "complete items");
    assert_eq!(rule_for(&[0x43, 1, 2]), "complete items");
    assert_eq!(rule_for(&[]), "complete items");
}

#[test]
fn rejects_oversized_input() {
    let big = vec![0u8; 64 * 1024 + 1];
    assert_eq!(rule_for(&big), "object size limit");
}

#[test]
fn rejects_deep_nesting() {
    let mut bytes = vec![0x81; 100];
    bytes.push(0x01);
    assert_eq!(rule_for(&bytes), "nesting limit");
}

#[test]
fn round_trips_a_realistic_object() {
    let body = Value::dict_from(vec![
        ("class".to_owned(), Value::Text("empirical".into())),
        ("lang".to_owned(), Value::Text("en".into())),
    ]);
    let value = Value::dict_from(vec![
        ("pub".to_owned(), Value::Text("1".into())),
        ("type".to_owned(), Value::Text("publet".into())),
        ("body".to_owned(), body),
    ]);
    let bytes = encode(&value);
    assert_eq!(decode(&bytes).unwrap(), value);
    assert_eq!(encode(&decode(&bytes).unwrap()), bytes);
}

#[test]
fn encoder_emits_sorted_keys_regardless_of_insertion_order() {
    let m = Value::dict_from(vec![
        ("zebra".to_owned(), Value::Uint(1)),
        ("apple".to_owned(), Value::Uint(2)),
    ]);
    let bytes = encode(&m);
    let apple = bytes.windows(5).position(|w| w == b"apple").unwrap();
    let zebra = bytes.windows(5).position(|w| w == b"zebra").unwrap();
    assert!(apple < zebra, "keys must be emitted in UTF-8 byte order");
    assert!(decode(&bytes).is_ok());
}

#[test]
fn a_later_entry_with_the_same_key_wins() {
    let m = Value::dict_from(vec![
        ("a".to_owned(), Value::Uint(1)),
        ("a".to_owned(), Value::Uint(2)),
    ]);
    assert_eq!(m.get("a"), Some(&Value::Uint(2)));
    assert_eq!(encode(&m), vec![0xa1, 0x61, b'a', 0x02]);
}

#[test]
fn integers_use_the_shortest_head() {
    assert_eq!(encode(&Value::Uint(23)), vec![0x17]);
    assert_eq!(encode(&Value::Uint(24)), vec![0x18, 24]);
    assert_eq!(encode(&Value::Uint(256)), vec![0x19, 1, 0]);
    assert_eq!(encode(&Value::Nint(0)), vec![0x20]);
}

#[test]
fn a_simple_value_in_two_bytes_is_not_shortest() {
    for (arg, _) in [(0x14u8, "false"), (0x15, "true"), (0x16, "null")] {
        assert_eq!(
            decode(&[0xf8, arg]),
            Err(CanonError::NonShortestInteger { offset: 0, value: arg as u64, used: 1 })
        );
    }
    assert_eq!(rule_for(&[0xf8, 0x20]), "supported item types");
    assert_eq!(rule_for(&[0xf8]), "complete items");
}

#[test]
fn floats_are_refused_by_their_initial_byte() {
    assert_eq!(decode(&[0xf9]), Err(CanonError::Float { offset: 0 }));
    assert_eq!(decode(&[0x81, 0xfb]), Err(CanonError::Float { offset: 1 }));
}

#[test]
fn rejections_carry_their_offset() {
    assert_eq!(decode(&[]), Err(CanonError::Truncated { offset: 0, needed: 1 }));
    assert_eq!(
        decode(&[0x19, 0x00, 0x64]),
        Err(CanonError::NonShortestInteger { offset: 0, value: 100, used: 2 })
    );
    assert_eq!(decode(&[0xa1, 0x01, 0x02]), Err(CanonError::NonTextKey { offset: 1 }));
    assert_eq!(
        decode(b"\xa2\x61b\x01\x61a\x02"),
        Err(CanonError::UnsortedKeys { offset: 4, previous: "b".into(), current: "a".into() })
    );
    assert_eq!(
        decode(b"\xa2\x61a\x01\x61a\x02"),
        Err(CanonError::DuplicateKey { offset: 4, key: "a".into() })
    );
    assert_eq!(decode(&[0x9f, 0x01, 0xff]), Err(CanonError::IndefiniteLength { offset: 0 }));
    assert_eq!(decode(&[0x62, 0xff, 0xfe]), Err(CanonError::InvalidUtf8 { offset: 1 }));
}

#[test]
fn the_nesting_limit_names_its_place() {
    assert_eq!(
        decode_with_limit(&[0x81, 0x81, 0x01], 64, 1),
        Err(CanonError::TooDeep { offset: 2, limit: 1 })
    );
    assert_eq!(
        decode_with_limit(&[0x81, 0x81, 0x01], 64, 2),
        Ok(Value::Array(vec![Value::Array(vec![Value::Uint(1)])]))
    );
    assert_eq!(decode_with_limit(&[0x01, 0x02], 1, 64), Err(CanonError::TooLarge { size: 2, limit: 1 }));
    assert_eq!(decode_with_limit(&[0x01, 0x02], 2, 64), Err(CanonError::TrailingData { count: 1 }));
}

#[test]
fn a_parse_refusal_carries_the_decoder_violation() {
    match Object::parse(&[0xf8, 0x14]) {
        Err(ObjectError::Canonical(e)) => {
            assert_eq!(e, CanonError::NonShortestInteger { offset: 0, value: 20, used: 1 })
        }
        _ => panic!("expected a canonical refusal"),
    }
}

#[test]
fn a_map_is_encoded_in_key_order_with_the_last_entry_of_a_key() {
    let unsorted = Value::Dict(vec![
        ("b".to_owned(), Value::Uint(1)),
        ("a".to_owned(), Value::Uint(2)),
        ("b".to_owned(), Value::Uint(3)),
    ]);
    let bytes = encode(&unsorted);
    assert_eq!(bytes, b"\xa2\x61a\x02\x61b\x03".to_vec());
    let back = decode(&bytes).unwrap();
    assert_eq!(
        back,
        Value::Dict(vec![("a".to_owned(), Value::Uint(2)), ("b".to_owned(), Value::Uint(3))])
    );
    assert_eq!(encode(&back), bytes);
}

#[test]
fn nested_maps_are_put_in_order_too() {
    let inner = Value::Dict(vec![("z".to_owned(), Value::Null), ("y".to_owned(), Value::Bool(true))]);
    let outer = Value::Array(vec![inner]);
    assert_eq!(encode(&outer), b"\x81\xa2\x61y\xf5\x61z\xf6".to_vec());
}
