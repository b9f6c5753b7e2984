//! Generation validity, checkpoint bounds, manifests, and witnesses.

use publet::cbor::Value;
use publet::domain::{
    checkpoints, fetches_required, Generation, GenerationError, Manifest, ManifestError, RemovalCause,
};
use publet::{Cid, HashAlg, Object};

fn cid(seed: &str) -> Cid {
    Cid::of(seed.as_bytes(), HashAlg::Sha2_256)
}

fn arr(items: Vec<Value>) -> Value {
    Value::Array(items)
}

fn removal(member: &Cid, cause: &str, reference: Option<&Cid>) -> Value {
    let mut entries = vec![
        ("cid".to_owned(), Value::Text(member.to_string())),
        ("cause".to_owned(), Value::Text(cause.to_owned())),
    ];
    if let Some(r) = reference {
        entries.push(("ref".to_owned(), Value::Text(r.to_string())));
    }
    Value::dict_from(entries)
}

fn generation_object(
    index: u64,
    snapshot: &Cid,
    added: &[&Cid],
    removed: Vec<Value>,
    parent: Option<&Cid>,
) -> Object {
    let mut builder = Object::builder("generation", &cid("author").to_string())
        .created("2026-09-12T10:00:00Z")
        .field("domain", Value::Text(cid("domain").to_string()))
        .field("index", Value::Uint(index))
        .field("snapshot", Value::Text(snapshot.to_string()))
        .field("added", arr(added.iter().map(|c| Value::Text(c.to_string())).collect()))
        .field("removed", arr(removed));
    if let Some(p) = parent {
        builder = builder.field("parent", Value::Text(p.to_string()));
    }
    let bytes = builder.build().unwrap();
    let id = Cid::of(&bytes, HashAlg::Sha2_256);
    Object::parse(&bytes).unwrap().verify(&id).unwrap().into_inner()
}

#[test]
fn a_removal_without_a_reference_is_rejected() {
    let member = cid("departing");
    let object = generation_object(
        1,
        &cid("snapshot"),
        &[],
        vec![removal(&member, "tombstone", None)],
        Some(&cid("parent")),
    );
    let err = Generation::from_object(&object).unwrap_err();
    assert!(matches!(err, GenerationError::UnaccountedRemoval { .. }), "got {err:?}");
}

#[test]
fn a_removal_with_a_reference_is_accepted() {
    let member = cid("departing");
    let object = generation_object(
        1,
        &cid("snapshot"),
        &[],
        vec![removal(&member, "tombstone", Some(&cid("the tombstone")))],
        Some(&cid("parent")),
    );
    let generation = Generation::from_object(&object).unwrap();
    assert_eq!(generation.removed.len(), 1);
    assert_eq!(generation.removed[0].cause, RemovalCause::Tombstone);
}

#[test]
fn an_unknown_removal_cause_is_rejected() {
    let member = cid("departing");
    let object = generation_object(
        1,
        &cid("snapshot"),
        &[],
        vec![removal(&member, "because-i-felt-like-it", Some(&cid("x")))],
        Some(&cid("parent")),
    );
    assert!(matches!(
        Generation::from_object(&object).unwrap_err(),
        GenerationError::UnknownCause { .. }
    ));
}

#[test]
fn indices_must_advance_by_exactly_one() {
    let first =
        Generation::from_object(&generation_object(1, &cid("s1"), &[], vec![], Some(&cid("p")))).unwrap();
    let skipped =
        Generation::from_object(&generation_object(3, &cid("s3"), &[], vec![], Some(&cid("p")))).unwrap();
    assert!(matches!(skipped.follows(&first).unwrap_err(), GenerationError::IndexGap { .. }));
}

#[test]
fn the_next_index_follows() {
    let first =
        Generation::from_object(&generation_object(1, &cid("s1"), &[], vec![], Some(&cid("p")))).unwrap();
    let next =
        Generation::from_object(&generation_object(2, &cid("s2"), &[], vec![], Some(&cid("p")))).unwrap();
    assert!(next.follows(&first).is_ok());
}

#[test]
fn a_client_far_behind_syncs_in_logarithmic_fetches() {
    let fetches = fetches_required(0, 300);
    assert!(fetches <= 9, "300 generations took {fetches} fetches");
    for distance in [1u64, 7, 64, 300, 1000, 100_000] {
        let n = fetches_required(0, distance);
        let bound = u64::BITS - distance.leading_zeros();
        assert!(
            u64::from(n) <= u64::from(bound),
            "distance {distance} took {n} fetches, above log2 bound {bound}"
        );
    }
}

#[test]
fn fetches_count_the_set_bits_of_the_distance() {
    assert_eq!(fetches_required(0, 300), 4);
    assert_eq!(fetches_required(5, 5), 0);
    assert_eq!(fetches_required(9, 3), 0);
    assert_eq!(fetches_required(1, 8), 3);
}

#[test]
fn checkpoints_are_exponentially_spaced() {
    let points = checkpoints(100);
    assert!(points.contains(&99));
    assert!(points.contains(&98));
    assert!(points.contains(&96));
    assert!(points.contains(&92));
    assert!(points.contains(&36));
    assert!(points.len() < 10, "checkpoints must be sparse: {points:?}");
}

#[test]
fn a_domain_over_its_bound_is_rejected() {
    let bytes = Object::builder("domain", &cid("author").to_string())
        .created("2026-09-12T10:00:00Z")
        .field("label", Value::Text("physics".into()))
        .field("snapshot", Value::Text(cid("s").to_string()))
        .field("bound", Value::Uint(1000))
        .field("size", Value::Uint(2000))
        .build()
        .unwrap();
    let id = Cid::of(&bytes, HashAlg::Sha2_256);
    let object = Object::parse(&bytes).unwrap().verify(&id).unwrap();
    assert!(matches!(
        Manifest::from_object(object.object()).unwrap_err(),
        ManifestError::OverBound { .. }
    ));
}

#[test]
fn a_domain_within_its_bound_is_accepted() {
    let bytes = Object::builder("domain", &cid("author").to_string())
        .created("2026-09-12T10:00:00Z")
        .field("label", Value::Text("physics".into()))
        .field("snapshot", Value::Text(cid("s").to_string()))
        .field("bound", Value::Uint(10_000))
        .field("size", Value::Uint(2000))
        .field("closed_under", arr(vec![Value::Text("depends".into())]))
        .build()
        .unwrap();
    let id = Cid::of(&bytes, HashAlg::Sha2_256);
    let object = Object::parse(&bytes).unwrap().verify(&id).unwrap();
    let manifest = Manifest::from_object(object.object()).unwrap();
    assert!(manifest.claims_depends_closure());
}

#[test]
fn a_domain_without_a_size_is_refused() {
    let bytes = Object::builder("domain", &cid("author").to_string())
        .created("2026-09-12T10:00:00Z")
        .field("label", Value::Text("physics".into()))
        .field("snapshot", Value::Text(cid("s").to_string()))
        .field("bound", Value::Uint(10_000))
        .build()
        .unwrap();
    let id = Cid::of(&bytes, HashAlg::Sha2_256);
    let object = Object::parse(&bytes).unwrap().verify(&id).unwrap();
    assert!(matches!(
        Manifest::from_object(object.object()).unwrap_err(),
        ManifestError::MissingField { field: "size" }
    ));
}

#[test]
fn checkpoints_reach_the_largest_head() {
    let points = checkpoints(u64::MAX);
    assert_eq!(points.len(), 64);
    assert_eq!(points[0], u64::MAX - (1u64 << 63));
    assert_eq!(points[63], u64::MAX - 1);
    assert!(points.windows(2).all(|w| w[0] < w[1]));
}
