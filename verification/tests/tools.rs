//! Evaluation vectors, the index, hexadecimal, escaping and the
//! demonstration personhood schemes.

use publet::cbor::{encode, Value};
use publet::eval::{
    check_computable, evaluate, evaluate_vector, index, propagate, read_vector, run_vector, Evidence, Fixed6,
    Outcome, Policy, Reproducibility, Root, TrustEdge, VectorError,
};
use publet::graph::personhood::{demo, Anonymity, Attestation, Nullifier, Registry, Scheme, SchemeError};
use publet::graph::{Class, Graph, GraphError};
use publet::text::{escape_json, escape_quotes, from_hex, to_hex};
use publet::{Cid, HashAlg, Object, ObjectError};

fn key(name: &str) -> String {
    Cid::of(name.as_bytes(), HashAlg::Sha2_256).to_string()
}

fn texts(items: &[&str]) -> Value {
    Value::Array(items.iter().map(|s| Value::Text((*s).to_owned())).collect())
}

fn policy_object(root: &str) -> Vec<u8> {
    let roots = Value::Array(vec![Value::dict_from(vec![
        ("key".to_owned(), Value::Text(key(root))),
        ("weight".to_owned(), Value::Uint(1000)),
    ])]);
    Object::builder("policy", &key("K_policy"))
        .created("2026-09-12T08:00:00Z")
        .field("roots", roots)
        .field("iterations", Value::Uint(20))
        .field("damping", Value::Uint(850_000))
        .field("tau", Value::Uint(660_000))
        .field("delta_max", Value::Uint(290_000))
        .field("replication_floor", Value::Uint(2))
        .field("independence_distance", Value::Uint(2))
        .build()
        .expect("policy object builds")
}

fn edge(from: &str, to: &str, weight: u64) -> Value {
    Value::dict_from(vec![
        ("from".to_owned(), Value::Text(key(from))),
        ("to".to_owned(), Value::Text(key(to))),
        ("weight".to_owned(), Value::Uint(weight)),
    ])
}

fn vector(fields: Vec<(&str, Value)>) -> Vec<u8> {
    encode(&Value::dict_from(fields.into_iter().map(|(k, v)| (k.to_owned(), v)).collect()))
}

fn policy(root: &str) -> Policy {
    Policy {
        roots: vec![Root { key: key(root).parse().unwrap(), weight: Fixed6::from_integer(1000) }],
        damping: Fixed6::from_scaled(850_000),
        iterations: 20,
        tau: Fixed6::from_scaled(660_000),
        delta_max: Fixed6::from_scaled(290_000),
        replication_floor: 2,
        independence_distance: 2,
        decay_half_life_days: None,
        use_equivalence: true,
    }
}

#[test]
fn a_vector_evaluates_as_its_parts_do() {
    let bytes = vector(vec![
        ("policy", Value::Bytes(policy_object("root"))),
        ("edges", Value::Array(vec![edge("root", "a", 1), edge("root", "b", 3)])),
        ("class", Value::Text("empirical".into())),
        ("affirm", texts(&[&key("a"), &key("a")])),
        ("deny", texts(&[&key("b")])),
        ("reproducibility", Value::Text("unique-event".into())),
    ]);
    let v = read_vector(&bytes).unwrap();
    assert_eq!(v.class, Class::Empirical);
    assert_eq!(v.edges.len(), 2);
    assert_eq!(v.edges[1].weight, Fixed6::from_integer(3));
    assert_eq!(v.evidence.affirm, vec![key("a")], "a repeated key is one key");
    assert_eq!(v.evidence.reproducibility, Reproducibility::UniqueEvent);
    assert!(check_computable(&v));

    let p = policy("root");
    let edges = vec![
        TrustEdge { from: key("root"), to: key("a"), weight: Fixed6::from_integer(1), age_days: 0 },
        TrustEdge { from: key("root"), to: key("b"), weight: Fixed6::from_integer(3), age_days: 0 },
    ];
    let weights = propagate(&p, &edges);
    let evidence = Evidence {
        affirm: vec![key("a")],
        deny: vec![key("b")],
        reproducibility: Reproducibility::UniqueEvent,
        ..Evidence::default()
    };
    let direct = evaluate(&p, Class::Empirical, &evidence, &weights);
    let standing = evaluate_vector(&v);
    assert_eq!(standing, direct);
    assert_eq!(run_vector(&bytes).unwrap(), direct);
    assert!(standing.deny_weight.to_scaled() > standing.affirm_weight.to_scaled());
}

#[test]
fn a_vector_without_votes_is_undetermined() {
    let bytes = vector(vec![
        ("policy", Value::Bytes(policy_object("root"))),
        ("class", Value::Text("empirical".into())),
    ]);
    let s = run_vector(&bytes).unwrap();
    assert_eq!(s.result, Outcome::Undetermined);
    assert_eq!(s.affirm_weight, Fixed6::zero());
    assert_eq!(s.active_weight, Fixed6::zero());
}

#[test]
fn a_checked_proof_settles_a_formal_vector() {
    let bytes = vector(vec![
        ("policy", Value::Bytes(policy_object("root"))),
        ("class", Value::Text("formal".into())),
        ("proof_checked", Value::Bool(true)),
        ("deny", texts(&[&key("root")])),
    ]);
    assert_eq!(run_vector(&bytes).unwrap().result, Outcome::Accepted);
}

#[test]
fn each_vector_fault_is_named() {
    let policy = Value::Bytes(policy_object("root"));
    let class = Value::Text("empirical".into());

    assert!(matches!(read_vector(&[0xff]), Err(VectorError::Canonical(_))));
    assert!(matches!(
        read_vector(&vector(vec![("class", class.clone())])),
        Err(VectorError::MissingPolicy)
    ));
    assert!(matches!(
        read_vector(&vector(vec![("policy", Value::Bytes(vec![1, 2])), ("class", class.clone())])),
        Err(VectorError::PolicyObject(ObjectError::Canonical(_)))
    ));
    let not_a_policy = Object::builder("policy", &key("K")).created("2026-09-12T08:00:00Z").build().unwrap();
    assert!(matches!(
        read_vector(&vector(vec![("policy", Value::Bytes(not_a_policy)), ("class", class.clone())])),
        Err(VectorError::Policy(_))
    ));
    let half_edge = Value::dict_from(vec![("from".to_owned(), Value::Text(key("a")))]);
    match read_vector(&vector(vec![
        ("policy", policy.clone()),
        ("edges", Value::Array(vec![edge("a", "b", 1), half_edge])),
        ("class", class.clone()),
    ])) {
        Err(VectorError::MissingEdgeField { field }) => assert_eq!(field, "to"),
        other => panic!("expected a missing endpoint, got {other:?}"),
    }
    assert!(matches!(read_vector(&vector(vec![("policy", policy.clone())])), Err(VectorError::MissingClass)));
    match read_vector(&vector(vec![("policy", policy), ("class", Value::Text("gossip".into()))])) {
        Err(VectorError::UnknownClass(c)) => assert_eq!(c, "gossip"),
        other => panic!("expected an unknown class, got {other:?}"),
    }
}

/// Build an object and return it with its identifier.
fn build(kind: &str, author: &str, created: &str, fields: &[(&str, Value)]) -> (Cid, Vec<u8>) {
    let mut builder = Object::builder(kind, author).created(created);
    for (k, v) in fields {
        builder = builder.field(k, v.clone());
    }
    let bytes = builder.build().expect("object builds");
    (Cid::of(&bytes, HashAlg::Sha2_256), bytes)
}

fn add(graph: &mut Graph, cid: &Cid, bytes: &[u8]) -> Result<(), GraphError> {
    let verified = Object::parse(bytes).unwrap().verify(cid).unwrap();
    graph.insert(cid, verified)
}

fn claim(author: &str, created: &str, class: &str, content: &str) -> (Cid, Vec<u8>) {
    build(
        "publet",
        author,
        created,
        &[
            ("class", Value::Text(class.into())),
            ("lang", Value::Text("en".into())),
            ("content", Value::Text(content.into())),
            ("depends", Value::Array(vec![])),
        ],
    )
}

fn verdict(author: &str, created: &str, target: &Cid, finding: &str) -> (Cid, Vec<u8>) {
    build(
        "ann",
        author,
        created,
        &[
            ("kind", Value::Text("verdict".into())),
            ("target", Value::Text(target.to_string())),
            ("value", Value::dict_from(vec![("finding".to_owned(), Value::Text(finding.into()))])),
        ],
    )
}

#[test]
fn the_index_ranks_by_affirming_weight_then_identifier() {
    let root = key("root");
    let mut g = Graph::new();
    let (d1, d1b) = claim(&root, "2026-09-12T08:00:00Z", "formal", "x holds");
    let (d2, d2b) = claim(&root, "2026-09-12T08:00:01Z", "formal", "y holds");
    let (n1, n1b) = claim(&root, "2026-09-12T08:00:02Z", "normative", "one ought to");
    for (c, b) in [(&d1, &d1b), (&d2, &d2b), (&n1, &n1b)] {
        add(&mut g, c, b).unwrap();
    }
    let (v, vb) = verdict(&root, "2026-09-12T09:00:00Z", &d2, "affirm");
    add(&mut g, &v, &vb).unwrap();

    let rows = index(&g, &policy("root"), None).unwrap();
    let listed: Vec<String> = rows.iter().map(|r| r.0.clone()).collect();
    let mut rest = vec![d1.to_string(), n1.to_string()];
    rest.sort();
    assert_eq!(listed, vec![d2.to_string(), rest[0].clone(), rest[1].clone()]);
    assert!(rows[0].2.affirm_weight.to_scaled() > 0, "the root's own verdict carries its weight");
    assert_eq!(rows[1].2.affirm_weight, Fixed6::zero());

    let only = index(&g, &policy("root"), Some("normative")).unwrap();
    assert_eq!(only.len(), 1);
    assert_eq!(only[0].0, n1.to_string());
    assert_eq!(only[0].1, Class::Normative);
    assert!(index(&g, &policy("root"), Some("no such class")).unwrap().is_empty());
}

#[test]
fn hexadecimal_reads_as_from_str_radix_does() {
    assert_eq!(from_hex(""), Some(vec![]));
    assert_eq!(from_hex("00ff7A"), Some(vec![0x00, 0xff, 0x7a]));
    assert_eq!(from_hex("+f"), Some(vec![0x0f]));
    assert_eq!(from_hex("abc"), None);
    assert_eq!(from_hex("zz"), None);
    assert_eq!(from_hex("-1"), None);
    assert_eq!(from_hex("é0"), None);
    assert_eq!(to_hex(&[0x00, 0xab, 0x10, 0xff]), "00ab10ff");
    assert_eq!(from_hex(&to_hex(&[1, 2, 254])), Some(vec![1, 2, 254]));
}

#[test]
fn escaping_covers_quotes_backslashes_and_line_feeds() {
    assert_eq!(escape_json("a\"b\\c\nd"), "a\\\"b\\\\c\\nd");
    assert_eq!(escape_quotes("a\"b\\c\nd"), "a\\\"b\\\\c\nd");
    assert_eq!(escape_json("théorie"), "théorie");
}

#[test]
fn the_demonstration_schemes_claim_different_anonymity() {
    let unlinkable = demo("demo-unlinkable").unwrap();
    let linkable = demo("demo-issuer-linkable").unwrap();
    assert!(demo("real-scheme").is_none());
    assert_eq!(unlinkable.id(), "demo-unlinkable");
    assert!(!unlinkable.anonymity().issuer_can_link);
    assert!(linkable.anonymity().issuer_can_link);
    assert!(linkable.anonymity().revocation_leaks_linkage);
    let issuers = Cid::of(b"issuers", HashAlg::Sha2_256);
    assert_eq!(unlinkable.verify(b"proof", &issuers, "scope").unwrap().0, b"proof".to_vec());
    assert!(matches!(unlinkable.verify(b"", &issuers, "scope"), Err(SchemeError::BadProof { .. })));
}

#[test]
fn a_registry_of_the_demonstration_schemes_answers_as_they_do() {
    let mut registry = Registry::new();
    registry.register(Box::new(demo("demo-unlinkable").unwrap()));
    assert!(!registry.meets_scheme_minimum());
    registry.register(Box::new(demo("demo-issuer-linkable").unwrap()));
    assert!(registry.meets_scheme_minimum());
    assert_eq!(registry.schemes(), vec!["demo-issuer-linkable", "demo-unlinkable"]);
    let att = |subject: &str, proof: &[u8]| Attestation {
        subject: Cid::of(subject.as_bytes(), HashAlg::Sha2_256),
        scheme: "demo-unlinkable".to_owned(),
        issuer_set: Cid::of(b"issuers", HashAlg::Sha2_256),
        scope: "physics".to_owned(),
        nullifier: Nullifier(proof.to_vec()),
        proof: proof.to_vec(),
        anonymity: Anonymity {
            unlinkable_across_scopes: true,
            issuer_can_link: false,
            revocation_leaks_linkage: false,
        },
    };
    match registry.verify(&att("key A", b"")) {
        Err(SchemeError::BadProof { issuer_set }) => {
            assert_eq!(issuer_set, "a demonstration scheme requires a non-empty proof")
        }
        _ => panic!("an empty proof is refused by the scheme"),
    }
    assert_eq!(registry.verify(&att("key A", b"p")).unwrap(), "demo-unlinkable");
    assert!(matches!(
        registry.verify(&att("key B", b"p")),
        Err(SchemeError::NullifierReused { .. })
    ));
}
