//! Assumed accountability and triage: bearing on the graph without
//! authority in it.

use publet::cbor::Value;
use publet::eval::evidence_for;
use publet::graph::{Assumption, Basis, Graph, Triage};
use publet::{Cid, HashAlg, Object};

fn cid(seed: &str) -> Cid {
    Cid::of(seed.as_bytes(), HashAlg::Sha2_256)
}

fn map(pairs: &[(&str, Value)]) -> Value {
    Value::dict_from(pairs.iter().map(|(k, v)| ((*k).to_owned(), v.clone())).collect())
}

fn build(kind: &str, author: &Cid, fields: &[(&str, Value)]) -> (Cid, Vec<u8>) {
    let mut builder = Object::builder(kind, &author.to_string()).created("2026-09-12T10:00:00Z");
    for (k, v) in fields {
        builder = builder.field(k, v.clone());
    }
    let bytes = builder.build().unwrap();
    (Cid::of(&bytes, HashAlg::Sha2_256), bytes)
}

fn add(graph: &mut Graph, cid: &Cid, bytes: &[u8]) {
    let verified = Object::parse(bytes).unwrap().verify(cid).unwrap();
    graph.insert(cid, verified).unwrap();
}

fn assumption_object(assumer: &Cid, pseudonym: &Cid) -> (Cid, Vec<u8>) {
    build(
        "ann",
        assumer,
        &[
            ("kind", Value::Text("assumes-accountability".into())),
            ("target", Value::Text(pseudonym.to_string())),
            ("value", map(&[("basis", Value::Text("work-reviewed-by-me".into()))])),
        ],
    )
}

#[test]
fn an_assumption_is_not_authorship() {
    let assumer = cid("a named researcher");
    let pseudonym = cid("a pseudonymous key");
    let (id, bytes) = assumption_object(&assumer, &pseudonym);
    let verified = Object::parse(&bytes).unwrap().verify(&id).unwrap();

    let assumption = Assumption::from_object(verified.object()).unwrap();
    assert_eq!(assumption.assumer, assumer);
    assert_eq!(assumption.assumed, pseudonym);
    assert_eq!(assumption.basis, Basis::WorkReviewedByMe);

    // The record names two keys and a basis, and nothing else: this
    // pattern names every field, so a field holding who is behind the
    // assumed key could not be added without this test failing to build.
    let Assumption { assumer: first, assumed: second, basis } = assumption;
    assert_ne!(first, second);
    assert_eq!(basis.id(), "work-reviewed-by-me");
}

#[test]
fn assumptions_are_counted() {
    let assumer = cid("an assumer");
    let mut graph = Graph::new();
    for n in 0..3 {
        let pseudonym = cid(&format!("pseudonym {n}"));
        let (id, bytes) = assumption_object(&assumer, &pseudonym);
        add(&mut graph, &id, &bytes);
    }
    assert_eq!(graph.assumptions_by(&assumer).len(), 3);
    assert!(graph.assumptions_by(&cid("someone else")).is_empty());
}

#[test]
fn triage_is_read_by_nothing_that_computes() {
    // Advisory by construction: the evidence gathered for a claim is the
    // same whether or not a triage annotation judges its dispute, so triage
    // cannot suppress, hide, or zero-weight anything.
    let author = cid("K_a");
    let critic = cid("K_b");
    let operator = cid("an operator");
    let (claim, claim_bytes) = build(
        "publet",
        &author,
        &[
            ("class", Value::Text("formal".into())),
            ("lang", Value::Text("en".into())),
            ("content", Value::Text("a claim".into())),
        ],
    );
    let (grounds, grounds_bytes) = build(
        "publet",
        &critic,
        &[
            ("class", Value::Text("formal".into())),
            ("lang", Value::Text("en".into())),
            ("content", Value::Text("the step fails".into())),
        ],
    );
    let (dispute, dispute_bytes) = build(
        "rel",
        &critic,
        &[
            ("kind", Value::Text("disputes".into())),
            ("from", Value::Text(grounds.to_string())),
            ("to", Value::Text(claim.to_string())),
        ],
    );
    let (affirm, affirm_bytes) = build(
        "ann",
        &author,
        &[
            ("kind", Value::Text("verdict".into())),
            ("target", Value::Text(claim.to_string())),
            ("value", map(&[("finding", Value::Text("affirm".into()))])),
        ],
    );
    let (triage, triage_bytes) = build(
        "ann",
        &operator,
        &[
            ("kind", Value::Text("triage".into())),
            ("target", Value::Text(dispute.to_string())),
            (
                "value",
                map(&[
                    ("finding", Value::Text("redundant-with".into())),
                    (
                        "engine",
                        map(&[
                            ("model", Value::Text("a-model".into())),
                            ("version", Value::Text("2026-09".into())),
                        ]),
                    ),
                ]),
            ),
        ],
    );
    let mut without = Graph::new();
    let mut with = Graph::new();
    for (id, bytes) in [
        (&claim, &claim_bytes),
        (&grounds, &grounds_bytes),
        (&dispute, &dispute_bytes),
        (&affirm, &affirm_bytes),
    ] {
        add(&mut without, id, bytes);
        add(&mut with, id, bytes);
    }
    add(&mut with, &triage, &triage_bytes);
    assert_eq!(with.triage_of(&dispute).len(), 1);

    let a = evidence_for(&without, &claim);
    let b = evidence_for(&with, &claim);
    assert_eq!(a.affirm, b.affirm);
    assert_eq!(a.deny, b.deny);
    assert_eq!(a.abstain, b.abstain);
    assert_eq!(a.argued_disputes, b.argued_disputes);
    assert_eq!(b.argued_disputes, vec![critic.to_string()]);
    assert_eq!(a.proof_checked, b.proof_checked);
    assert_eq!(a.reproductions, b.reproductions);
    assert_eq!(a.retracted, b.retracted);
    assert_eq!(a.usage, b.usage);
}

#[test]
fn a_triage_annotation_without_its_engine_is_not_read() {
    let author = cid("an operator");
    let target = cid("a dispute");
    let (id, bytes) = build(
        "ann",
        &author,
        &[
            ("kind", Value::Text("triage".into())),
            ("target", Value::Text(target.to_string())),
            ("value", map(&[("finding", Value::Text("redundant-with".into()))])),
        ],
    );
    let verified = Object::parse(&bytes).unwrap().verify(&id).unwrap();
    assert!(Triage::from_object(verified.object()).is_none());

    let (id, bytes) = build(
        "ann",
        &author,
        &[
            ("kind", Value::Text("triage".into())),
            ("target", Value::Text(target.to_string())),
            (
                "value",
                map(&[
                    ("finding", Value::Text("redundant-with".into())),
                    (
                        "engine",
                        map(&[
                            ("model", Value::Text("a-model".into())),
                            ("version", Value::Text("2026-09".into())),
                        ]),
                    ),
                ]),
            ),
        ],
    );
    let verified = Object::parse(&bytes).unwrap().verify(&id).unwrap();
    let triage = Triage::from_object(verified.object()).unwrap();
    assert_eq!(triage.engine, "a-model 2026-09");
}
