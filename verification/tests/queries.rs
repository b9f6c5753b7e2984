//! Annotation queries, terms, forks, equivalence classes, domain closure
//! and loading from a store.

use publet::cbor::Value;
use publet::domain::{check_depends_closure, ManifestError};
use publet::graph::load::{from_files, from_objects, LoadError};
use publet::graph::{Graph, GraphError};
use publet::{Cid, HashAlg, Object};

fn build(kind: &str, author: &str, created: &str, fields: &[(&str, Value)]) -> (Cid, Vec<u8>) {
    let mut builder = Object::builder(kind, author).created(created);
    for (k, v) in fields {
        builder = builder.field(k, v.clone());
    }
    let bytes = builder.build().expect("object builds");
    (Cid::of(&bytes, HashAlg::Sha2_256), bytes)
}

fn author(seed: &str) -> String {
    Cid::of(seed.as_bytes(), HashAlg::Sha2_256).to_string()
}

fn add(graph: &mut Graph, cid: &Cid, bytes: &[u8]) -> Result<(), GraphError> {
    let verified = Object::parse(bytes).unwrap().verify(cid).unwrap();
    graph.insert(cid, verified)
}

fn definition(author_key: &str, created: &str, content: &str, depends: &[&Cid]) -> (Cid, Vec<u8>) {
    let deps = Value::Array(depends.iter().map(|c| Value::Text(c.to_string())).collect());
    build(
        "publet",
        author_key,
        created,
        &[
            ("class", Value::Text("definitional".into())),
            ("lang", Value::Text("en".into())),
            ("content", Value::Text(content.into())),
            ("depends", deps),
        ],
    )
}

fn relation(author_key: &str, created: &str, kind: &str, from: &Cid, to: &Cid) -> (Cid, Vec<u8>) {
    build(
        "rel",
        author_key,
        created,
        &[
            ("kind", Value::Text(kind.into())),
            ("from", Value::Text(from.to_string())),
            ("to", Value::Text(to.to_string())),
        ],
    )
}

fn annotation(author_key: &str, created: &str, kind: &str, target: &Cid, value: Vec<(&str, &str)>) -> (Cid, Vec<u8>) {
    let value = Value::dict_from(
        value
            .into_iter()
            .map(|(k, v)| (k.to_owned(), Value::Text(v.into())))
            .collect(),
    );
    build(
        "ann",
        author_key,
        created,
        &[
            ("kind", Value::Text(kind.into())),
            ("target", Value::Text(target.to_string())),
            ("value", value),
        ],
    )
}

fn document(author_key: &str, created: &str, cites: &[&Cid]) -> (Cid, Vec<u8>) {
    let items: Vec<Value> = cites
        .iter()
        .map(|c| Value::dict_from(vec![("ref".to_owned(), Value::Text(c.to_string()))]))
        .collect();
    let section = Value::dict_from(vec![("items".to_owned(), Value::Array(items))]);
    build(
        "doc",
        author_key,
        created,
        &[
            ("title", Value::Text("a document".into())),
            ("sections", Value::Array(vec![section])),
        ],
    )
}

#[test]
fn classification_is_read_in_both_directions_and_deduplicated() {
    let ka = author("K_a");
    let kb = author("K_b");
    let mut g = Graph::new();
    let (p, pb) = definition(&ka, "2026-09-12T08:00:00Z", "gene: a unit of heredity", &[]);
    let (s, sb) = definition(&ka, "2026-09-12T08:00:01Z", "genetics: the study of heredity", &[]);
    add(&mut g, &p, &pb).unwrap();
    add(&mut g, &s, &sb).unwrap();
    let subject = s.to_string();
    let (c1, c1b) = annotation(&ka, "2026-09-12T09:00:00Z", "classifies", &p, vec![("subject", &subject)]);
    let (c2, c2b) = annotation(&kb, "2026-09-12T09:00:01Z", "classifies", &p, vec![("subject", &subject)]);
    add(&mut g, &c1, &c1b).unwrap();
    add(&mut g, &c2, &c2b).unwrap();

    assert_eq!(g.subjects_of(&p), vec![subject.clone()], "two keys agreeing is one membership");
    assert_eq!(g.classified_under(&s), vec![p.to_string()]);
    assert!(g.subjects_of(&s).is_empty());
    assert!(g.classified_under(&p).is_empty());
}

#[test]
fn usage_citations_are_sorted_and_an_absent_locator_is_empty() {
    let ka = author("K_a");
    let mut g = Graph::new();
    let (d, db) = definition(&ka, "2026-09-12T08:00:00Z", "fitness: reproductive success", &[]);
    add(&mut g, &d, &db).unwrap();
    let (u1, u1b) = annotation(&ka, "2026-09-12T09:00:00Z", "usage", &d, vec![("source", "zeta"), ("locator", "p. 4")]);
    let (u2, u2b) = annotation(&ka, "2026-09-12T09:00:01Z", "usage", &d, vec![("source", "alpha")]);
    let (u3, u3b) = annotation(&ka, "2026-09-12T09:00:02Z", "usage", &d, vec![("locator", "no source")]);
    add(&mut g, &u1, &u1b).unwrap();
    add(&mut g, &u2, &u2b).unwrap();
    add(&mut g, &u3, &u3b).unwrap();

    assert_eq!(
        g.usage_of(&d),
        vec![("alpha".to_owned(), String::new()), ("zeta".to_owned(), "p. 4".to_owned())]
    );
    assert!(g.usage_of(&u1).is_empty());
}

#[test]
fn terms_keep_every_competing_definition() {
    let ka = author("K_a");
    let kb = author("K_b");
    let mut g = Graph::new();
    let (t1, t1b) = definition(&ka, "2026-09-12T08:00:00Z", "theory (mathematics): sentences closed under entailment", &[]);
    let (t2, t2b) = definition(&kb, "2026-09-12T08:00:00Z", "Theory: a conjecture", &[]);
    let (a, ab) = definition(&ka, "2026-09-12T08:00:00Z", "allele: a variant of a gene", &[]);
    add(&mut g, &t1, &t1b).unwrap();
    add(&mut g, &t2, &t2b).unwrap();
    add(&mut g, &a, &ab).unwrap();

    let terms = g.terms();
    let names: Vec<&str> = terms.iter().map(|(t, _)| t.as_str()).collect();
    assert_eq!(names, vec!["allele", "theory", "theory"]);
    assert_eq!(terms[0].1, a);
    let mut theory = vec![t1.to_string(), t2.to_string()];
    theory.sort();
    assert_eq!(vec![terms[1].1.to_string(), terms[2].1.to_string()], theory);
}

#[test]
fn an_undeclared_fork_is_reported_and_a_declared_one_is_not() {
    let ka = author("K_a");
    let kb = author("K_b");
    let mut g = Graph::new();
    let (p1, p1b) = definition(&ka, "2026-09-12T08:00:00Z", "a: first", &[]);
    let (p2, p2b) = definition(&ka, "2026-09-12T08:00:01Z", "b: second", &[]);
    let (p3, p3b) = definition(&ka, "2026-09-12T08:00:02Z", "c: third", &[]);
    for (c, b) in [(&p1, &p1b), (&p2, &p2b), (&p3, &p3b)] {
        add(&mut g, c, b).unwrap();
    }
    let (d1, d1b) = document(&ka, "2026-09-12T09:00:00Z", &[&p1, &p2]);
    let (d2, d2b) = document(&kb, "2026-09-12T09:00:01Z", &[&p1, &p2, &p3]);
    add(&mut g, &d1, &d1b).unwrap();
    add(&mut g, &d2, &d2b).unwrap();

    let forks = g.undeclared_forks(80);
    assert_eq!(forks.len(), 1);
    let (l, r, percent) = &forks[0];
    let mut pair = vec![l.clone(), r.clone()];
    pair.sort();
    let mut expected = vec![d1.to_string(), d2.to_string()];
    expected.sort();
    assert_eq!(pair, expected);
    assert_eq!(*percent, 100, "every citation of the smaller document is shared");
    assert!(g.undeclared_forks(101).is_empty());

    let (rel, relb) = relation(&kb, "2026-09-12T09:05:00Z", "derived-from", &d2, &d1);
    add(&mut g, &rel, &relb).unwrap();
    assert!(g.undeclared_forks(80).is_empty(), "a declared derivation is no fork");
}

#[test]
fn an_equivalence_class_follows_only_trusted_edges() {
    let ka = author("K_a");
    let kb = author("K_b");
    let mut g = Graph::new();
    let (x, xb) = definition(&ka, "2026-09-12T08:00:00Z", "x: one", &[]);
    let (y, yb) = definition(&ka, "2026-09-12T08:00:01Z", "y: two", &[]);
    let (z, zb) = definition(&ka, "2026-09-12T08:00:02Z", "z: three", &[]);
    for (c, b) in [(&x, &xb), (&y, &yb), (&z, &zb)] {
        add(&mut g, c, b).unwrap();
    }
    let (e1, e1b) = relation(&ka, "2026-09-12T09:00:00Z", "equivalent", &x, &y);
    let (e2, e2b) = relation(&kb, "2026-09-12T09:00:01Z", "equivalent", &y, &z);
    add(&mut g, &e1, &e1b).unwrap();
    add(&mut g, &e2, &e2b).unwrap();

    let sorted = |mut v: Vec<Cid>| {
        v.sort_by_key(|c| c.to_string());
        v
    };
    let all = |_: &Cid| true;
    assert_eq!(g.equivalence_class(&z, &all), sorted(vec![x.clone(), y.clone(), z.clone()]));
    let ka_cid: Cid = ka.parse().unwrap();
    let only_a = move |c: &Cid| *c == ka_cid;
    assert_eq!(g.equivalence_class(&x, &only_a), sorted(vec![x.clone(), y.clone()]));
    let none = |_: &Cid| false;
    assert_eq!(g.equivalence_class(&x, &none), vec![x.clone()]);
}

#[test]
fn a_domain_must_hold_its_members_dependencies() {
    let ka = author("K_a");
    let mut g = Graph::new();
    let (base, baseb) = definition(&ka, "2026-09-12T08:00:00Z", "base: one", &[]);
    let (top, topb) = definition(&ka, "2026-09-12T08:00:01Z", "top: two", &[&base]);
    add(&mut g, &base, &baseb).unwrap();
    add(&mut g, &top, &topb).unwrap();

    assert!(check_depends_closure(&g, &vec![top.to_string(), base.to_string()]).is_ok());
    match check_depends_closure(&g, &vec![top.to_string()]) {
        Err(ManifestError::NotClosed { cid }) => assert_eq!(cid, base.to_string()),
        other => panic!("expected NotClosed, got {other:?}"),
    }
}

#[test]
fn loading_refuses_a_corrupted_file_by_name() {
    let ka = author("K_a");
    let (a, ab) = definition(&ka, "2026-09-12T08:00:00Z", "a: one", &[]);
    let (b, bb) = definition(&ka, "2026-09-12T08:00:01Z", "b: two", &[&a]);

    let g = from_files(vec![("b.pub".to_owned(), bb.clone()), ("a.pub".to_owned(), ab.clone())]).unwrap();
    assert!(g.object(&a).is_some());
    assert!(g.object(&b).is_some());

    let g = from_objects(vec![(a.clone(), ab.clone())]).unwrap();
    assert!(g.object(&a).is_some());

    match from_objects(vec![(b.clone(), ab.clone())]) {
        Err(LoadError::Object(name, _)) => assert_eq!(name, b.to_string()),
        other => panic!("expected an object error, got {:?}", other.map(|_| ())),
    }
    let mut broken = ab.clone();
    broken.push(0);
    match from_files(vec![("a.pub".to_owned(), ab), ("broken.pub".to_owned(), broken)]) {
        Err(LoadError::Object(name, _)) => assert_eq!(name, "broken.pub"),
        other => panic!("expected an object error, got {:?}", other.map(|_| ())),
    }
}

#[test]
fn only_disputed_definitions_are_contested() {
    let ka = author("K_a");
    let kb = author("K_b");
    let mut g = Graph::new();
    let (t1, t1b) = definition(&ka, "2026-09-12T08:00:00Z", "theory: a conjecture", &[]);
    let (a1, a1b) = definition(&ka, "2026-09-12T08:00:01Z", "allele: a variant", &[]);
    let (grounds, groundsb) = definition(&kb, "2026-09-12T08:30:00Z", "conjecture: not what theory means", &[]);
    for (c, b) in [(&t1, &t1b), (&a1, &a1b), (&grounds, &groundsb)] {
        add(&mut g, c, b).unwrap();
    }
    assert!(g.contested_terms().is_empty());
    let (d, db) = relation(&kb, "2026-09-12T08:30:01Z", "disputes", &grounds, &t1);
    add(&mut g, &d, &db).unwrap();
    assert_eq!(g.contested_terms(), vec![("theory".to_owned(), t1.clone())]);
}

#[test]
fn a_listing_filters_by_type_and_class() {
    let ka = author("K_a");
    let mut g = Graph::new();
    let (d, db) = definition(&ka, "2026-09-12T08:00:00Z", "gene: a unit", &[]);
    let (e, eb) = definition(&ka, "2026-09-12T08:00:01Z", "allele: a variant", &[]);
    let (r, rb) = relation(&ka, "2026-09-12T08:00:02Z", "equivalent", &d, &e);
    for (c, b) in [(&d, &db), (&e, &eb), (&r, &rb)] {
        add(&mut g, c, b).unwrap();
    }
    let mut all = vec![d.to_string(), e.to_string(), r.to_string()];
    all.sort();
    assert_eq!(g.list(None, None), all);
    assert_eq!(g.list(Some("rel"), None), vec![r.to_string()]);
    let mut defs = vec![d.to_string(), e.to_string()];
    defs.sort();
    assert_eq!(g.list(Some("publet"), Some(publet::graph::Class::Definitional)), defs);
    assert!(g.list(None, Some(publet::graph::Class::Formal)).is_empty());
}
