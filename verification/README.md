# publet

Objects, canonical serialization, content identifiers and signatures,
domains, the object graph and deterministic evaluation for the Publet
Protocol, written in Verus: each function's behaviour is stated in its
`requires` / `ensures` and proved.

## Layout

- `src/cbor/` — the canonical CBOR profile. `scan.rs` states what the
  decoder reads (the value, or the first violation and its offset);
  `laws.rs` holds the round-trip laws; `sort.rs` puts map entries in key
  order for the encoder.
- `src/cid.rs`, `src/sig.rs`, `src/object.rs`, `src/fields.rs` —
  identifiers, signatures, objects and the fields read from them.
- `src/domain/` — generations, manifests, deltas and witnesses.
- `src/graph/` — the object graph: insertion rules, lineage, divergence,
  queries, loading, and personhood attestation.
- `src/eval/` — trust propagation in fixed-point arithmetic, evidence
  gathering, and the standing of a claim.
- `tests/` — the behaviour on concrete inputs.
- `app/` — the command-line tools: argument handling, file I/O and
  printing around the library.

Calls into `sha2`, `ed25519-dalek` and `unicode-normalization`, and a few
into `std`, stand behind small wrappers whose contracts say what those
crates document; every other function is verified.
