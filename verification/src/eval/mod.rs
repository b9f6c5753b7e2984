//! Deterministic trust propagation and standing computation.
//!
//! Evaluation is a pure function of its inputs: no clock, no randomness,
//! no I/O. Two conformant implementations given the same policy and the
//! same snapshot compute the same standing.

pub mod fixed;

pub use fixed::{Fixed6, SCALE};
pub mod policy;

pub use policy::{Policy, PolicyError, Root, MAX_ITERATIONS};
pub mod standing;

pub use standing::{evaluate, Assessment, Evidence, Outcome, Reproducibility, Reproductions, Standing};
pub mod wmap;
pub mod propagate;

pub use propagate::{propagate, reachable_within, TrustEdge};
pub mod gather;

pub use gather::{class_of, evidence_for, trust_edges};
pub mod vector;
pub mod index;
pub mod order;

pub use index::index;

pub use propagate::check_propagatable;
pub use standing::check_evaluable;
pub use vector::{check_computable, evaluate_vector, read_edges, read_evidence, read_vector, run_vector, Vector, VectorError};
