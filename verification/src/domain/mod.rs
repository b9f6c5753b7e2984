//! Domain manifests, generations, deltas, and witnesses.
//!
//! A domain is a bounded, dependency-closed collection retrievable in full.
//! Local-first operation rests on that bound: it is what makes holding a
//! replica affordable.

pub mod delta;
pub mod generation;
pub mod manifest;
pub mod witness;

pub use delta::{checkpoints, fetches_required, DeltaError};
pub use generation::{Generation, GenerationError, Removal, RemovalCause};
pub use manifest::{check_depends_closure, Manifest, ManifestError};
pub use witness::{detect_split_views, SplitView, Witness};
