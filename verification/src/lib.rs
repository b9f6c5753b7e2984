//! Objects, canonical serialization, content identifiers and signatures,
//! domains, the object graph, and deterministic evaluation for the Publet
//! Protocol.

pub mod cbor;
pub mod text;
mod error;
pub mod cid;
pub mod sig;
pub mod object;
pub mod fields;
pub mod domain;
pub mod eval;
pub mod graph;

pub use cid::{base32_lower, Cid, CidError, HashAlg};
pub use object::{Builder, Object, ObjectError, Unverified, Verified};
pub use sig::{signing_message, verify, SigAlg, SigError};

pub use error::{CanonError, Fault};

pub use cbor::Value;
