//! The object graph: typed views, edge indices, lineage, dependency
//! closures, and equivalence classes.
//!
//! The graph answers structural questions over a set of verified objects
//! and makes no judgements: whose assertions count is a viewpoint
//! question. Where a computation needs that input, the predicate is a
//! parameter rather than an assumption.

pub mod error;
pub mod view;
pub mod table;
pub mod closure;
pub mod graph;
pub mod assumption;
pub mod document;
pub mod personhood;
pub mod lineage;
pub mod load;
pub mod pairs;
pub mod queries;
pub mod divergence;

pub use assumption::{Assumption, Basis, Triage};
pub use error::GraphError;
pub use divergence::{compare, Divergence, TermConflict};
pub use graph::{Graph, Lineage};
pub use lineage::LineageView;
pub use document::{Anchor, Bind, Document, Item, Role};
pub use view::{Annotation, Class, Key, Principal, Publet, Relation, RelationKind};
