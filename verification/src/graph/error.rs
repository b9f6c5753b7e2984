//! Errors raised while typing objects and building the graph.

use vstd::prelude::*;

verus! {

/// A reason an object could not be typed or admitted.
#[derive(Debug, PartialEq, Eq, Clone)]
#[non_exhaustive]
pub enum GraphError {
    /// The object was of a different type than the view expected.
    WrongKind {
        /// The type the view reads.
        expected: &'static str,
        /// The type the object declares.
        found: String,
    },
    /// A required body field was absent.
    MissingField {
        /// The absent field.
        field: &'static str,
    },
    /// A body field had the wrong type or shape.
    BadField {
        /// The offending field.
        field: &'static str,
        /// What the protocol requires.
        expected: &'static str,
    },
    /// The claim class is not one the protocol defines.
    UnknownClass {
        /// The unrecognized identifier.
        found: String,
    },
    /// The principal is not one the protocol defines.
    UnknownPrincipal {
        /// The unrecognized identifier.
        found: String,
    },
    /// An empirical publet named no method.
    EmpiricalWithoutMethod,
    /// The relation kind is not one the protocol defines.
    UnknownKind {
        /// The unrecognized identifier.
        found: String,
    },
    /// An edge of an acyclic kind would close a cycle.
    CycleClosing {
        /// The kind that must stay acyclic.
        kind: &'static str,
        /// The edge's subject.
        from: String,
        /// The edge's object.
        to: String,
    },
    /// A verdict annotation targeted a class that is not truth-apt.
    VerdictOnNonTruthApt {
        /// The offending class.
        class: &'static str,
    },
    /// A verdict on a provenance-only class named another aspect.
    VerdictAspectNotProvenance {
        /// The class whose verdicts are confined to provenance.
        class: &'static str,
        /// The aspect the annotation actually named.
        found: Option<String>,
    },
    /// A `disputes` relation did not name grounds.
    DisputeWithoutGrounds,
    /// A lineage-bound document item did not name the head its author read.
    LineageBindWithoutHead {
        /// The item's reference.
        reference: String,
    },
    /// An anchor recommends an object outside the lineage it names.
    AnchorOutsideLineage {
        /// The recommended object.
        current: String,
        /// The lineage named.
        lineage: String,
    },
    /// An object referenced an identifier the graph does not hold.
    DanglingReference {
        /// The object holding the reference.
        referrer: String,
        /// The identifier it names.
        missing: String,
    },
}

/// A graph error with its texts as character sequences.
pub enum GraphFault {
    WrongKind(Seq<char>, Seq<char>),
    MissingField(Seq<char>),
    BadField(Seq<char>, Seq<char>),
    UnknownClass(Seq<char>),
    UnknownPrincipal(Seq<char>),
    EmpiricalWithoutMethod,
    UnknownKind(Seq<char>),
    CycleClosing(Seq<char>, Seq<char>, Seq<char>),
    VerdictOnNonTruthApt(Seq<char>),
    VerdictAspectNotProvenance(Seq<char>, Option<Seq<char>>),
    DisputeWithoutGrounds,
    LineageBindWithoutHead(Seq<char>),
    AnchorOutsideLineage(Seq<char>, Seq<char>),
    DanglingReference(Seq<char>, Seq<char>),
}

impl View for GraphError {
    type V = GraphFault;

    open spec fn view(&self) -> GraphFault {
        match *self {
            GraphError::WrongKind { expected, found } => GraphFault::WrongKind(expected@, found@),
            GraphError::MissingField { field } => GraphFault::MissingField(field@),
            GraphError::BadField { field, expected } => GraphFault::BadField(field@, expected@),
            GraphError::UnknownClass { found } => GraphFault::UnknownClass(found@),
            GraphError::UnknownPrincipal { found } => GraphFault::UnknownPrincipal(found@),
            GraphError::EmpiricalWithoutMethod => GraphFault::EmpiricalWithoutMethod,
            GraphError::UnknownKind { found } => GraphFault::UnknownKind(found@),
            GraphError::CycleClosing { kind, from, to } => GraphFault::CycleClosing(kind@, from@, to@),
            GraphError::VerdictOnNonTruthApt { class } => GraphFault::VerdictOnNonTruthApt(class@),
            GraphError::VerdictAspectNotProvenance { class, found } => GraphFault::VerdictAspectNotProvenance(
                class@,
                match found {
                    Some(s) => Some(s@),
                    None => None,
                },
            ),
            GraphError::DisputeWithoutGrounds => GraphFault::DisputeWithoutGrounds,
            GraphError::LineageBindWithoutHead { reference } => GraphFault::LineageBindWithoutHead(reference@),
            GraphError::AnchorOutsideLineage { current, lineage } => GraphFault::AnchorOutsideLineage(
                current@,
                lineage@,
            ),
            GraphError::DanglingReference { referrer, missing } => GraphFault::DanglingReference(
                referrer@,
                missing@,
            ),
        }
    }
}

} // verus!
