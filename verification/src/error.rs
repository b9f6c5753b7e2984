//! The ways in which bytes fail the canonical serialization profile.

use vstd::prelude::*;

verus! {

/// A way in which bytes failed the canonical serialization profile.
///
/// An implementation must *reject* non-canonical bytes
/// rather than repair them, so every variant here is a hard failure. The
/// variants are distinct because tools name the violated rule.
#[derive(Debug, PartialEq, Eq, Clone)]
#[non_exhaustive]
pub enum CanonError {
    /// Input ended in the middle of an item.
    Truncated {
        /// Byte offset where the shortfall was detected.
        offset: usize,
        /// How many further bytes the item required.
        needed: usize,
    },
    /// Bytes remained after a complete top-level item.
    TrailingData {
        /// Number of unconsumed bytes.
        count: usize,
    },
    /// An integer used a longer encoding than necessary.
    NonShortestInteger {
        /// Byte offset of the item's head.
        offset: usize,
        /// The decoded argument.
        value: u64,
        /// Additional bytes the encoder used for the argument.
        used: usize,
    },
    /// An indefinite-length string, array, or map was present.
    IndefiniteLength {
        /// Byte offset of the item's head.
        offset: usize,
    },
    /// A floating point value was present.
    Float {
        /// Byte offset of the item's head.
        offset: usize,
    },
    /// A map key was not a text string.
    NonTextKey {
        /// Byte offset of the offending key.
        offset: usize,
    },
    /// Two map keys were equal.
    DuplicateKey {
        /// Byte offset of the repeated key.
        offset: usize,
        /// The repeated key.
        key: String,
    },
    /// Map keys were not in ascending UTF-8 byte order.
    UnsortedKeys {
        /// Byte offset of the out-of-order key.
        offset: usize,
        /// The preceding key.
        previous: String,
        /// The key that should have come first.
        current: String,
    },
    /// A text string was not valid UTF-8.
    InvalidUtf8 {
        /// Byte offset of the string's contents.
        offset: usize,
    },
    /// A text string was not in Unicode Normalization Form C.
    NotNfc {
        /// Byte offset of the string's contents.
        offset: usize,
        /// The offending text, normalized.
        text: String,
    },
    /// A major type or simple value outside the profile was present.
    Unsupported {
        /// Byte offset of the item's head.
        offset: usize,
        /// What was encountered.
        detail: &'static str,
    },
    /// Nesting exceeded the implementation limit.
    TooDeep {
        /// Byte offset where the limit was reached.
        offset: usize,
        /// The configured limit.
        limit: usize,
    },
    /// The item was larger than the object size limit permits.
    TooLarge {
        /// Size of the input.
        size: usize,
        /// The configured ceiling.
        limit: usize,
    },
}

/// A violation as a mathematical value: offsets and counts as integers,
/// texts as character sequences.
pub enum Fault {
    Truncated { offset: int, needed: int },
    TrailingData { count: int },
    NonShortestInteger { offset: int, value: int, used: int },
    IndefiniteLength { offset: int },
    Float { offset: int },
    NonTextKey { offset: int },
    DuplicateKey { offset: int, key: Seq<char> },
    UnsortedKeys { offset: int, previous: Seq<char>, current: Seq<char> },
    InvalidUtf8 { offset: int },
    NotNfc { offset: int, text: Seq<char> },
    Unsupported { offset: int, detail: Seq<char> },
    TooDeep { offset: int, limit: int },
    TooLarge { size: int, limit: int },
}

impl View for CanonError {
    type V = Fault;

    open spec fn view(&self) -> Fault {
        match self {
            CanonError::Truncated { offset, needed } => Fault::Truncated { offset: *offset as int, needed: *needed as int },
            CanonError::TrailingData { count } => Fault::TrailingData { count: *count as int },
            CanonError::NonShortestInteger { offset, value, used } => Fault::NonShortestInteger {
                offset: *offset as int,
                value: *value as int,
                used: *used as int,
            },
            CanonError::IndefiniteLength { offset } => Fault::IndefiniteLength { offset: *offset as int },
            CanonError::Float { offset } => Fault::Float { offset: *offset as int },
            CanonError::NonTextKey { offset } => Fault::NonTextKey { offset: *offset as int },
            CanonError::DuplicateKey { offset, key } => Fault::DuplicateKey { offset: *offset as int, key: key@ },
            CanonError::UnsortedKeys { offset, previous, current } => Fault::UnsortedKeys {
                offset: *offset as int,
                previous: previous@,
                current: current@,
            },
            CanonError::InvalidUtf8 { offset } => Fault::InvalidUtf8 { offset: *offset as int },
            CanonError::NotNfc { offset, text } => Fault::NotNfc { offset: *offset as int, text: text@ },
            CanonError::Unsupported { offset, detail } => Fault::Unsupported { offset: *offset as int, detail: detail@ },
            CanonError::TooDeep { offset, limit } => Fault::TooDeep { offset: *offset as int, limit: *limit as int },
            CanonError::TooLarge { size, limit } => Fault::TooLarge { size: *size as int, limit: *limit as int },
        }
    }
}

/// The rule a violation maps to.
pub open spec fn rule_of(e: CanonError) -> Seq<char> {
    match e {
        CanonError::Truncated { .. } => "complete items"@,
        CanonError::TrailingData { .. } => "single top-level item"@,
        CanonError::NonShortestInteger { .. } => "shortest-form integers"@,
        CanonError::IndefiniteLength { .. } => "no indefinite length"@,
        CanonError::Float { .. } => "no floating point"@,
        CanonError::NonTextKey { .. } => "text map keys"@,
        CanonError::DuplicateKey { .. } => "unique map keys"@,
        CanonError::UnsortedKeys { .. } => "sorted map keys"@,
        CanonError::InvalidUtf8 { .. } => "valid UTF-8"@,
        CanonError::NotNfc { .. } => "NFC normalization"@,
        CanonError::Unsupported { .. } => "supported item types"@,
        CanonError::TooDeep { .. } => "nesting limit"@,
        CanonError::TooLarge { .. } => "object size limit"@,
    }
}

impl CanonError {
    /// The short rule name this violation maps to.
    ///
    /// Stable across releases: tools match on it.
    pub fn rule(&self) -> (r: &'static str)
        ensures
            r@ == rule_of(*self),
    {
        match self {
            CanonError::Truncated { .. } => "complete items",
            CanonError::TrailingData { .. } => "single top-level item",
            CanonError::NonShortestInteger { .. } => "shortest-form integers",
            CanonError::IndefiniteLength { .. } => "no indefinite length",
            CanonError::Float { .. } => "no floating point",
            CanonError::NonTextKey { .. } => "text map keys",
            CanonError::DuplicateKey { .. } => "unique map keys",
            CanonError::UnsortedKeys { .. } => "sorted map keys",
            CanonError::InvalidUtf8 { .. } => "valid UTF-8",
            CanonError::NotNfc { .. } => "NFC normalization",
            CanonError::Unsupported { .. } => "supported item types",
            CanonError::TooDeep { .. } => "nesting limit",
            CanonError::TooLarge { .. } => "object size limit",
        }
    }
}

} // verus!
