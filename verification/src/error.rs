//! The error kinds that the library reports.

use vstd::prelude::*;

verus! {

/// Why an operation was refused.
#[derive(Debug, Clone, Copy, PartialEq, Eq, Structural)]
pub enum Error {
    /// The index names no stored node, page or database entry.
    KeyNotFound,
    /// A SMILES string or an identifier is wider than its reserved field.
    PayloadTooLarge,
    /// A descriptor does not have the configured number of coordinates.
    DimensionMismatch,
    /// A descriptor holds a coordinate that is not a number.
    InvalidDescriptor,
    /// The leaf page has no free slot. The tree reports this only when a
    /// full leaf cannot be divided on any axis.
    PageFull,
    /// Stored bytes do not have the shape the format prescribes.
    CorruptPage,
    /// The configuration names a layout on which no tree can be built.
    ConfigMalformed,
    /// A line of input lacks a field or holds text that is not ASCII.
    MalformedLine,
}

} // verus!
