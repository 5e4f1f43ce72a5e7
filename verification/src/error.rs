//! Errors raised while opening a container or coercing a node value.

use vstd::prelude::*;
use crate::nx_node::NXNodeType;

verus! {

/// The scalar type a caller may request from a node value.
#[derive(Clone, Copy, Debug, PartialEq, Eq, Structural)]
pub enum NXScalarKind {
    Int64,
    Double,
    Text,
    Bool,
}

/// Failure modes of the reader.
///
/// The first four are fatal load errors: no container is produced.
/// `TypeMismatch` and `ParseError` are local to a single value coercion
/// and leave the loaded tree intact.
#[derive(Clone, Copy, Debug, PartialEq, Eq, Structural)]
pub enum NXError {
    /// The input ends before a field that the layout requires.
    IoError,
    /// The first four bytes are not the expected magic tag.
    BadMagic,
    /// A string-table entry holds bytes that are not valid UTF-8.
    InvalidUtf8,
    /// A declared child span exceeds the extent of the node array.
    OutOfBounds,
    /// A coercion was requested against an incompatible stored variant.
    TypeMismatch { requested: NXScalarKind, actual: NXNodeType },
    /// A text value does not parse as a number of the requested type.
    ParseError,
}

} // verus!
