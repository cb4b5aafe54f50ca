//! Failures reported by the library.

use vstd::prelude::*;

verus! {

/// A typed failure of dataset construction, generation or evaluation.
#[derive(Copy, Clone, Debug, PartialEq, Eq, Hash, Structural)]
pub enum GpError {
    /// Row and target counts differ, or a row binds other names than the declared variables.
    MalformedDataset,
    /// The possibility table has an empty set at some depth.
    UnreachableType,
    /// A terminal names a variable that the evaluated row does not bind.
    UnboundVariable,
    /// No grammar rule matches a node's recorded signature.
    NoMatchingRule,
    /// A row or tree index is beyond the collection's size.
    IndexOutOfBounds,
    /// A combinator could not combine its operands: shapes it cannot pair,
    /// an integer overflow or a division by zero.
    OperationFailed,
    /// The value whose loss is taken is not a scalar.
    NonScalarOutput,
}

} // verus!
