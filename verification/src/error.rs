//! Failure conditions reported by tensor construction, indexing, formula
//! parsing, and export.  Every condition is detected eagerly at a call
//! boundary, before any computation proceeds, and carries enough context to
//! diagnose the call without inspecting library internals.

use vstd::prelude::*;

verus! {

/// A precondition violation surfaced to the caller.  No partial result ever
/// accompanies one of these: a failed call returns the error and nothing else.
#[derive(Clone, Copy, Debug, PartialEq, Eq, Structural)]
pub enum TensorError {
    /// The number of comma-separated operand groups in a formula disagrees
    /// with the number of supplied operand tensors.
    ArityMismatch { groups: usize, operands: usize },
    /// A coordinate's length, or an operand's symbol-string length,
    /// disagrees with the rank of the tensor it addresses.  For a directly
    /// indexed tensor, `operand` is 0.
    RankMismatch { operand: usize, expected: usize, found: usize },
    /// A coordinate's entry on some axis is at least that axis's size.
    OutOfRange { axis: usize, index: usize, size: usize },
    /// A formula symbol is bound to two different dimension sizes across the
    /// operands that use it.  `expected` is the size established by the
    /// symbol's first occurrence, `found` the later conflicting size.
    DimensionConflict { symbol: char, expected: usize, found: usize },
    /// The output side of a formula names a symbol that no input binds.
    UnboundOutputSymbol { symbol: char },
    /// Ragged nested-literal input, or an export header or label-list length
    /// that disagrees with the tensor's rank.  `outer` and `inner` locate the
    /// offending nested sequence where applicable (otherwise both are 0).
    ShapeMismatch { outer: usize, inner: usize, expected: usize, found: usize },
}

} // verus!
