//! A dense n-dimensional tensor library built around one generalized
//! contraction primitive in Einstein-summation notation ("einsum").
//!
//! A [`tensor::Tensor`] owns a shape (an ordered sequence of positive axis
//! sizes) and a flat, row-major buffer of `i64` scalars.  The contraction
//! engine parses a subscript formula such as `"ij,jk->ik"`, binds each
//! symbol to a concrete dimension size by cross-checking every operand that
//! uses it, and then enumerates the full Cartesian product of all symbol
//! values with a mixed-radix counter, accumulating products of operand
//! entries into the output tensor.  Scalar addition and multiplication wrap
//! modulo 2^64, and every contract states results in terms of that wrapped
//! mathematical value.

use vstd::prelude::*;

pub mod engine;
pub mod error;
pub mod laws;
pub mod parse;
pub mod render;
pub mod scalar;
pub mod shape;
pub mod tensor;

verus! {

} // verus!
