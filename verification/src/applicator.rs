//! Abstractions as the leaves of principal expressions.
use vstd::prelude::*;

verus! {

/// Abstraction
pub struct Abs;

/// Applicator
pub struct Applicator;

} // verus!
