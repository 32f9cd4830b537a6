//! Statements over expressions of the rule calculus.
use vstd::prelude::*;

use crate::lome_calc::{Expr, IDMapExpr};

verus! {

/// Extended expression: an expression under an identifier.
pub struct STmt {
    id: u64,
    exp: Expr,
}

/// Sets up an empty context of bindings.
pub fn lol() {
    let _a: IDMapExpr = IDMapExpr::new();
}

} // verus!
