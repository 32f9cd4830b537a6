//! Leaves that are either constants, applied by a [`ConApplicator`], or
//! abstractions over leaves.
use vstd::prelude::*;

use crate::modus;

pub(crate) mod application;

verus! {

/// Applies constants to leaves.
///
/// A task records the constant and the operand it was begun with
/// (`task_operands`); what completing it gives is the implementor's own
/// affair, which may depend on the applicator's state.
pub trait ConApplicator<Con>: Sized {
    /// An application of a constant that was begun and not yet completed.
    type ConTask;

    /// The constant and the operand that `task` was begun with.
    spec fn task_operands(task: Self::ConTask) -> (Con, Leaf<Con>);

    /// Begins applying the constant `operator` to `operand`.
    fn task(&mut self, operator: Con, operand: Leaf<Con>) -> (t: Self::ConTask)
        ensures
            Self::task_operands(t) == (operator, operand),
    ;

    /// Completes the application, giving the resulting constant.
    fn completed(&mut self, task: Self::ConTask) -> Con;
}

/// A leaf: an abstraction, or a constant. Applications of constants are what
/// this crate's applicator handles.
pub enum Leaf<Con> {
    Abs(Box<(Leaf<Con>, Leaf<Con>)>),
    Con(Con),
}

/// A principal expression over these leaves.
pub struct Tree<Con>(modus::Tree<Leaf<Con>>);

} // verus!
