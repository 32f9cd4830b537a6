//! Applications of leaves: a constant operator is handed to the
//! [`ConApplicator`]; a leaf already computed is carried as it is.
use vstd::prelude::*;

use crate::lome1::{ConApplicator, Leaf};
use crate::modus;

verus! {

/// An application under way, or a leaf that needs none.
pub(crate) enum Task<Con, A: ConApplicator<Con>> {
    ConTask(A::ConTask),
    DoneLeaf(Leaf<Con>),
}

/// Begins applying `op` to `x`. Only constant operators are applied.
pub(crate) fn task<Con, A: ConApplicator<Con>>(op: Leaf<Con>, x: Leaf<Con>, ator: &mut A) -> (r: Task<
    Con,
    A,
>)
    requires
        op is Con,
    ensures
        r matches Task::ConTask(t) && A::task_operands(t) == (op->Con_0, x),
{
    match op {
        Leaf::Abs(_) => {
            proof {
                assert(false);
            }
            Task::DoneLeaf(x)
        },
        Leaf::Con(op_) => Task::ConTask(ator.task(op_, x)),
    }
}

/// The tree that a task comes to: the constant that the applicator completes
/// it with, or the leaf it carries.
pub(crate) fn completed<Con, A: ConApplicator<Con>>(task: Task<Con, A>, ator: &mut A) -> (r:
    modus::Tree<Leaf<Con>>)
    ensures
        task matches Task::DoneLeaf(l) ==> r == modus::Tree::Lea(l),
        task is ConTask ==> r matches modus::Tree::Lea(Leaf::Con(_)),
        task is DoneLeaf ==> *final(ator) == *old(ator),
{
    let lf = match task {
        Task::ConTask(ct) => Leaf::Con(ator.completed(ct)),
        Task::DoneLeaf(leaf) => leaf,
    };
    modus::Tree::Lea(lf)
}

} // verus!
