//! Frames of the normalisation queue: a pending application, or a branch
//! whose operator and operand are held until they are leaves.
use vstd::prelude::*;

use crate::modus::{LeafApplicator, Tree};

verus! {

/// A frame's computation. Build it with [`InFrame::new`], which turns a hold
/// of two leaves into a task at once.
pub(crate) enum InFrame<Leaf, A: LeafApplicator<Leaf>> {
    Task(A::ApplicatorTask),
    Hold((Option<Tree<Leaf>>, Option<Tree<Leaf>>)),
}

/// Whether a slot holds a leaf, ready to be applied.
pub(crate) open spec fn slot_ready<Leaf>(s: Option<Tree<Leaf>>) -> bool {
    s matches Some(Tree::Lea(_))
}

/// The leaf in a slot that holds one.
pub(crate) open spec fn slot_leaf<Leaf>(s: Option<Tree<Leaf>>) -> Leaf
    recommends
        slot_ready(s),
{
    match s {
        Some(Tree::Lea(l)) => l,
        _ => arbitrary(),
    }
}

/// Whether a slot holds a branch, still to be taken out to a frame of its own.
pub(crate) open spec fn slot_branch<Leaf>(s: Option<Tree<Leaf>>) -> bool {
    s matches Some(Tree::Brc(_))
}

/// The branch in a slot that holds one.
pub(crate) open spec fn slot_branch_of<Leaf>(s: Option<Tree<Leaf>>) -> (Tree<Leaf>, Tree<Leaf>)
    recommends
        slot_branch(s),
{
    match s {
        Some(Tree::Brc(b)) => *b,
        _ => arbitrary(),
    }
}

/// `next` is what a hold becomes once ready: a hold of two leaves becomes the
/// task of applying the one to the other, anything else stays.
pub(crate) open spec fn readied<Leaf, A: LeafApplicator<Leaf>>(
    a: A,
    before: InFrame<Leaf, A>,
    next: InFrame<Leaf, A>,
) -> bool {
    match before {
        InFrame::Hold((l, r)) => if slot_ready(l) && slot_ready(r) {
            next matches InFrame::Task(t) && a.task_operands(t) == (slot_leaf(l), slot_leaf(r))
        } else {
            next == before
        },
        InFrame::Task(_) => next == before,
    }
}

/// `f` is the frame that [`InFrame::new`] makes of the branch `b`.
pub(crate) open spec fn fresh<Leaf, A: LeafApplicator<Leaf>>(
    a: A,
    b: (Tree<Leaf>, Tree<Leaf>),
    f: InFrame<Leaf, A>,
) -> bool {
    readied(a, InFrame::Hold((Some(b.0), Some(b.1))), f)
}

/// A hold with the slot that `rf` selects filled with the leaf `obj`.
pub(crate) open spec fn filled<Leaf, A: LeafApplicator<Leaf>>(
    f: InFrame<Leaf, A>,
    rf: Ref,
    obj: Leaf,
) -> InFrame<Leaf, A> {
    match f {
        InFrame::Hold((l, r)) => if rf.1 {
            InFrame::Hold((l, Some(Tree::Lea(obj))))
        } else {
            InFrame::Hold((Some(Tree::Lea(obj)), r))
        },
        InFrame::Task(t) => InFrame::Task(t),
    }
}

/// What [`InFrame::children`] leaves of a slot, and the child it hands out.
pub(crate) open spec fn extracted<Leaf, A: LeafApplicator<Leaf>>(
    a: A,
    before: Option<Tree<Leaf>>,
    after: Option<Tree<Leaf>>,
    child: Option<InFrame<Leaf, A>>,
) -> bool {
    if slot_branch(before) {
        &&& after is None
        &&& child matches Some(c) && fresh(a, slot_branch_of(before), c)
    } else {
        &&& after == before
        &&& child is None
    }
}

/// Takes a branch out of a slot into a frame of its own.
fn take_slot<Leaf, A: LeafApplicator<Leaf>>(slot: &mut Option<Tree<Leaf>>, ator: &A) -> (r: Option<
    InFrame<Leaf, A>,
>)
    ensures
        extracted(*ator, *old(slot), *final(slot), r),
{
    match slot {
        Some(Tree::Brc(_)) => match slot.take() {
            Some(Tree::Brc(b)) => Some(InFrame::new(*b, ator)),
            // Brc just proven; no intervening mutation.
            _ => {
                proof {
                    assert(false);
                }
                None
            },
        },
        _ => None,
    }
}

impl<Leaf, A: LeafApplicator<Leaf>> InFrame<Leaf, A> {
    /// Establishes ready-is-task: a hold of two leaves becomes a task.
    pub(crate) fn new(b: (Tree<Leaf>, Tree<Leaf>), ator: &A) -> (r: Self)
        ensures
            fresh(*ator, b, r),
    {
        let mut innr = InFrame::Hold((Some(b.0), Some(b.1)));
        innr.try_task(ator);
        innr
    }

    /// Preserves ready-is-task.
    fn try_task(&mut self, ator: &A)
        ensures
            readied(*ator, *old(self), *final(self)),
    {
        let ready = match self {
            InFrame::Hold((Some(Tree::Lea(_)), Some(Tree::Lea(_)))) => true,
            _ => false,
        };
        if ready {
            let mut held = InFrame::Hold((None, None));
            core::mem::swap(self, &mut held);
            match held {
                InFrame::Hold((Some(Tree::Lea(op)), Some(Tree::Lea(x)))) => {
                    *self = Self::Task(ator.apply(op, x));
                },
                // Both just proven Some(Lea); no intervening mutation.
                _ => {
                    proof {
                        assert(false);
                    }
                },
            }
        }
    }

    /// Requires the selected slot to be empty and the reference truthful.
    ///
    /// FrameQ-inv-child-slot: the parent slot is empty while the child lives;
    /// filling it consumes that correspondence.
    pub(crate) fn fill_slot(&mut self, rf: Ref, obj: Leaf, ator: &A)
        requires
            *old(self) matches InFrame::Hold(lr) && (if rf.1 {
                lr.1 is None
            } else {
                lr.0 is None
            }),
        ensures
            readied(*ator, filled(*old(self), rf, obj), *final(self)),
    {
        let mut held = InFrame::Hold((None, None));
        core::mem::swap(self, &mut held);
        match held {
            InFrame::Hold(mut lr) => {
                let slot = rf.slot(&mut lr);
                match slot {
                    None => *slot = Some(Tree::Lea(obj)),
                    // FrameQ-inv-child-slot
                    Some(_) => {
                        proof {
                            assert(false);
                        }
                    },
                }
                *self = InFrame::Hold(lr);
                // preserve FrameQ-inv-ready-is-task
                self.try_task(ator);
            },
            // A child only refers to a parent hold with a detached slot.
            InFrame::Task(t) => {
                proof {
                    assert(false);
                }
                *self = InFrame::Task(t);
            },
        }
    }

    /// Extracts the branches that the frame holds to child frames.
    ///
    /// Each child: the parent slot is left empty; the child owns the
    /// extracted computation. The caller attaches the reference, completing
    /// FrameQ-inv-child-slot.
    pub(crate) fn children(&mut self, ator: &A) -> (r: (Option<Self>, Option<Self>))
        ensures
            match *old(self) {
                InFrame::Task(t) => *final(self) == *old(self) && r.0 is None && r.1 is None,
                InFrame::Hold((l, rr)) => *final(self) matches InFrame::Hold((l2, r2)) && extracted(
                    *ator,
                    l,
                    l2,
                    r.0,
                ) && extracted(*ator, rr, r2, r.1),
            },
    {
        match self {
            InFrame::Task(_) => (None, None),
            InFrame::Hold((l, r)) => {
                let lc = take_slot(l, ator);
                let rc = take_slot(r, ator);
                (lc, rc)
            },
        }
    }
}

/// Parent frame and the slot of it that a child computes: the right slot
/// where the flag is set, the left one otherwise.
///
/// FrameQ-inv-parent-before-child: the parent of frame `i` comes before `i`.
pub(crate) struct Ref(pub(crate) usize, pub(crate) bool);

impl Ref {
    /// The caller vouches for `idx`.
    pub(crate) fn right(idx: usize) -> (r: Self)
        ensures
            r == Ref(idx, true),
    {
        Self(idx, true)
    }

    /// The caller vouches for `idx`.
    pub(crate) fn left(idx: usize) -> (r: Self)
        ensures
            r == Ref(idx, false),
    {
        Self(idx, false)
    }

    /// Selects the referenced slot of a parent.
    pub(crate) fn slot<'a, Leaf>(&self, frm: &'a mut (Option<Tree<Leaf>>, Option<Tree<Leaf>>)) -> (r:
        &'a mut Option<Tree<Leaf>>)
        ensures
            *r == (if self.1 {
                old(frm).1
            } else {
                old(frm).0
            }),
            *final(frm) == (if self.1 {
                (old(frm).0, *final(r))
            } else {
                (*final(r), old(frm).1)
            }),
    {
        match self.1 {
            true => &mut frm.1,
            false => &mut frm.0,
        }
    }

    /// The referenced parent frame. For a child just popped, the parent comes
    /// before it, so it is still there.
    pub(crate) fn frame<'a, Leaf, A: LeafApplicator<Leaf>>(
        &self,
        vec: &'a mut Vec<Frame<Leaf, A>>,
    ) -> (r: &'a mut Frame<Leaf, A>)
        requires
            self.0 < old(vec).len(),
        ensures
            *r == old(vec)@[self.0 as int],
            final(vec)@ == old(vec)@.update(self.0 as int, *final(r)),
    {
        &mut vec[self.0]
    }
}

/// A frame of the queue: its computation and, but for the root, the parent
/// slot that its result fills.
pub(crate) struct Frame<Leaf, A: LeafApplicator<Leaf>> {
    /// None only for the root continuation.
    pub(crate) src: Option<Ref>,
    pub(crate) innr: InFrame<Leaf, A>,
}

} // verus!
