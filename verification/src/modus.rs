//! Principal expressions: binary trees whose leaves a user-supplied
//! [`LeafApplicator`] applies to one another, normalised by a queue of frames
//! instead of recursion.
//!
//! Notes on [`LeafApplicator`]:
//! 1. What an [`LeafApplicator::ApplicatorTask`] means by failure is the
//!    implementor's affair; it must agree with itself.
//! 2. An application whose result is the very branch of the two leaves it was
//!    given is applied again and again: see [`law_naive_reapply_diverges`].
//! 3. Applications are taken to be pure: what completing a task gives is
//!    [`LeafApplicator::application`] of the leaves it was begun with.
use vstd::prelude::*;

mod norm;

use norm::FrameQ;

verus! {

/// Principal Expression
pub enum Tree<Leaf> {
    /// Leaf
    Lea(Leaf),
    /// Branch (Modus Ponens)
    Brc(Box<(Tree<Leaf>, Tree<Leaf>)>),
}

/// Applies leaves to leaves.
///
/// An implementor states, by `application` and `task_operands`, what its
/// applications stand for; `apply` and `completed` must agree with them. An
/// implementation outside Verus writes those two as ordinary functions that
/// say the same, and is trusted to keep to them.
pub trait LeafApplicator<Leaf>: Sized {
    /// An application that was begun and not yet completed.
    type ApplicatorTask;

    /// The tree that applying `operator` to `operand` stands for.
    spec fn application(&self, operator: Leaf, operand: Leaf) -> Tree<Leaf>;

    /// The operator and the operand that `task` was begun with.
    spec fn task_operands(&self, task: Self::ApplicatorTask) -> (Leaf, Leaf);

    /// Begin/schedule application, perhaps elsewhere/thread.
    fn apply(&self, operator: Leaf, operand: Leaf) -> (task: Self::ApplicatorTask)
        ensures
            self.task_operands(task) == (operator, operand),
    ;

    /// Wait/get application result.
    fn completed(&self, task: Self::ApplicatorTask) -> (result: Tree<Leaf>)
        ensures
            result == self.application(self.task_operands(task).0, self.task_operands(task).1),
    ;
}

// ---------------------------------------------------------------------------
// Evaluation
// ---------------------------------------------------------------------------

/// Evaluation of `t` with applications nested at most `fuel` deep: the leaf
/// it comes to and the number of applications completed on the way.
/// A branch evaluates its operator, then its operand, then what applying the
/// one to the other stands for.
pub open spec fn run<Leaf, A: LeafApplicator<Leaf>>(a: A, t: Tree<Leaf>, fuel: nat) -> Option<
    (Leaf, nat),
>
    decreases fuel,
{
    match t {
        Tree::Lea(l) => Some((l, 0)),
        Tree::Brc(b) => if fuel == 0 {
            None
        } else {
            let f1 = (fuel - 1) as nat;
            match (run(a, b.0, f1), run(a, b.1, f1)) {
                (Some((op, c0)), Some((x, c1))) => match run(a, a.application(op, x), f1) {
                    Some((v, c2)) => Some((v, c0 + c1 + 1 + c2)),
                    None => None,
                },
                _ => None,
            }
        },
    }
}

/// Whether `t` evaluates, i.e. its normalisation comes to an end.
pub open spec fn evaluates<Leaf, A: LeafApplicator<Leaf>>(a: A, t: Tree<Leaf>) -> bool {
    exists|fuel: nat| #[trigger] run(a, t, fuel) is Some
}

/// Fuel enough to evaluate `t`, where there is such.
pub open spec fn eval_fuel<Leaf, A: LeafApplicator<Leaf>>(a: A, t: Tree<Leaf>) -> nat {
    choose|fuel: nat| #[trigger] run(a, t, fuel) is Some
}

/// The leaf that `t` evaluates to.
pub open spec fn value<Leaf, A: LeafApplicator<Leaf>>(a: A, t: Tree<Leaf>) -> Leaf {
    run(a, t, eval_fuel(a, t)).unwrap().0
}

/// The number of applications that evaluating `t` completes.
pub open spec fn work<Leaf, A: LeafApplicator<Leaf>>(a: A, t: Tree<Leaf>) -> nat {
    run(a, t, eval_fuel(a, t)).unwrap().1
}

/// More fuel does not change an evaluation that has come to an end.
pub proof fn lemma_run_mono<Leaf, A: LeafApplicator<Leaf>>(a: A, t: Tree<Leaf>, f: nat, g: nat)
    requires
        run(a, t, f) is Some,
        f <= g,
    ensures
        run(a, t, g) == run(a, t, f),
    decreases f,
{
    match t {
        Tree::Lea(_) => {},
        Tree::Brc(b) => {
            let f1 = (f - 1) as nat;
            let g1 = (g - 1) as nat;
            lemma_run_mono(a, b.0, f1, g1);
            lemma_run_mono(a, b.1, f1, g1);
            let (op, c0) = run(a, b.0, f1).unwrap();
            let (x, c1) = run(a, b.1, f1).unwrap();
            lemma_run_mono(a, a.application(op, x), f1, g1);
        },
    }
}

/// Any fuel that suffices gives the value and the work.
pub proof fn lemma_run_value<Leaf, A: LeafApplicator<Leaf>>(a: A, t: Tree<Leaf>, f: nat)
    requires
        run(a, t, f) is Some,
    ensures
        evaluates(a, t),
        run(a, t, f) == Some((value(a, t), work(a, t))),
{
    let g = eval_fuel(a, t);
    if f <= g {
        lemma_run_mono(a, t, f, g);
    } else {
        lemma_run_mono(a, t, g, f);
    }
}

/// A leaf evaluates to itself, with no application.
pub proof fn lemma_leaf<Leaf, A: LeafApplicator<Leaf>>(a: A, l: Leaf)
    ensures
        evaluates(a, Tree::Lea(l)),
        value(a, Tree::Lea(l)) == l,
        work(a, Tree::Lea(l)) == 0,
{
    lemma_run_value(a, Tree::Lea(l), 0);
}

/// A branch that evaluates has an operator and an operand that evaluate, and
/// an application of their values that evaluates to the branch's value; its
/// work is theirs and one application more.
pub proof fn lemma_branch<Leaf, A: LeafApplicator<Leaf>>(a: A, b: (Tree<Leaf>, Tree<Leaf>))
    requires
        evaluates(a, Tree::Brc(Box::new(b))),
    ensures
        evaluates(a, b.0),
        evaluates(a, b.1),
        evaluates(a, a.application(value(a, b.0), value(a, b.1))),
        value(a, Tree::Brc(Box::new(b))) == value(
            a,
            a.application(value(a, b.0), value(a, b.1)),
        ),
        work(a, Tree::Brc(Box::new(b))) == work(a, b.0) + work(a, b.1) + 1 + work(
            a,
            a.application(value(a, b.0), value(a, b.1)),
        ),
{
    let t = Tree::Brc(Box::new(b));
    let f = eval_fuel(a, t);
    let f1 = (f - 1) as nat;
    lemma_run_value(a, b.0, f1);
    lemma_run_value(a, b.1, f1);
    lemma_run_value(a, a.application(value(a, b.0), value(a, b.1)), f1);
}

/// An application whose result is the branch of the very leaves it was given
/// is applied again and again: that branch never evaluates.
pub proof fn law_naive_reapply_diverges<Leaf, A: LeafApplicator<Leaf>>(a: A, op: Leaf, x: Leaf)
    requires
        a.application(op, x) == Tree::Brc(Box::new((Tree::Lea(op), Tree::Lea(x)))),
    ensures
        !evaluates(a, Tree::Brc(Box::new((Tree::Lea(op), Tree::Lea(x))))),
{
    let t = Tree::Brc(Box::new((Tree::Lea(op), Tree::Lea(x))));
    assert forall|f: nat| !(#[trigger] run(a, t, f) is Some) by {
        lemma_reapply_fuel(a, op, x, f);
    }
}

proof fn lemma_reapply_fuel<Leaf, A: LeafApplicator<Leaf>>(a: A, op: Leaf, x: Leaf, f: nat)
    requires
        a.application(op, x) == Tree::Brc(Box::new((Tree::Lea(op), Tree::Lea(x)))),
    ensures
        run(a, Tree::Brc(Box::new((Tree::Lea(op), Tree::Lea(x)))), f) is None,
    decreases f,
{
    if f > 0 {
        let f1 = (f - 1) as nat;
        lemma_reapply_fuel(a, op, x, f1);
        assert(run(a, Tree::<Leaf>::Lea(op), f1) == Some((op, 0nat)));
        assert(run(a, Tree::<Leaf>::Lea(x), f1) == Some((x, 0nat)));
    }
}

impl<Leaf> From<Leaf> for Tree<Leaf> {
    fn from(value: Leaf) -> (r: Self) {
        Self::Lea(value)
    }
}

impl<Leaf> vstd::std_specs::convert::FromSpecImpl<Leaf> for Tree<Leaf> {
    open spec fn obeys_from_spec() -> bool {
        true
    }

    open spec fn from_spec(v: Leaf) -> Self {
        Tree::Lea(v)
    }
}

impl<Leaf> From<(Tree<Leaf>, Tree<Leaf>)> for Tree<Leaf> {
    fn from(value: (Tree<Leaf>, Tree<Leaf>)) -> (r: Self) {
        Self::Brc(Box::new((value.0, value.1)))
    }
}

impl<Leaf> vstd::std_specs::convert::FromSpecImpl<(Tree<Leaf>, Tree<Leaf>)> for Tree<Leaf> {
    open spec fn obeys_from_spec() -> bool {
        true
    }

    open spec fn from_spec(v: (Tree<Leaf>, Tree<Leaf>)) -> Self {
        Tree::Brc(Box::new(v))
    }
}

/// `copy` is a clone of `t`: the same shape, and each leaf a clone of the
/// leaf in its place.
pub open spec fn tree_cloned<Leaf: Clone>(t: Tree<Leaf>, copy: Tree<Leaf>) -> bool
    decreases t,
{
    match (t, copy) {
        (Tree::Lea(o), Tree::Lea(c)) => cloned::<Leaf>(o, c),
        (Tree::Brc(b), Tree::Brc(c)) => tree_cloned(b.0, c.0) && tree_cloned(b.1, c.1),
        _ => false,
    }
}

impl<Leaf: Clone> Clone for Tree<Leaf> {
    fn clone(&self) -> (r: Self)
        ensures
            tree_cloned(*self, r),
        decreases self,
    {
        match self {
            Self::Lea(o) => Self::Lea(o.clone()),
            Self::Brc(bb) => Self::Brc(Box::new((bb.0.clone(), bb.1.clone()))),
        }
    }
}

/// A tree built from a pair applies the pair's first component, the
/// operator, to its second, the operand: it evaluates to what applying the
/// first's value to the second's stands for.
pub proof fn law_from_pair_operator_first<Leaf, A: LeafApplicator<Leaf>>(
    a: A,
    op: Tree<Leaf>,
    x: Tree<Leaf>,
)
    requires
        evaluates(a, <Tree<Leaf> as vstd::std_specs::convert::FromSpec<(Tree<Leaf>, Tree<Leaf>)>>::from_spec((op, x))),
    ensures
        evaluates(a, op),
        evaluates(a, x),
        evaluates(a, a.application(value(a, op), value(a, x))),
        value(a, <Tree<Leaf> as vstd::std_specs::convert::FromSpec<(Tree<Leaf>, Tree<Leaf>)>>::from_spec((op, x)))
            == value(a, a.application(value(a, op), value(a, x))),
{
    lemma_branch(a, (op, x));
}

/// A tree built from a leaf evaluates to that leaf.
pub proof fn law_from_leaf_value<Leaf, A: LeafApplicator<Leaf>>(a: A, l: Leaf)
    ensures
        evaluates(a, <Tree<Leaf> as vstd::std_specs::convert::FromSpec<Leaf>>::from_spec(l)),
        value(a, <Tree<Leaf> as vstd::std_specs::convert::FromSpec<Leaf>>::from_spec(l)) == l,
{
    lemma_leaf(a, l);
}

/// Where cloning a leaf gives back an equal leaf, a clone of a tree is the
/// tree itself: same shape, operator for operator and operand for operand.
pub proof fn law_clone_keeps_tree<Leaf: Clone>(t: Tree<Leaf>, copy: Tree<Leaf>)
    requires
        forall|l: Leaf, c: Leaf| #[trigger] cloned::<Leaf>(l, c) ==> l == c,
        tree_cloned(t, copy),
    ensures
        copy == t,
    decreases t,
{
    match (t, copy) {
        (Tree::Brc(b), Tree::Brc(c)) => {
            law_clone_keeps_tree(b.0, c.0);
            law_clone_keeps_tree(b.1, c.1);
            assert(*b == *c);
        },
        _ => {},
    }
}

// ---------------------------------------------------------------------------
// Trees
// ---------------------------------------------------------------------------

impl<Leaf> Tree<Leaf> {
    /// Normalises the tree to a leaf: every branch, from the leaves up,
    /// becomes what the applicator makes of its operator and operand, until
    /// a single leaf is left.
    pub fn norm<A: LeafApplicator<Leaf>>(self, applicator: &A) -> (r: Leaf)
        requires
            evaluates(*applicator, self),
        ensures
            r == value(*applicator, self),
    {
        match self {
            Tree::Lea(lf) => {
                proof {
                    lemma_leaf(*applicator, lf);
                }
                lf
            },
            Tree::Brc(bb) => {
                let mut frm = FrameQ::new(*bb, applicator);
                frm.reduce(applicator)
            },
        }
    }
}

} // verus!
