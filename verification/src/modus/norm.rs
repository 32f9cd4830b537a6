//! The queue of frames that normalises a tree without recursion.
//!
//! FrameQ invariants:
//!
//! - parent-before-child: frame `i` with `src == Some(Ref(parent, _))` has
//!   `parent < i`.
//! - child-slot: a non-root frame corresponds to exactly one empty slot of its
//!   parent; the child owns that slot's computation.
//! - ready-is-task: a hold never holds two leaves; such a hold becomes a task
//!   at once.
//! - expanded-hold: after expansion, hold slots are empty or leaves, never
//!   branches, and every hold waits on at least one live child.
//! - top-task: at every entry of the reduce loop, the last frame is a task.
//! - root-continuation: at every entry of the reduce loop there is exactly
//!   one live root continuation (`src == None`), the first frame; each
//!   iteration returns the root's leaf or leaves a live root and a non-empty
//!   queue.
//!
//! Derived: child-slot + parent-before-child + ready-is-task + expanded-hold
//! give top-task.
//!
//! Besides its frames, the queue keeps, as ghost state, for each frame the
//! indices of the children that compute its empty slots and the leaf that the
//! frame evaluates to.
use vstd::prelude::*;

mod frame;

use crate::modus::{
    evaluates, lemma_branch, lemma_leaf, value, work, LeafApplicator, Tree,
};
use frame::{
    extracted, filled, fresh, readied, slot_branch, slot_branch_of, slot_leaf, slot_ready, Frame,
    InFrame, Ref,
};

verus! {

// ---------------------------------------------------------------------------
// Sums
// ---------------------------------------------------------------------------

/// `f(0) + ... + f(n - 1)`.
pub(crate) open spec fn sum_to(f: spec_fn(int) -> nat, n: int) -> nat
    decreases n,
{
    if n <= 0 {
        0
    } else {
        sum_to(f, n - 1) + f(n - 1)
    }
}

/// Changing one term changes the sum by as much.
proof fn lemma_sum_update(f: spec_fn(int) -> nat, g: spec_fn(int) -> nat, n: int, k: int)
    requires
        0 <= k < n,
        forall|i: int| 0 <= i < n && i != k ==> f(i) == #[trigger] g(i),
    ensures
        sum_to(g, n) + f(k) == sum_to(f, n) + g(k),
    decreases n,
{
    if n - 1 != k {
        lemma_sum_update(f, g, n - 1, k);
    } else {
        lemma_sum_ext(f, g, n - 1);
    }
}

/// Sums of equal terms are equal.
proof fn lemma_sum_ext(f: spec_fn(int) -> nat, g: spec_fn(int) -> nat, n: int)
    requires
        forall|i: int| 0 <= i < n ==> f(i) == #[trigger] g(i),
    ensures
        sum_to(g, n) == sum_to(f, n),
    decreases n,
{
    if n > 0 {
        lemma_sum_ext(f, g, n - 1);
    }
}

// ---------------------------------------------------------------------------
// Model of the queue
// ---------------------------------------------------------------------------

/// The leaf that a slot comes to: what it holds evaluates to, or what the
/// child `kid` that computes it comes to.
pub(crate) open spec fn slot_value<Leaf, A: LeafApplicator<Leaf>>(
    a: A,
    s: Option<Tree<Leaf>>,
    kid: int,
    vals: Seq<Leaf>,
) -> Leaf {
    match s {
        Some(t) => value(a, t),
        None => vals[kid],
    }
}

/// The applications that evaluating what a slot holds completes.
pub(crate) open spec fn slot_work<Leaf, A: LeafApplicator<Leaf>>(
    a: A,
    s: Option<Tree<Leaf>>,
) -> nat {
    match s {
        Some(t) => work(a, t),
        None => 0,
    }
}

/// What a slot holds evaluates.
pub(crate) open spec fn slot_ok<Leaf, A: LeafApplicator<Leaf>>(
    a: A,
    s: Option<Tree<Leaf>>,
) -> bool {
    s matches Some(t) ==> evaluates(a, t)
}

/// Brc nodes of a tree.
pub(crate) open spec fn tree_nodes<Leaf>(t: Tree<Leaf>) -> nat
    decreases t,
{
    match t {
        Tree::Lea(_) => 0,
        Tree::Brc(b) => 1 + tree_nodes(b.0) + tree_nodes(b.1),
    }
}

pub(crate) open spec fn slot_nodes<Leaf>(s: Option<Tree<Leaf>>) -> nat {
    match s {
        Some(t) => tree_nodes(t),
        None => 0,
    }
}

/// Brc nodes held in the slots of a frame, still to be taken out.
pub(crate) open spec fn frame_nodes<Leaf, A: LeafApplicator<Leaf>>(f: InFrame<Leaf, A>) -> nat {
    match f {
        InFrame::Task(_) => 0,
        InFrame::Hold((l, r)) => slot_nodes(l) + slot_nodes(r),
    }
}

/// The application that a frame stands for, once its slots are leaves.
pub(crate) open spec fn frame_app<Leaf, A: LeafApplicator<Leaf>>(
    a: A,
    f: InFrame<Leaf, A>,
    kid: (int, int),
    vals: Seq<Leaf>,
) -> Tree<Leaf> {
    match f {
        InFrame::Task(t) => a.application(a.task_operands(t).0, a.task_operands(t).1),
        InFrame::Hold((l, r)) => a.application(
            slot_value(a, l, kid.0, vals),
            slot_value(a, r, kid.1, vals),
        ),
    }
}

/// Frame `i` is sound: its application evaluates to the leaf recorded for it;
/// a hold holds what evaluates, never two leaves, and each empty slot is
/// computed by a later child that refers back to it.
pub(crate) open spec fn frame_ok<Leaf, A: LeafApplicator<Leaf>>(
    a: A,
    q: Seq<Frame<Leaf, A>>,
    kids: Seq<(int, int)>,
    vals: Seq<Leaf>,
    i: int,
) -> bool {
    let k = kids[i];
    let app = frame_app(a, q[i].innr, k, vals);
    &&& evaluates(a, app)
    &&& vals[i] == value(a, app)
    &&& match q[i].innr {
        InFrame::Task(_) => true,
        InFrame::Hold((l, r)) => {
            &&& slot_ok(a, l)
            &&& slot_ok(a, r)
            &&& !(slot_ready(l) && slot_ready(r))
            &&& (l is None ==> i < k.0 < q.len() && q[k.0].src == Some(Ref(i as usize, false)))
            &&& (r is None ==> i < k.1 < q.len() && q[k.1].src == Some(Ref(i as usize, true)))
        },
    }
}

/// The applications that frame `i` still has to complete, its children's
/// apart.
pub(crate) open spec fn frame_work<Leaf, A: LeafApplicator<Leaf>>(
    a: A,
    q: Seq<Frame<Leaf, A>>,
    kids: Seq<(int, int)>,
    vals: Seq<Leaf>,
    i: int,
) -> nat {
    let w = work(a, frame_app(a, q[i].innr, kids[i], vals)) + 1;
    match q[i].innr {
        InFrame::Task(_) => w,
        InFrame::Hold((l, r)) => slot_work(a, l) + slot_work(a, r) + w,
    }
}

/// Frame `j` is the root, the first frame, or it refers to an earlier hold
/// whose selected slot is empty and computed by `j`.
pub(crate) open spec fn parent_ok<Leaf, A: LeafApplicator<Leaf>>(
    q: Seq<Frame<Leaf, A>>,
    kids: Seq<(int, int)>,
    j: int,
) -> bool {
    match q[j].src {
        None => j == 0,
        Some(rf) => {
            &&& rf.0 < j
            &&& q[rf.0 as int].innr matches InFrame::Hold((l, r))
            &&& if rf.1 {
                r is None && kids[rf.0 as int].1 == j
            } else {
                l is None && kids[rf.0 as int].0 == j
            }
        },
    }
}

/// The invariants of a queue.
pub(crate) open spec fn queue_ok<Leaf, A: LeafApplicator<Leaf>>(
    a: A,
    q: Seq<Frame<Leaf, A>>,
    kids: Seq<(int, int)>,
    vals: Seq<Leaf>,
) -> bool {
    &&& q.len() == kids.len()
    &&& q.len() == vals.len()
    &&& 1 <= q.len() <= usize::MAX
    &&& forall|j: int| 0 <= j < q.len() ==> #[trigger] parent_ok(q, kids, j)
    &&& forall|j: int| 0 <= j < q.len() ==> #[trigger] frame_ok(a, q, kids, vals, j)
}

/// A frame holds no branch.
pub(crate) open spec fn flat<Leaf, A: LeafApplicator<Leaf>>(f: InFrame<Leaf, A>) -> bool {
    match f {
        InFrame::Task(_) => true,
        InFrame::Hold((l, r)) => !slot_branch(l) && !slot_branch(r),
    }
}

/// expanded-hold below `n`.
pub(crate) open spec fn expanded<Leaf, A: LeafApplicator<Leaf>>(
    q: Seq<Frame<Leaf, A>>,
    n: int,
) -> bool {
    forall|i: int| 0 <= i < n ==> #[trigger] flat(q[i].innr)
}

pub(crate) open spec fn work_terms<Leaf, A: LeafApplicator<Leaf>>(
    a: A,
    q: Seq<Frame<Leaf, A>>,
    kids: Seq<(int, int)>,
    vals: Seq<Leaf>,
) -> spec_fn(int) -> nat {
    |i: int| frame_work(a, q, kids, vals, i)
}

/// The applications that the queue still has to complete.
pub(crate) open spec fn total_work<Leaf, A: LeafApplicator<Leaf>>(
    a: A,
    q: Seq<Frame<Leaf, A>>,
    kids: Seq<(int, int)>,
    vals: Seq<Leaf>,
) -> nat {
    sum_to(work_terms(a, q, kids, vals), q.len() as int)
}

pub(crate) open spec fn node_terms<Leaf, A: LeafApplicator<Leaf>>(
    q: Seq<Frame<Leaf, A>>,
) -> spec_fn(int) -> nat {
    |i: int| frame_nodes(q[i].innr)
}

/// Brc nodes still to be taken out of the queue's slots.
pub(crate) open spec fn total_nodes<Leaf, A: LeafApplicator<Leaf>>(
    q: Seq<Frame<Leaf, A>>,
) -> nat {
    sum_to(node_terms(q), q.len() as int)
}

// ---------------------------------------------------------------------------
// Steps of the queue
// ---------------------------------------------------------------------------

/// The frame that [`InFrame::new`] makes of a branch that evaluates stands
/// for its value, holds what evaluates, and has all of its work.
proof fn lemma_fresh<Leaf, A: LeafApplicator<Leaf>>(
    a: A,
    b: (Tree<Leaf>, Tree<Leaf>),
    c: InFrame<Leaf, A>,
    kid: (int, int),
    vals: Seq<Leaf>,
)
    requires
        evaluates(a, Tree::Brc(Box::new(b))),
        fresh(a, b, c),
    ensures
        evaluates(a, frame_app(a, c, kid, vals)),
        value(a, frame_app(a, c, kid, vals)) == value(a, Tree::Brc(Box::new(b))),
        work(a, Tree::Brc(Box::new(b))) == work(a, frame_app(a, c, kid, vals)) + 1 + match c {
            InFrame::Task(_) => 0nat,
            InFrame::Hold((l, r)) => slot_work(a, l) + slot_work(a, r),
        },
        match c {
            InFrame::Task(_) => true,
            InFrame::Hold((l, r)) => l == Some(b.0) && r == Some(b.1) && !(slot_ready(l)
                && slot_ready(r)),
        },
        frame_nodes(c) + 1 == tree_nodes(Tree::Brc(Box::new(b))),
        evaluates(a, b.0),
        evaluates(a, b.1),
{
    lemma_branch(a, b);
    match c {
        InFrame::Task(t) => {
            lemma_leaf(a, slot_leaf(Some(b.0)));
            lemma_leaf(a, slot_leaf(Some(b.1)));
            assert(tree_nodes(b.0) == 0);
            assert(tree_nodes(b.1) == 0);
        },
        InFrame::Hold(_) => {},
    }
}

/// The branch in slot `side` of hold `p` taken out to a new last frame `c`
/// keeps the invariants and the work, and takes one node out.
proof fn lemma_detach<Leaf, A: LeafApplicator<Leaf>>(
    a: A,
    q: Seq<Frame<Leaf, A>>,
    kids: Seq<(int, int)>,
    vals: Seq<Leaf>,
    p: int,
    side: bool,
    c: InFrame<Leaf, A>,
)
    requires
        queue_ok(a, q, kids, vals),
        q.len() < usize::MAX,
        0 <= p < q.len(),
        q[p].innr matches InFrame::Hold((l, r)) && slot_branch(if side {
            r
        } else {
            l
        }),
        fresh(a, slot_branch_of(detached_slot(q[p].innr, side)), c),
    ensures
        queue_ok(
            a,
            detach_q(q, p, side, c),
            detach_kids(q, kids, p, side),
            detach_vals(a, q, vals, p, side),
        ),
        total_work(
            a,
            detach_q(q, p, side, c),
            detach_kids(q, kids, p, side),
            detach_vals(a, q, vals, p, side),
        ) == total_work(a, q, kids, vals),
        total_nodes(detach_q(q, p, side, c)) + 1 == total_nodes(q),
{
    let n = q.len() as int;
    let q2 = detach_q(q, p, side, c);
    let k2 = detach_kids(q, kids, p, side);
    let v2 = detach_vals(a, q, vals, p, side);
    let b = slot_branch_of(detached_slot(q[p].innr, side));
    let bt = Tree::Brc(Box::new(b));
    assert(frame_ok(a, q, kids, vals, p));
    assert(slot_ok(a, detached_slot(q[p].innr, side)));
    assert(evaluates(a, bt));
    lemma_fresh(a, b, c, k2[n], v2);
    assert(q2[p].src == q[p].src);
    assert(v2[n] == value(a, bt));
    assert(frame_app(a, q2[p].innr, k2[p], v2) == frame_app(a, q[p].innr, kids[p], vals));
    assert(q2[n].src == Some(Ref(p as usize, side)));
    assert(q2[p].innr == emptied(q[p].innr, side));
    assert forall|j: int| 0 <= j < q2.len() implies #[trigger] parent_ok(q2, k2, j) by {
        if j < n {
            assert(parent_ok(q, kids, j));
            assert(q2[j].src == q[j].src);
            match q[j].src {
                Some(rf) => {
                    let pp = rf.0 as int;
                    if pp != p {
                        assert(q2[pp] == q[pp]);
                        assert(k2[pp] == kids[pp]);
                    } else {
                        assert(rf.1 != side);
                    }
                },
                None => {},
            }
        }
    }
    assert forall|j: int| 0 <= j < q2.len() implies #[trigger] frame_ok(a, q2, k2, v2, j) by {
        if j < n && j != p {
            assert(frame_ok(a, q, kids, vals, j));
            assert(q2[j] == q[j]);
            assert(k2[j] == kids[j]);
            match q[j].innr {
                InFrame::Hold((l, r)) => {
                    if l is None {
                        assert(q2[kids[j].0].src == q[kids[j].0].src);
                        assert(v2[kids[j].0] == vals[kids[j].0]);
                    }
                    if r is None {
                        assert(q2[kids[j].1].src == q[kids[j].1].src);
                        assert(v2[kids[j].1] == vals[kids[j].1]);
                    }
                },
                _ => {},
            }
            assert(frame_app(a, q2[j].innr, k2[j], v2) == frame_app(a, q[j].innr, kids[j], vals));
        } else if j == p {
            match q[p].innr {
                InFrame::Hold((l, r)) => {
                    if side {
                        if l is None {
                            assert(q2[kids[p].0].src == q[kids[p].0].src);
                        }
                    } else {
                        if r is None {
                            assert(q2[kids[p].1].src == q[kids[p].1].src);
                        }
                    }
                },
                _ => {},
            }
        } else {
            assert(j == n);
        }
    }
    let wf = work_terms(a, q, kids, vals);
    let wg = work_terms(a, q2, k2, v2);
    assert forall|i: int| 0 <= i < n && i != p implies wf(i) == #[trigger] wg(i) by {
        assert(frame_ok(a, q, kids, vals, i));
        assert(q2[i] == q[i]);
        assert(frame_app(a, q2[i].innr, k2[i], v2) == frame_app(a, q[i].innr, kids[i], vals));
    }
    lemma_sum_update(wf, wg, n, p);
    let nf = node_terms(q);
    let ng = node_terms(q2);
    assert forall|i: int| 0 <= i < n && i != p implies nf(i) == #[trigger] ng(i) by {
        assert(q2[i] == q[i]);
    }
    lemma_sum_update(nf, ng, n, p);
}

/// The slot `side` of a hold.
pub(crate) open spec fn detached_slot<Leaf, A: LeafApplicator<Leaf>>(
    f: InFrame<Leaf, A>,
    side: bool,
) -> Option<Tree<Leaf>> {
    match f {
        InFrame::Hold((l, r)) => if side {
            r
        } else {
            l
        },
        InFrame::Task(_) => None,
    }
}

/// A hold with the slot `side` emptied.
pub(crate) open spec fn emptied<Leaf, A: LeafApplicator<Leaf>>(
    f: InFrame<Leaf, A>,
    side: bool,
) -> InFrame<Leaf, A> {
    match f {
        InFrame::Hold((l, r)) => if side {
            InFrame::Hold((l, None))
        } else {
            InFrame::Hold((None, r))
        },
        InFrame::Task(t) => InFrame::Task(t),
    }
}

pub(crate) open spec fn detach_q<Leaf, A: LeafApplicator<Leaf>>(
    q: Seq<Frame<Leaf, A>>,
    p: int,
    side: bool,
    c: InFrame<Leaf, A>,
) -> Seq<Frame<Leaf, A>> {
    q.update(p, Frame { src: q[p].src, innr: emptied(q[p].innr, side) }).push(
        Frame { src: Some(Ref(p as usize, side)), innr: c },
    )
}

pub(crate) open spec fn detach_kids<Leaf, A: LeafApplicator<Leaf>>(
    q: Seq<Frame<Leaf, A>>,
    kids: Seq<(int, int)>,
    p: int,
    side: bool,
) -> Seq<(int, int)> {
    let n = q.len() as int;
    kids.update(
        p,
        if side {
            (kids[p].0, n)
        } else {
            (n, kids[p].1)
        },
    ).push((0, 0))
}

pub(crate) open spec fn detach_vals<Leaf, A: LeafApplicator<Leaf>>(
    a: A,
    q: Seq<Frame<Leaf, A>>,
    vals: Seq<Leaf>,
    p: int,
    side: bool,
) -> Seq<Leaf> {
    vals.push(value(a, detached_slot(q[p].innr, side)->0))
}

/// top-task: in an expanded queue the last frame is a task, since a hold
/// waits on a later child.
proof fn lemma_top_task<Leaf, A: LeafApplicator<Leaf>>(
    a: A,
    q: Seq<Frame<Leaf, A>>,
    kids: Seq<(int, int)>,
    vals: Seq<Leaf>,
)
    requires
        queue_ok(a, q, kids, vals),
        expanded(q, q.len() as int),
    ensures
        q.last().innr is Task,
{
    let n = q.len() as int;
    assert(frame_ok(a, q, kids, vals, n - 1));
    assert(flat(q[n - 1].innr));
}

/// The last frame, a task whose application came to the leaf `o`, popped and
/// `o` filled into its parent: the invariants hold and one application less
/// is left.
proof fn lemma_fill<Leaf, A: LeafApplicator<Leaf>>(
    a: A,
    q: Seq<Frame<Leaf, A>>,
    kids: Seq<(int, int)>,
    vals: Seq<Leaf>,
    o: Leaf,
    nf: InFrame<Leaf, A>,
)
    requires
        queue_ok(a, q, kids, vals),
        expanded(q, q.len() as int),
        q.last().innr matches InFrame::Task(t) && a.application(
            a.task_operands(t).0,
            a.task_operands(t).1,
        ) == Tree::Lea(o),
        q.last().src matches Some(rf) && readied(a, filled(q[rf.0 as int].innr, rf, o), nf),
    ensures
        queue_ok(
            a,
            fill_q(q, nf),
            kids.drop_last(),
            vals.drop_last(),
        ),
        expanded(fill_q(q, nf), q.len() - 1),
        total_work(a, fill_q(q, nf), kids.drop_last(), vals.drop_last()) + 1 == total_work(
            a,
            q,
            kids,
            vals,
        ),
{
    let n = q.len() as int;
    let j = n - 1;
    let rf = q[j].src->0;
    let p = rf.0 as int;
    let q2 = fill_q(q, nf);
    let k2 = kids.drop_last();
    let v2 = vals.drop_last();
    assert(parent_ok(q, kids, j));
    assert(frame_ok(a, q, kids, vals, j));
    assert(frame_ok(a, q, kids, vals, p));
    assert(flat(q[p].innr));
    lemma_leaf(a, o);
    assert(vals[j] == o);
    assert(frame_app(a, nf, k2[p], v2) == frame_app(a, q[p].innr, kids[p], vals)) by {
        let other = if rf.1 { kids[p].0 } else { kids[p].1 };
        match q[p].innr {
            InFrame::Hold((l, r)) => {
                if rf.1 {
                    if l is None {
                        assert(parent_ok(q, kids, kids[p].0));
                    }
                } else {
                    if r is None {
                        assert(parent_ok(q, kids, kids[p].1));
                    }
                }
                match nf {
                    InFrame::Task(t) => {
                        lemma_leaf(a, slot_leaf(l));
                        lemma_leaf(a, slot_leaf(r));
                    },
                    _ => {},
                }
            },
            _ => {},
        }
    }
    assert forall|i: int| 0 <= i < q2.len() implies #[trigger] parent_ok(q2, k2, i) by {
        assert(parent_ok(q, kids, i));
        match q[i].src {
            Some(r2) => if r2.0 as int == p {
                assert(r2.1 != rf.1);
            },
            None => {},
        }
    }
    assert forall|i: int| 0 <= i < q2.len() implies #[trigger] frame_ok(a, q2, k2, v2, i) by {
        assert(frame_ok(a, q, kids, vals, i));
        if i != p {
            assert(q2[i] == q[i]);
            match q[i].innr {
                InFrame::Hold((l, r)) => {
                    if l is None {
                        assert(q[kids[i].0].src == Some(Ref(i as usize, false)));
                        assert(kids[i].0 != j);
                    }
                    if r is None {
                        assert(q[kids[i].1].src == Some(Ref(i as usize, true)));
                        assert(kids[i].1 != j);
                    }
                },
                _ => {},
            }
            assert(frame_app(a, q2[i].innr, k2[i], v2) == frame_app(
                a,
                q[i].innr,
                kids[i],
                vals,
            ));
        } else {
            match q[p].innr {
                InFrame::Hold((l, r)) => {
                    if rf.1 {
                        if l is None {
                            assert(q[kids[p].0].src == Some(Ref(p as usize, false)));
                            assert(kids[p].0 != j);
                        }
                    } else {
                        if r is None {
                            assert(q[kids[p].1].src == Some(Ref(p as usize, true)));
                            assert(kids[p].1 != j);
                        }
                    }
                },
                _ => {},
            }
        }
    }
    assert forall|i: int| 0 <= i < q2.len() implies #[trigger] flat(q2[i].innr) by {
        assert(flat(q[i].innr));
    }
    let wf = work_terms(a, q, kids, vals);
    let wg = work_terms(a, q2, k2, v2);
    assert forall|i: int| 0 <= i < j implies #[trigger] wf(i) == wg(i) by {
        assert(frame_ok(a, q, kids, vals, i));
        if i != p {
            assert(q2[i] == q[i]);
            match q[i].innr {
                InFrame::Hold((l, r)) => {
                    if l is None {
                        assert(q[kids[i].0].src == Some(Ref(i as usize, false)));
                        assert(kids[i].0 != j);
                    }
                    if r is None {
                        assert(q[kids[i].1].src == Some(Ref(i as usize, true)));
                        assert(kids[i].1 != j);
                    }
                },
                _ => {},
            }
            assert(frame_app(a, q2[i].innr, k2[i], v2) == frame_app(
                a,
                q[i].innr,
                kids[i],
                vals,
            ));
        } else {
            match nf {
                InFrame::Task(t) => {
                    lemma_leaf(a, slot_leaf(Some(Tree::Lea(o))));
                },
                _ => {},
            }
        }
    }
    lemma_sum_ext(wf, wg, j);
    assert(wf(j) == 1);
}

pub(crate) open spec fn fill_q<Leaf, A: LeafApplicator<Leaf>>(
    q: Seq<Frame<Leaf, A>>,
    nf: InFrame<Leaf, A>,
) -> Seq<Frame<Leaf, A>> {
    let rf = q.last().src->0;
    q.drop_last().update(rf.0 as int, Frame { src: q[rf.0 as int].src, innr: nf })
}

/// The last frame, a task whose application came to the branch `b`, replaced
/// by the fresh frame `c` of that branch: the invariants hold but for
/// expansion of the new frame, and one application less is left.
proof fn lemma_replace<Leaf, A: LeafApplicator<Leaf>>(
    a: A,
    q: Seq<Frame<Leaf, A>>,
    kids: Seq<(int, int)>,
    vals: Seq<Leaf>,
    b: (Tree<Leaf>, Tree<Leaf>),
    c: InFrame<Leaf, A>,
)
    requires
        queue_ok(a, q, kids, vals),
        expanded(q, q.len() as int),
        q.last().innr matches InFrame::Task(t) && a.application(
            a.task_operands(t).0,
            a.task_operands(t).1,
        ) == Tree::Brc(Box::new(b)),
        fresh(a, b, c),
    ensures
        queue_ok(a, replace_q(q, c), kids, vals),
        expanded(replace_q(q, c), q.len() - 1),
        total_work(a, replace_q(q, c), kids, vals) + 1 == total_work(a, q, kids, vals),
{
    let n = q.len() as int;
    let j = n - 1;
    let q2 = replace_q(q, c);
    assert(frame_ok(a, q, kids, vals, j));
    lemma_fresh(a, b, c, kids[j], vals);
    assert forall|i: int| 0 <= i < q2.len() implies #[trigger] parent_ok(q2, kids, i) by {
        assert(parent_ok(q, kids, i));
    }
    assert forall|i: int| 0 <= i < q2.len() implies #[trigger] frame_ok(a, q2, kids, vals, i) by {
        assert(frame_ok(a, q, kids, vals, i));
        if i != j {
            assert(q2[i] == q[i]);
            match q[i].innr {
                InFrame::Hold((l, r)) => {
                    if l is None {
                        assert(parent_ok(q, kids, kids[i].0));
                    }
                    if r is None {
                        assert(parent_ok(q, kids, kids[i].1));
                    }
                },
                _ => {},
            }
        }
    }
    assert forall|i: int| 0 <= i < j implies #[trigger] flat(q2[i].innr) by {
        assert(flat(q[i].innr));
    }
    let wf = work_terms(a, q, kids, vals);
    let wg = work_terms(a, q2, kids, vals);
    assert forall|i: int| 0 <= i < n && i != j implies wf(i) == #[trigger] wg(i) by {
        assert(q2[i] == q[i]);
    }
    lemma_sum_update(wf, wg, n, j);
}

pub(crate) open spec fn replace_q<Leaf, A: LeafApplicator<Leaf>>(
    q: Seq<Frame<Leaf, A>>,
    c: InFrame<Leaf, A>,
) -> Seq<Frame<Leaf, A>> {
    q.update(q.len() - 1, Frame { src: q.last().src, innr: c })
}

// ---------------------------------------------------------------------------
// The queue
// ---------------------------------------------------------------------------

/// The frames, and as ghost state the children that compute each frame's
/// empty slots and the leaf that each frame evaluates to.
pub(crate) struct FrameQ<Leaf, A: LeafApplicator<Leaf>>(
    pub(crate) Vec<Frame<Leaf, A>>,
    pub(crate) Ghost<Seq<(int, int)>>,
    pub(crate) Ghost<Seq<Leaf>>,
);

impl<Leaf, A: LeafApplicator<Leaf>> FrameQ<Leaf, A> {
    pub(crate) open spec fn well(&self, a: A) -> bool {
        queue_ok(a, self.0@, self.1@, self.2@)
    }

    pub(crate) open spec fn work_left(&self, a: A) -> nat {
        total_work(a, self.0@, self.1@, self.2@)
    }

    /// Establishes the unique root continuation.
    pub(crate) fn new(b: (Tree<Leaf>, Tree<Leaf>), ator: &A) -> (r: Self)
        requires
            evaluates(*ator, Tree::Brc(Box::new(b))),
        ensures
            r.well(*ator),
            r.0@.len() == 1,
            r.0@[0].src is None,
            fresh(*ator, b, r.0@[0].innr),
            r.2@[0] == value(*ator, Tree::Brc(Box::new(b))),
    {
        let ghost bt = Tree::Brc(Box::new(b));
        let ghost b2 = b;
        let innr = InFrame::new(b, ator);
        proof {
            lemma_fresh(*ator, b2, innr, (0, 0), Seq::empty().push(value(*ator, bt)));
        }
        let q = vec![Frame { src: None, innr }];
        let ghost kids = Seq::empty().push((0int, 0int));
        let ghost vals = Seq::empty().push(value(*ator, bt));
        let r = FrameQ(q, Ghost(kids), Ghost(vals));
        assert(parent_ok(r.0@, r.1@, 0));
        assert(frame_ok(*ator, r.0@, r.1@, r.2@, 0));
        r
    }

    /// Requires a non-empty queue, expanded but for its last frame.
    ///
    /// Extracts every branch held in the frames from the last on:
    /// establishes expanded-hold, preserves parent-before-child, and
    /// preserves or establishes child-slot; with the other invariants that
    /// gives top-task.
    fn expand(&mut self, ator: &A)
        requires
            old(self).well(*ator),
            expanded(old(self).0@, old(self).0@.len() - 1),
        ensures
            final(self).well(*ator),
            expanded(final(self).0@, final(self).0@.len() as int),
            final(self).2@[0] == old(self).2@[0],
            final(self).work_left(*ator) == old(self).work_left(*ator),
            old(self).0@.len() <= final(self).0@.len(),
            forall|i: int|
                0 <= i < old(self).0@.len() - 1 ==> #[trigger] final(self).0@[i] == old(self).0@[i],
            forall|j: int|
                old(self).0@.len() <= j < final(self).0@.len() ==> ((#[trigger] final(self).0@[j]).src
                    matches Some(rf) && old(self).0@.len() - 1 <= rf.0),
    {
        // Non-empty at both call sites: the initial FrameQ::new, and the
        // returned Brc after the replacement push.
        let ghost a = *ator;
        let ghost v0 = self.2@[0];
        let ghost w0 = self.work_left(a);
        let ghost qi = self.0@;
        let mut idx = self.0.len() - 1;
        while idx < self.0.len()
            invariant
                self.well(a),
                a == *ator,
                idx <= self.0@.len(),
                expanded(self.0@, idx as int),
                self.2@[0] == v0,
                self.work_left(a) == w0,
                qi.len() <= self.0@.len(),
                qi.len() - 1 <= idx,
                forall|i: int| 0 <= i < qi.len() - 1 ==> #[trigger] self.0@[i] == qi[i],
                forall|j: int|
                    qi.len() <= j < self.0@.len() ==> ((#[trigger] self.0@[j]).src matches Some(rf)
                        && qi.len() - 1 <= rf.0),
            decreases (self.0@.len() - idx) + 2 * total_nodes(self.0@),
        {
            let ghost q0 = self.0@;
            let ghost k0 = self.1@;
            let ghost vs0 = self.2@;
            let (lc, rc) = self.0[idx].innr.children(ator);
            let ghost lcg = lc;
            let ghost rcg = rc;
            let ghost qc = self.0@;
            proof {
                assert(frame_ok(a, q0, k0, vs0, idx as int));
                assert(qc == q0.update(idx as int, Frame { src: q0[idx as int].src, innr: qc[idx as int].innr }));
            }
            if let Some(innr) = lc {
                // Detach the left branch; push the child after its parent.
                self.0.push(Frame { src: Some(Ref::left(idx)), innr });
                proof {
                    vstd::std_specs::vec::axiom_spec_len(&self.0);
                }
                self.1 = Ghost(detach_kids(q0, k0, idx as int, false));
                self.2 = Ghost(detach_vals(a, q0, vs0, idx as int, false));
            }
            let ghost q1 = if lcg is Some {
                detach_q(q0, idx as int, false, lcg->0)
            } else {
                q0
            };
            let ghost k1 = self.1@;
            let ghost vs1 = self.2@;
            proof {
                if lcg is Some {
                    lemma_detach(a, q0, k0, vs0, idx as int, false, lcg->0);
                }
            }
            if let Some(innr) = rc {
                // Likewise the right branch.
                self.0.push(Frame { src: Some(Ref::right(idx)), innr });
                proof {
                    vstd::std_specs::vec::axiom_spec_len(&self.0);
                }
                self.1 = Ghost(detach_kids(q1, k1, idx as int, true));
                self.2 = Ghost(detach_vals(a, q1, vs1, idx as int, true));
            }
            proof {
                if rcg is Some {
                    lemma_detach(a, q1, k1, vs1, idx as int, true, rcg->0);
                }
                let q2 = if rcg is Some {
                    detach_q(q1, idx as int, true, rcg->0)
                } else {
                    q1
                };
                assert(self.0@ =~= q2);
                assert forall|i: int| 0 <= i <= idx implies #[trigger] flat(self.0@[i].innr) by {
                    if i < idx {
                        assert(flat(q0[i].innr));
                    }
                }
            }
            idx += 1;
        }
        // No live hold holds a branch: expanded-hold. A hold cannot hold two
        // leaves (ready-is-task), so the topmost hold has an empty slot, and
        // child-slot puts a live child above it; so the top frame is a task:
        // top-task.
    }

    /// Normalises the queue to the leaf of its root.
    pub(crate) fn reduce(&mut self, ator: &A) -> (r: Leaf)
        requires
            old(self).well(*ator),
            expanded(old(self).0@, old(self).0@.len() - 1),
        ensures
            r == old(self).2@[0],
            final(self).0@.len() == 0,
    {
        let ghost a = *ator;
        let ghost v0 = self.2@[0];
        self.expand(ator);
        loop
            invariant
                self.well(a),
                a == *ator,
                expanded(self.0@, self.0@.len() as int),
                self.2@[0] == v0,
                v0 == old(self).2@[0],
            decreases self.work_left(a),
        {
            proof {
                lemma_top_task(a, self.0@, self.1@, self.2@);
            }
            let ghost q0 = self.0@;
            let ghost k0 = self.1@;
            let ghost vs0 = self.2@;
            let Frame { src, innr } = self.0.pop().unwrap();
            match innr {
                // FrameQ-inv-top-task
                InFrame::Task(tsk) => match ator.completed(tsk) {
                    Tree::Lea(o) => match src {
                        // parent-before-child: the parent survives the child's
                        // pop; child-slot: the referenced slot is empty.
                        Some(rf) => {
                            proof {
                                assert(parent_ok(q0, k0, q0.len() - 1));
                            }
                            rf.frame(&mut self.0).innr.fill_slot(rf, o, ator);
                            proof {
                                let nf = self.0@[rf.0 as int].innr;
                                lemma_fill(a, q0, k0, vs0, o, nf);
                                assert(self.0@ =~= fill_q(q0, nf));
                                self.1@ = k0.drop_last();
                                self.2@ = vs0.drop_last();
                            }
                        },
                        // The root continuation is complete.
                        None => {
                            proof {
                                assert(parent_ok(q0, k0, q0.len() - 1));
                                assert(q0.len() == 1);
                                assert(frame_ok(a, q0, k0, vs0, 0));
                                lemma_leaf(a, o);
                                assert(vs0[0] == o);
                            }
                            return o;
                        },
                    },
                    Tree::Brc(b) => {
                        let ghost bb = *b;
                        // Replace the computation; keep the continuation.
                        self.0.push(Frame { src, innr: InFrame::new(*b, ator) });
                        proof {
                            let c = self.0@.last().innr;
                            lemma_replace(a, q0, k0, vs0, bb, c);
                            assert(self.0@ =~= replace_q(q0, c));
                        }
                        // Re-establish expanded-hold and top-task.
                        self.expand(ator);
                    },
                },
                _ => {
                    proof {
                        assert(false);
                    }
                },
            }
        }
    }
}

} // verus!
