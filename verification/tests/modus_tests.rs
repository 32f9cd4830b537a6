use lome::modus::{LeafApplicator, Tree};

/// Adds the operand to the operator.
struct Adder;

impl LeafApplicator<u64> for Adder {
    type ApplicatorTask = (u64, u64);

    fn application(&self, operator: u64, operand: u64) -> Tree<u64> {
        Tree::Lea(operator + operand)
    }

    fn task_operands(&self, task: (u64, u64)) -> (u64, u64) {
        task
    }

    fn apply(&self, operator: u64, operand: u64) -> (u64, u64) {
        (operator, operand)
    }

    fn completed(&self, task: (u64, u64)) -> Tree<u64> {
        Tree::Lea(task.0 + task.1)
    }
}

/// Counts the operator down to zero, moving one unit to the operand at each
/// step: applying `n` to `x` stands for the branch of `n - 1` and `x + 1`.
struct Mover;

impl LeafApplicator<u64> for Mover {
    type ApplicatorTask = (u64, u64);

    fn application(&self, operator: u64, operand: u64) -> Tree<u64> {
        self.completed((operator, operand))
    }

    fn task_operands(&self, task: (u64, u64)) -> (u64, u64) {
        task
    }

    fn apply(&self, operator: u64, operand: u64) -> (u64, u64) {
        (operator, operand)
    }

    fn completed(&self, task: (u64, u64)) -> Tree<u64> {
        if task.0 == 0 {
            Tree::Lea(task.1)
        } else {
            Tree::Brc(Box::new((Tree::Lea(task.0 - 1), Tree::Lea(task.1 + 1))))
        }
    }
}

fn lea(v: u64) -> Tree<u64> {
    Tree::Lea(v)
}

fn brc(a: Tree<u64>, b: Tree<u64>) -> Tree<u64> {
    Tree::Brc(Box::new((a, b)))
}

#[test]
fn leaf_normalises_to_itself() {
    assert_eq!(lea(7).norm(&Adder), 7);
}

#[test]
fn branch_of_two_leaves_is_applied() {
    assert_eq!(brc(lea(2), lea(3)).norm(&Adder), 5);
}

#[test]
fn nested_branches_are_applied_bottom_up() {
    let t = brc(brc(lea(1), lea(2)), brc(lea(3), brc(lea(4), lea(5))));
    assert_eq!(t.norm(&Adder), 15);
}

#[test]
fn left_deep_tree() {
    let mut t = lea(0);
    for i in 1..=50u64 {
        t = brc(t, lea(i));
    }
    assert_eq!(t.norm(&Adder), 1275);
}

#[test]
fn right_deep_tree() {
    let mut t = lea(0);
    for i in 1..=50u64 {
        t = brc(lea(i), t);
    }
    assert_eq!(t.norm(&Adder), 1275);
}

#[test]
fn applications_that_return_branches_are_reduced_again() {
    assert_eq!(brc(lea(3), lea(4)).norm(&Mover), 7);
}

#[test]
fn returned_branches_inside_a_tree() {
    let t = brc(brc(lea(2), lea(0)), brc(lea(1), lea(1)));
    // (2 0) -> 2, (1 1) -> 2, then (2 2) -> 4.
    assert_eq!(t.norm(&Mover), 4);
}

#[test]
fn from_leaf_and_from_pair() {
    let t: Tree<u64> = Tree::from(4u64);
    assert!(matches!(t, Tree::Lea(4)));
    let b: Tree<u64> = Tree::from((lea(1), lea(2)));
    assert_eq!(b.norm(&Adder), 3);
}

#[test]
fn clone_keeps_the_tree() {
    let t = brc(lea(6), brc(lea(7), lea(8)));
    let c = t.clone();
    assert_eq!(t.norm(&Adder), 21);
    assert_eq!(c.norm(&Adder), 21);
}
