use lome::lang::lol;
use lome::lome_calc::Expr;

fn hyp(id: u64) -> Expr {
    Expr::Hyp(id)
}

fn rul(m: Expr, b: Expr) -> Expr {
    Expr::Rul { m: Box::new(m), b: Box::new(b) }
}

fn app(f: Expr, x: Expr) -> Expr {
    Expr::Mod { f: Box::new(f), x: Box::new(x) }
}

#[test]
fn hypothesis_is_left_as_it_is() {
    let mut e = hyp(3);
    assert_eq!(e.norm(), Ok(false));
    assert!(e == hyp(3));
}

#[test]
fn rule_is_left_as_it_is() {
    let orig = rul(hyp(1), app(rul(hyp(2), hyp(2)), hyp(5)));
    let mut e = orig.clone();
    assert_eq!(e.norm(), Ok(false));
    assert!(e == orig);
}

#[test]
fn identity_rule_gives_its_argument() {
    let mut e = app(rul(hyp(1), hyp(1)), hyp(7));
    assert_eq!(e.norm(), Ok(true));
    assert!(e == hyp(7));
}

#[test]
fn pattern_binds_the_parts_of_the_argument() {
    // ((1) (2)) -> (2) applied to (5) (6) gives 6.
    let mut e = app(rul(app(hyp(1), hyp(2)), hyp(2)), app(hyp(5), hyp(6)));
    assert_eq!(e.norm(), Ok(true));
    assert!(e == hyp(6));
}

#[test]
fn free_hypotheses_stay() {
    // (1) -> ((1) (42)) applied to 3 gives (3) (42).
    let mut e = app(rul(hyp(1), app(hyp(1), hyp(42))), hyp(3));
    assert_eq!(e.norm(), Ok(true));
    assert!(e == app(hyp(3), hyp(42)));
}

#[test]
fn repeated_hypothesis_needs_equal_parts() {
    // ((1) (1)) -> (1) applied to (5) (5) gives 5.
    let mut e = app(rul(app(hyp(1), hyp(1)), hyp(1)), app(hyp(5), hyp(5)));
    assert_eq!(e.norm(), Ok(true));
    assert!(e == hyp(5));
}

#[test]
fn repeated_hypothesis_with_different_parts_fails() {
    let mut e = app(rul(app(hyp(1), hyp(1)), hyp(1)), app(hyp(5), hyp(6)));
    assert_eq!(e.norm(), Err(()));
    // The pattern and the matched parts are tombstones; the body stays.
    assert!(e == app(rul(Expr::Taken, hyp(1)), app(Expr::Taken, Expr::Taken)));
}

#[test]
fn argument_of_the_wrong_shape_fails() {
    let mut e = app(rul(app(hyp(1), hyp(2)), hyp(1)), hyp(5));
    assert_eq!(e.norm(), Err(()));
    assert!(e == app(rul(Expr::Taken, hyp(1)), hyp(5)));
}

#[test]
fn rule_pattern_matches_a_rule_argument() {
    // ((1) -> (2)) -> (1) applied to (8) -> (9) gives 8.
    let mut e = app(rul(rul(hyp(1), hyp(2)), hyp(1)), rul(hyp(8), hyp(9)));
    assert_eq!(e.norm(), Ok(true));
    assert!(e == hyp(8));
}

#[test]
fn argument_is_normalised_before_the_match() {
    // The argument ((1) -> (1)) (4) normalises to 4 first.
    let mut e = app(rul(hyp(2), app(hyp(2), hyp(2))), app(rul(hyp(1), hyp(1)), hyp(4)));
    assert_eq!(e.norm(), Ok(true));
    assert!(e == app(hyp(4), hyp(4)));
}

#[test]
fn operator_that_becomes_a_rule_is_applied() {
    // (((1) -> (1)) ((2) -> (2))) (9): the operator normalises to (2) -> (2),
    // which is then applied to 9.
    let mut e = app(app(rul(hyp(1), hyp(1)), rul(hyp(2), hyp(2))), hyp(9));
    assert_eq!(e.norm(), Ok(true));
    assert!(e == hyp(9));
}

#[test]
fn operator_without_a_rule_is_passed_on() {
    let orig = app(app(hyp(1), hyp(2)), app(rul(hyp(3), hyp(3)), hyp(4)));
    let mut e = orig.clone();
    assert_eq!(e.norm(), Ok(false));
    assert!(e == orig);
}

#[test]
fn normalising_twice_changes_nothing_more() {
    let mut e = app(app(rul(hyp(1), hyp(1)), rul(hyp(2), app(hyp(2), hyp(7)))), hyp(9));
    assert_eq!(e.norm(), Ok(true));
    let once = e.clone();
    assert_eq!(e.norm(), Ok(false));
    assert!(e == once);
}

#[test]
fn tombstone_in_the_argument_is_carried() {
    let mut e = app(rul(hyp(1), hyp(1)), Expr::Taken);
    assert_eq!(e.norm(), Ok(true));
    assert!(e == Expr::Taken);
}

#[test]
fn render_writes_rules_applications_and_hypotheses() {
    assert_eq!(rul(hyp(1), hyp(2)).render(), "(1) -> (2)");
    assert_eq!(app(hyp(10), hyp(0)).render(), "(10) (0)");
    assert_eq!(app(rul(hyp(1), hyp(1)), hyp(12345)).render(), "((1) -> (1)) (12345)");
    assert_eq!(Expr::Taken.render(), "<TAKEN>");
    assert_eq!(hyp(u64::MAX).render(), "18446744073709551615");
}

#[test]
fn clone_is_equal() {
    let e = app(rul(hyp(1), Expr::Taken), hyp(2));
    assert!(e.clone() == e);
}

#[test]
fn lol_sets_up_a_context() {
    lol();
}
