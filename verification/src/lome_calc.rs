//! Expressions of the rule calculus and their in-place normalisation.
//!
//! A rule `Rul { m, b }` is an abstraction whose parameter is a *pattern* `m`;
//! applying it (`Mod { f: Rul { m, b }, x }`) matches the argument `x` against
//! `m`, binding the hypotheses of `m`, and continues with `b` under that
//! binding. Hypotheses that the pattern does not bind are free: axioms.
use vstd::prelude::*;

verus! {

/// Expression.
#[derive(PartialEq, Eq)]
pub enum Expr {
    /// Rule; abstraction with pattern `m` and body `b`.
    Rul { m: Box<Expr>, b: Box<Expr> },
    /// Modus ponens; application of `f` to `x`.
    Mod { f: Box<Expr>, x: Box<Expr> },
    /// Hypothesis; variable. Free variables are axioms.
    Hyp(u64),
    /// Tombstone: what is left where a part was taken out during a match or
    /// a substitution.
    Taken,
}

// ---------------------------------------------------------------------------
// Mathematical model
// ---------------------------------------------------------------------------

/// Whether a tombstone occurs anywhere in `e`.
pub open spec fn holds_taken(e: Expr) -> bool
    decreases e,
{
    match e {
        Expr::Rul { m, b } => holds_taken(*m) || holds_taken(*b),
        Expr::Mod { f, x } => holds_taken(*f) || holds_taken(*x),
        Expr::Hyp(_) => false,
        Expr::Taken => true,
    }
}

/// Whether every hypothesis of `e` is bound in `dom`.
pub open spec fn vars_within(e: Expr, dom: Set<u64>) -> bool
    decreases e,
{
    match e {
        Expr::Rul { m, b } => vars_within(*m, dom) && vars_within(*b, dom),
        Expr::Mod { f, x } => vars_within(*f, dom) && vars_within(*x, dom),
        Expr::Hyp(id) => dom.contains(id),
        Expr::Taken => true,
    }
}

/// `e[s]`: every hypothesis bound by `s` replaced by its value; free
/// hypotheses stay.
pub open spec fn subst(s: Map<u64, Expr>, e: Expr) -> Expr
    decreases e,
{
    match e {
        Expr::Rul { m, b } => Expr::Rul { m: Box::new(subst(s, *m)), b: Box::new(subst(s, *b)) },
        Expr::Mod { f, x } => Expr::Mod { f: Box::new(subst(s, *f)), x: Box::new(subst(s, *x)) },
        Expr::Hyp(id) => if s.contains_key(id) {
            s[id]
        } else {
            Expr::Hyp(id)
        },
        Expr::Taken => Expr::Taken,
    }
}

/// Binding `id` to `v` in `s`: a new hypothesis is bound; one already bound
/// agrees only with an equal value, and the binding stays as it was.
pub open spec fn bind(s: Map<u64, Expr>, id: u64, v: Expr) -> (bool, Map<u64, Expr>) {
    if s.contains_key(id) {
        (s[id] == v, s)
    } else {
        (true, s.insert(id, v))
    }
}

/// Matching `x` against the pattern `p`, starting from the bindings `s`:
/// whether it matches, and the bindings afterwards. Both halves of a rule or
/// an application are matched, left then right, whatever the left gave.
pub open spec fn match_pattern(s: Map<u64, Expr>, x: Expr, p: Expr) -> (bool, Map<u64, Expr>)
    decreases p,
{
    match p {
        Expr::Hyp(id) => bind(s, id, x),
        Expr::Rul { m: pm, b: pb } => match x {
            Expr::Rul { m: xm, b: xb } => {
                let (ok1, s1) = match_pattern(s, *xm, *pm);
                let (ok2, s2) = match_pattern(s1, *xb, *pb);
                (ok1 && ok2, s2)
            },
            _ => (false, s),
        },
        Expr::Mod { f: pf, x: px } => match x {
            Expr::Mod { f: xf, x: xx } => {
                let (ok1, s1) = match_pattern(s, *xf, *pf);
                let (ok2, s2) = match_pattern(s1, *xx, *px);
                (ok1 && ok2, s2)
            },
            _ => (false, s),
        },
        Expr::Taken => (false, s),
    }
}

/// What a match leaves of the matched expression `x`: every part that a
/// hypothesis of `p` took is a tombstone, the rest stays.
pub open spec fn match_leftover(x: Expr, p: Expr) -> Expr
    decreases p,
{
    match p {
        Expr::Hyp(_) => Expr::Taken,
        Expr::Rul { m: pm, b: pb } => match x {
            Expr::Rul { m: xm, b: xb } => Expr::Rul {
                m: Box::new(match_leftover(*xm, *pm)),
                b: Box::new(match_leftover(*xb, *pb)),
            },
            _ => x,
        },
        Expr::Mod { f: pf, x: px } => match x {
            Expr::Mod { f: xf, x: xx } => Expr::Mod {
                f: Box::new(match_leftover(*xf, *pf)),
                x: Box::new(match_leftover(*xx, *px)),
            },
            _ => x,
        },
        Expr::Taken => x,
    }
}

/// A result that reports a change: `Ok(_)` becomes `Ok(true)`, an error stays.
pub open spec fn changed(r: Result<bool, ()>) -> Result<bool, ()> {
    match r {
        Ok(_) => Ok(true),
        Err(e) => Err(e),
    }
}

/// Normalisation of `e` within `fuel` nested steps: the result and the
/// expression left in place, or `None` where `fuel` does not suffice or a
/// tombstone stands in a body that is substituted into.
///
/// - A rule, a hypothesis or a tombstone is left as it is: `Ok(false)`.
/// - `Mod { f: Rul { m, b }, x }`: `m` and `x` are normalised (call by value);
///   if both succeed and `x` matches `m`, the expression becomes `b` under the
///   bindings of the match and is normalised again: `Ok(true)` where that
///   succeeds. A failed match leaves the pattern a tombstone, `x` as the match
///   left it, and gives `Err(())`; so does an error of `m` or `x`.
/// - `Mod { f, x }` with `f` no rule: `f` is normalised; where that changed it,
///   the application is normalised again (`Ok(true)`), else the result of `f`
///   is passed on.
pub open spec fn normalize(e: Expr, fuel: nat) -> Option<(Result<bool, ()>, Expr)>
    decreases fuel,
{
    if fuel == 0 {
        None
    } else {
        let f1 = (fuel - 1) as nat;
        match e {
            Expr::Mod { f, x } => match *f {
                Expr::Rul { m, b } => match (normalize(*m, f1), normalize(*x, f1)) {
                    (Some((rm, m2)), Some((rx, x2))) => if rm is Ok && rx is Ok {
                        let (ok, s) = match_pattern(Map::empty(), x2, m2);
                        if !ok {
                            Some(
                                (
                                    Err(()),
                                    Expr::Mod {
                                        f: Box::new(Expr::Rul { m: Box::new(Expr::Taken), b }),
                                        x: Box::new(match_leftover(x2, m2)),
                                    },
                                ),
                            )
                        } else if holds_taken(*b) {
                            None
                        } else {
                            match normalize(subst(s, *b), f1) {
                                Some((r, e2)) => Some((changed(r), e2)),
                                None => None,
                            }
                        }
                    } else {
                        Some(
                            (
                                Err(()),
                                Expr::Mod {
                                    f: Box::new(Expr::Rul { m: Box::new(m2), b }),
                                    x: Box::new(x2),
                                },
                            ),
                        )
                    },
                    _ => None,
                },
                fv => match normalize(fv, f1) {
                    Some((Ok(true), f2)) => match normalize(
                        Expr::Mod { f: Box::new(f2), x },
                        f1,
                    ) {
                        Some((r, e2)) => Some((changed(r), e2)),
                        None => None,
                    },
                    Some((r, f2)) => Some((r, Expr::Mod { f: Box::new(f2), x })),
                    None => None,
                },
            },
            _ => Some((Ok(false), e)),
        }
    }
}

/// Whether normalising `e` returns (rather than run forever or meet a
/// tombstone in a body it substitutes into).
pub open spec fn normalizes(e: Expr) -> bool {
    exists|fuel: nat| #[trigger] normalize(e, fuel) is Some
}

/// Fuel enough to normalise `e`, where there is such.
pub open spec fn norm_fuel(e: Expr) -> nat {
    choose|fuel: nat| #[trigger] normalize(e, fuel) is Some
}

/// The result of normalising `e` and the expression it leaves.
pub open spec fn normal_form(e: Expr) -> (Result<bool, ()>, Expr) {
    normalize(e, norm_fuel(e)).unwrap()
}


/// The character of a decimal digit.
pub open spec fn digit_char(d: int) -> char {
    if d == 0 {
        '0'
    } else if d == 1 {
        '1'
    } else if d == 2 {
        '2'
    } else if d == 3 {
        '3'
    } else if d == 4 {
        '4'
    } else if d == 5 {
        '5'
    } else if d == 6 {
        '6'
    } else if d == 7 {
        '7'
    } else if d == 8 {
        '8'
    } else {
        '9'
    }
}

/// The decimal numeral of `n`.
pub open spec fn decimal(n: nat) -> Seq<char>
    decreases n,
{
    if n < 10 {
        seq![digit_char(n as int)]
    } else {
        decimal(n / 10) + seq![digit_char((n % 10) as int)]
    }
}

/// How an expression is written: `(m) -> (b)` for a rule, `(f) (x)` for an
/// application, the decimal id for a hypothesis, `<TAKEN>` for a tombstone.
pub open spec fn expr_text(e: Expr) -> Seq<char>
    decreases e,
{
    match e {
        Expr::Rul { m, b } => seq!['('] + expr_text(*m) + seq![')', ' ', '-', '>', ' ', '(']
            + expr_text(*b) + seq![')'],
        Expr::Mod { f, x } => seq!['('] + expr_text(*f) + seq![')', ' ', '('] + expr_text(*x)
            + seq![')'],
        Expr::Hyp(id) => decimal(id as nat),
        Expr::Taken => seq!['<', 'T', 'A', 'K', 'E', 'N', '>'],
    }
}

// ---------------------------------------------------------------------------
// Bindings
// ---------------------------------------------------------------------------

/// Bindings of hypotheses to expressions, kept in a `hashbrown::HashMap`.
///
/// The map is held in a private field of this struct, which Verus does not
/// see into: `hashbrown::HashMap` cannot be declared to Verus, since the bound
/// on its allocator parameter is a trait of a crate that this one does not
/// name. What the map holds is named by [`id_map_contents`], and each method
/// of the map that the logic calls has a wrapper below.
#[verifier::external_body]
pub struct IDMapExpr(hashbrown::HashMap<u64, Expr>);

/// The bindings that an [`IDMapExpr`] holds: the key-value pairs of its map.
pub uninterp spec fn id_map_contents(m: IDMapExpr) -> Map<u64, Expr>;

impl IDMapExpr {
    /// No bindings. Calls `hashbrown::HashMap::new`, trusted to give a map
    /// that holds no pair.
    #[verifier::external_body]
    pub fn new() -> (fresh: IDMapExpr)
        ensures
            id_map_contents(fresh) =~= Map::empty(),
    {
        Self(hashbrown::HashMap::new())
    }

    /// The value bound to `id`. Calls `hashbrown::HashMap::get`, trusted to
    /// give the value that the map holds for the key `id`, and `None` where it
    /// holds none (`u64` keys hash and compare as integers).
    #[verifier::external_body]
    fn get(&self, id: u64) -> (r: Option<&Expr>)
        ensures
            r is Some <==> id_map_contents(*self).contains_key(id),
            r matches Some(v) ==> *v == id_map_contents(*self)[id],
    {
        self.0.get(&id)
    }

    /// Binds `id` to `v`, replacing an earlier binding. Calls
    /// `hashbrown::HashMap::insert`, trusted to leave every other pair as it
    /// was and to hold `v` for `id` afterwards; what it hands back (the value
    /// replaced) is dropped. Not stated: that growing the table may abort the
    /// process where memory runs out.
    #[verifier::external_body]
    fn insert(&mut self, id: u64, v: Expr)
        ensures
            id_map_contents(*final(self)) == id_map_contents(*old(self)).insert(id, v),
    {
        self.0.insert(id, v);
    }

    /// Binds `id` to `v` if `id` is unbound; an id already bound agrees only
    /// with an equal value. Ids and values are stored only where new.
    fn set(&mut self, id: u64, v: Expr) -> (r: bool)
        ensures
            (r, id_map_contents(*final(self))) == bind(id_map_contents(*old(self)), id, v),
    {
        match self.get(id) {
            Some(exp) => exp.same(&v),
            None => {
                self.insert(id, v);
                true
            },
        }
    }

    /// Populates the bindings with `[xx/hol(mm)]`: matches `xx` against the
    /// pattern `mm`, leaves `mm` a tombstone and every part of `xx` that a
    /// hypothesis took a tombstone.
    /// `xx` and `mm` are to be normalised individually before the match.
    fn mtch(&mut self, xx: &mut Expr, mm: &mut Expr) -> (r: bool)
        ensures
            (r, id_map_contents(*final(self))) == match_pattern(
                id_map_contents(*old(self)),
                *old(xx),
                *old(mm),
            ),
            *final(xx) == match_leftover(*old(xx), *old(mm)),
            *final(mm) == Expr::Taken,
        decreases *old(mm),
    {
        let mmm = mm.take();
        match mmm {
            Expr::Hyp(id) => {
                let v = xx.take();
                self.set(id, v)
            },
            Expr::Rul { m: pm, b: pb } => {
                let xv = xx.take();
                match xv {
                    Expr::Rul { m: xm, b: xb } => {
                        let mut em = *xm;
                        let mut eb = *xb;
                        let mut pm = *pm;
                        let mut pb = *pb;
                        let r1 = self.mtch(&mut em, &mut pm);
                        let r2 = self.mtch(&mut eb, &mut pb);
                        *xx = Expr::Rul { m: Box::new(em), b: Box::new(eb) };
                        r1 && r2
                    },
                    other => {
                        *xx = other;
                        false
                    },
                }
            },
            Expr::Mod { f: pf, x: px } => {
                let xv = xx.take();
                match xv {
                    Expr::Mod { f: xf, x: xa } => {
                        let mut ef = *xf;
                        let mut ex = *xa;
                        let mut pf = *pf;
                        let mut px = *px;
                        let r1 = self.mtch(&mut ef, &mut pf);
                        let r2 = self.mtch(&mut ex, &mut px);
                        *xx = Expr::Mod { f: Box::new(ef), x: Box::new(ex) };
                        r1 && r2
                    },
                    other => {
                        *xx = other;
                        false
                    },
                }
            },
            Expr::Taken => false,
        }
    }

    /// Returns `bb[val/var]` and leaves `bb` a tombstone.
    /// `bb` must not be normalised before the substitution.
    fn bound(&mut self, bb: &mut Expr) -> (r: Expr)
        requires
            !holds_taken(*old(bb)),
        ensures
            r == subst(id_map_contents(*old(self)), *old(bb)),
            *final(bb) == Expr::Taken,
            *final(self) == *old(self),
        decreases *old(bb),
    {
        let e = bb.take();
        match e {
            Expr::Rul { m, b } => {
                let mut m = *m;
                let mut b = *b;
                let m2 = self.bound(&mut m);
                let b2 = self.bound(&mut b);
                Expr::Rul { m: Box::new(m2), b: Box::new(b2) }
            },
            Expr::Mod { f, x } => {
                let mut f = *f;
                let mut x = *x;
                let f2 = self.bound(&mut f);
                let x2 = self.bound(&mut x);
                Expr::Mod { f: Box::new(f2), x: Box::new(x2) }
            },
            Expr::Hyp(id) => match self.get(id) {
                Some(ex) => ex.duplicate(),
                None => Expr::Hyp(id),
            },
            Expr::Taken => Expr::Taken,
        }
    }
}

// ---------------------------------------------------------------------------
// Expressions
// ---------------------------------------------------------------------------

impl Clone for Expr {
    /// A copy of the expression.
    fn clone(&self) -> (r: Self)
        ensures
            r == *self,
    {
        self.duplicate()
    }
}

impl Expr {
    /// In-place normalisation. `Ok(_)` is good, `Err(())` bad; in `Ok`, `true`
    /// means the expression was normalised (rewritten), `false` that there was
    /// nothing to do.
    pub fn norm(&mut self) -> (r: Result<bool, ()>)
        requires
            normalizes(*old(self)),
        ensures
            (r, *final(self)) == normal_form(*old(self)),
    {
        let ghost fuel = norm_fuel(*self);
        let e = self.take();
        let (r, e2) = Self::norm_within(e, Ghost(fuel));
        *self = e2;
        r
    }

    /// Normalisation of `e` within `fuel` nested steps; hands back the result
    /// and the expression left in place.
    fn norm_within(e: Expr, Ghost(fuel): Ghost<nat>) -> (r: (Result<bool, ()>, Expr))
        requires
            normalize(e, fuel) is Some,
        ensures
            r == normalize(e, fuel).unwrap(),
        decreases fuel,
    {
        match e {
            Expr::Mod { f, x } => {
                let fv = *f;
                match fv {
                    Expr::Rul { m, b } => {
                        let m = *m;
                        let x = *x;
                        let (rm, mut m2) = Self::norm_within(m, Ghost((fuel - 1) as nat));
                        let (rx, mut x2) = Self::norm_within(x, Ghost((fuel - 1) as nat));
                        match (rm, rx) {
                            (Ok(_), Ok(_)) => {
                                let mut map = IDMapExpr::new();
                                if map.mtch(&mut x2, &mut m2) {
                                    let mut b = *b;
                                    let e2 = map.bound(&mut b);
                                    let (r, e3) = Self::norm_within(
                                        e2,
                                        Ghost((fuel - 1) as nat),
                                    );
                                    match r {
                                        Ok(_) => (Ok(true), e3),
                                        Err(()) => (Err(()), e3),
                                    }
                                } else {
                                    (
                                        Err(()),
                                        Expr::Mod {
                                            f: Box::new(Expr::Rul { m: Box::new(m2), b }),
                                            x: Box::new(x2),
                                        },
                                    )
                                }
                            },
                            _ => (
                                Err(()),
                                Expr::Mod {
                                    f: Box::new(Expr::Rul { m: Box::new(m2), b }),
                                    x: Box::new(x2),
                                },
                            ),
                        }
                    },
                    kf => {
                        let (rf, f2) = Self::norm_within(kf, Ghost((fuel - 1) as nat));
                        let e2 = Expr::Mod { f: Box::new(f2), x };
                        match rf {
                            Ok(true) => {
                                let (r, e3) = Self::norm_within(e2, Ghost((fuel - 1) as nat));
                                match r {
                                    Ok(_) => (Ok(true), e3),
                                    Err(()) => (Err(()), e3),
                                }
                            },
                            other => (other, e2),
                        }
                    },
                }
            },
            other => (Ok(false), other),
        }
    }

    /// The expression written out, as its `Debug` form does.
    pub fn render(&self) -> (s: String)
        ensures
            s@ == expr_text(*self),
    {
        let mut out = String::new();
        self.write_to(&mut out);
        assert(out@ =~= expr_text(*self));
        out
    }

    /// Appends the expression written out.
    fn write_to(&self, out: &mut String)
        ensures
            final(out)@ == old(out)@ + expr_text(*self),
        decreases self,
    {
        proof {
            reveal_strlit("(");
            reveal_strlit(") -> (");
            reveal_strlit(") (");
            reveal_strlit(")");
            reveal_strlit("<TAKEN>");
        }
        match self {
            Expr::Rul { m, b } => {
                out.append("(");
                m.write_to(out);
                out.append(") -> (");
                b.write_to(out);
                out.append(")");
            },
            Expr::Mod { f, x } => {
                out.append("(");
                f.write_to(out);
                out.append(") (");
                x.write_to(out);
                out.append(")");
            },
            Expr::Hyp(id) => write_decimal(*id, out),
            Expr::Taken => out.append("<TAKEN>"),
        }
        assert(out@ =~= old(out)@ + expr_text(*self));
    }

    /// Takes the expression out, leaving a tombstone.
    fn take(&mut self) -> (r: Self)
        ensures
            r == *old(self),
            *final(self) == Expr::Taken,
    {
        let mut t = Expr::Taken;
        core::mem::swap(self, &mut t);
        t
    }

    /// Structural equality.
    fn same(&self, other: &Expr) -> (r: bool)
        ensures
            r == (*self == *other),
        decreases self,
    {
        match (self, other) {
            (Expr::Rul { m: m1, b: b1 }, Expr::Rul { m: m2, b: b2 }) => {
                let a = m1.same(m2);
                a && b1.same(b2)
            },
            (Expr::Mod { f: f1, x: x1 }, Expr::Mod { f: f2, x: x2 }) => {
                let a = f1.same(f2);
                a && x1.same(x2)
            },
            (Expr::Hyp(i), Expr::Hyp(j)) => *i == *j,
            (Expr::Taken, Expr::Taken) => true,
            _ => false,
        }
    }

    /// A copy of the expression.
    fn duplicate(&self) -> (r: Expr)
        ensures
            r == *self,
        decreases self,
    {
        match self {
            Expr::Rul { m, b } => Expr::Rul { m: Box::new(m.duplicate()), b: Box::new(b.duplicate()) },
            Expr::Mod { f, x } => Expr::Mod { f: Box::new(f.duplicate()), x: Box::new(x.duplicate()) },
            Expr::Hyp(id) => Expr::Hyp(*id),
            Expr::Taken => Expr::Taken,
        }
    }
}


/// Appends the decimal numeral of `n`.
fn write_decimal(n: u64, out: &mut String)
    ensures
        final(out)@ == old(out)@ + decimal(n as nat),
    decreases n,
{
    if n >= 10 {
        write_decimal(n / 10, out);
    }
    out.append(digit(n % 10));
    assert(out@ =~= old(out)@ + decimal(n as nat));
}

/// The numeral of a decimal digit.
fn digit(d: u64) -> (s: &'static str)
    requires
        d < 10,
    ensures
        s@ == seq![digit_char(d as int)],
{
    proof {
        reveal_strlit("0");
        reveal_strlit("1");
        reveal_strlit("2");
        reveal_strlit("3");
        reveal_strlit("4");
        reveal_strlit("5");
        reveal_strlit("6");
        reveal_strlit("7");
        reveal_strlit("8");
        reveal_strlit("9");
    }
    match d {
        0 => "0",
        1 => "1",
        2 => "2",
        3 => "3",
        4 => "4",
        5 => "5",
        6 => "6",
        7 => "7",
        8 => "8",
        _ => "9",
    }
}

// ---------------------------------------------------------------------------
// Laws
// ---------------------------------------------------------------------------

/// More fuel does not change a normalisation that has returned.
proof fn lemma_normalize_mono(e: Expr, f: nat, g: nat)
    requires
        normalize(e, f) is Some,
        f <= g,
    ensures
        normalize(e, g) == normalize(e, f),
    decreases f,
{
    let f1 = (f - 1) as nat;
    let g1 = (g - 1) as nat;
    match e {
        Expr::Mod { f: ff, x } => match *ff {
            Expr::Rul { m, b } => {
                lemma_normalize_mono(*m, f1, g1);
                lemma_normalize_mono(*x, f1, g1);
                let (rm, m2) = normalize(*m, f1).unwrap();
                let (rx, x2) = normalize(*x, f1).unwrap();
                if rm is Ok && rx is Ok {
                    let (ok, sb) = match_pattern(Map::empty(), x2, m2);
                    if ok && !holds_taken(*b) {
                        lemma_normalize_mono(subst(sb, *b), f1, g1);
                    }
                }
            },
            fv => {
                lemma_normalize_mono(fv, f1, g1);
                let (rf, f2) = normalize(fv, f1).unwrap();
                if rf == Ok::<bool, ()>(true) {
                    lemma_normalize_mono(Expr::Mod { f: Box::new(f2), x }, f1, g1);
                }
            },
        },
        _ => {},
    }
}

/// Any fuel that suffices gives the normal form: what `norm` returns and
/// leaves does not depend on the fuel used to describe it.
pub proof fn law_normal_form_by_fuel(e: Expr, f: nat)
    requires
        normalize(e, f) is Some,
    ensures
        normalizes(e),
        normal_form(e) == normalize(e, f).unwrap(),
{
    lemma_normalize_unique(e, f, norm_fuel(e));
}

/// A failure of the pattern or of the argument is the failure of the whole
/// application: normalising `((m) -> (b)) (x)` normalises `m` and `x` first,
/// and where either gives `Err`, so does the application. Where both
/// succeed but the argument does not match the pattern, it fails too.
pub proof fn law_norm_errors_propagate(m: Expr, b: Expr, x: Expr)
    requires
        normalizes(Expr::Mod { f: Box::new(Expr::Rul { m: Box::new(m), b: Box::new(b) }), x: Box::new(x) }),
    ensures
        normalizes(m),
        normalizes(x),
        normal_form(m).0 is Err || normal_form(x).0 is Err ==> normal_form(
            Expr::Mod { f: Box::new(Expr::Rul { m: Box::new(m), b: Box::new(b) }), x: Box::new(x) },
        ).0 is Err,
        !match_pattern(Map::empty(), normal_form(x).1, normal_form(m).1).0 ==> normal_form(
            Expr::Mod { f: Box::new(Expr::Rul { m: Box::new(m), b: Box::new(b) }), x: Box::new(x) },
        ).0 is Err,
{
    let e = Expr::Mod { f: Box::new(Expr::Rul { m: Box::new(m), b: Box::new(b) }), x: Box::new(x) };
    let f = norm_fuel(e);
    let f1 = (f - 1) as nat;
    law_normal_form_by_fuel(m, f1);
    law_normal_form_by_fuel(x, f1);
}

/// An application whose operator is no rule and is already normal (it
/// normalises with `Ok(false)`, unchanged) is final, whatever its argument:
/// `norm` leaves it as it is, argument included, and answers `Ok(false)`.
pub proof fn law_norm_stuck_application(f: Expr, x: Expr)
    requires
        !(f is Rul),
        normalizes(f),
        normal_form(f) == (Ok::<bool, ()>(false), f),
    ensures
        normalizes(Expr::Mod { f: Box::new(f), x: Box::new(x) }),
        normal_form(Expr::Mod { f: Box::new(f), x: Box::new(x) }) == (
            Ok::<bool, ()>(false),
            Expr::Mod { f: Box::new(f), x: Box::new(x) },
        ),
{
    let g = norm_fuel(f);
    let e = Expr::Mod { f: Box::new(f), x: Box::new(x) };
    assert(normalize(e, g + 1) == Some((Ok::<bool, ()>(false), e)));
    law_normal_form_by_fuel(e, g + 1);
}

/// Hypotheses and rules are normal, and so is every application headed by a
/// hypothesis: its argument is not reduced.
pub proof fn law_norm_final_forms(h: u64, m: Expr, b: Expr, x: Expr)
    ensures
        normalizes(Expr::Hyp(h)),
        normal_form(Expr::Hyp(h)) == (Ok::<bool, ()>(false), Expr::Hyp(h)),
        normalizes(Expr::Rul { m: Box::new(m), b: Box::new(b) }),
        normal_form(Expr::Rul { m: Box::new(m), b: Box::new(b) }) == (
            Ok::<bool, ()>(false),
            Expr::Rul { m: Box::new(m), b: Box::new(b) },
        ),
        normalizes(Expr::Mod { f: Box::new(Expr::Hyp(h)), x: Box::new(x) }),
        normal_form(Expr::Mod { f: Box::new(Expr::Hyp(h)), x: Box::new(x) }) == (
            Ok::<bool, ()>(false),
            Expr::Mod { f: Box::new(Expr::Hyp(h)), x: Box::new(x) },
        ),
{
    law_normal_form_by_fuel(Expr::Hyp(h), 1);
    law_normal_form_by_fuel(Expr::Rul { m: Box::new(m), b: Box::new(b) }, 1);
    law_norm_stuck_application(Expr::Hyp(h), x);
}

/// Two fuels that both suffice give the same normalisation.
proof fn lemma_normalize_unique(e: Expr, f: nat, g: nat)
    requires
        normalize(e, f) is Some,
        normalize(e, g) is Some,
    ensures
        normalize(e, f) == normalize(e, g),
{
    if f <= g {
        lemma_normalize_mono(e, f, g);
    } else {
        lemma_normalize_mono(e, g, f);
    }
}

/// `Ok(false)` leaves the expression as it was.
proof fn lemma_unchanged(e: Expr, f: nat)
    requires
        normalize(e, f) matches Some((Ok(false), _)),
    ensures
        normalize(e, f).unwrap().1 == e,
    decreases f,
{
    let f1 = (f - 1) as nat;
    match e {
        Expr::Mod { f: ff, x } => match *ff {
            Expr::Rul { m, b } => {},
            fv => {
                lemma_unchanged(fv, f1);
            },
        },
        _ => {},
    }
}

/// What a successful normalisation leaves is normal: normalising it again,
/// with the same fuel, succeeds with `Ok(false)` and changes nothing.
proof fn lemma_fixpoint(e: Expr, f: nat)
    requires
        normalize(e, f) matches Some((Ok(_), _)),
    ensures
        normalize(normalize(e, f).unwrap().1, f) == Some(
            (Ok::<bool, ()>(false), normalize(e, f).unwrap().1),
        ),
    decreases f,
{
    let f1 = (f - 1) as nat;
    let e2 = normalize(e, f).unwrap().1;
    match e {
        Expr::Mod { f: ff, x } => match *ff {
            Expr::Rul { m, b } => {
                let (rm, m2) = normalize(*m, f1).unwrap();
                let (rx, x2) = normalize(*x, f1).unwrap();
                let (ok, sb) = match_pattern(Map::empty(), x2, m2);
                lemma_fixpoint(subst(sb, *b), f1);
                lemma_normalize_mono(e2, f1, f);
            },
            fv => {
                let (rf, f2) = normalize(fv, f1).unwrap();
                if rf == Ok::<bool, ()>(true) {
                    lemma_fixpoint(Expr::Mod { f: Box::new(f2), x }, f1);
                    lemma_normalize_mono(e2, f1, f);
                } else {
                    lemma_unchanged(fv, f1);
                    assert(e2 == e);
                }
            },
        },
        _ => {},
    }
}

/// Normalisation is idempotent: what a successful `norm` leaves, a second
/// `norm` leaves as it is and answers `Ok(false)`.
pub proof fn law_norm_idempotent(e: Expr)
    requires
        normalizes(e),
        normal_form(e).0 is Ok,
    ensures
        normalizes(normal_form(e).1),
        normal_form(normal_form(e).1) == (Ok::<bool, ()>(false), normal_form(e).1),
{
    let f = norm_fuel(e);
    let e2 = normal_form(e).1;
    lemma_fixpoint(e, f);
    assert(normalize(e2, f) is Some);
    lemma_normalize_unique(e2, f, norm_fuel(e2));
}

/// The flag of a successful `norm` tells whether the expression changed:
/// `Ok(true)` exactly where what it leaves differs from what it was given.
pub proof fn law_norm_reports_change(e: Expr)
    requires
        normalizes(e),
        normal_form(e).0 is Ok,
    ensures
        normal_form(e).0 == Ok::<bool, ()>(normal_form(e).1 != e),
{
    let f = norm_fuel(e);
    lemma_fixpoint(e, f);
    if normal_form(e).0 == Ok::<bool, ()>(false) {
        lemma_unchanged(e, f);
    }
}

/// Matching only adds bindings.
proof fn lemma_match_extends(s: Map<u64, Expr>, x: Expr, p: Expr)
    ensures
        s.submap_of(match_pattern(s, x, p).1),
    decreases p,
{
    match p {
        Expr::Rul { m: pm, b: pb } => match x {
            Expr::Rul { m: xm, b: xb } => {
                let s1 = match_pattern(s, *xm, *pm).1;
                lemma_match_extends(s, *xm, *pm);
                lemma_match_extends(s1, *xb, *pb);
                vstd::map_lib::lemma_submap_of_trans(s, s1, match_pattern(s1, *xb, *pb).1);
            },
            _ => {},
        },
        Expr::Mod { f: pf, x: px } => match x {
            Expr::Mod { f: xf, x: xx } => {
                let s1 = match_pattern(s, *xf, *pf).1;
                lemma_match_extends(s, *xf, *pf);
                lemma_match_extends(s1, *xx, *px);
                vstd::map_lib::lemma_submap_of_trans(s, s1, match_pattern(s1, *xx, *px).1);
            },
            _ => {},
        },
        _ => {},
    }
}

/// Hypotheses bound in a smaller domain are bound in a larger one.
proof fn lemma_vars_within_grow(e: Expr, d1: Set<u64>, d2: Set<u64>)
    requires
        vars_within(e, d1),
        d1.subset_of(d2),
    ensures
        vars_within(e, d2),
    decreases e,
{
    match e {
        Expr::Rul { m, b } => {
            lemma_vars_within_grow(*m, d1, d2);
            lemma_vars_within_grow(*b, d1, d2);
        },
        Expr::Mod { f, x } => {
            lemma_vars_within_grow(*f, d1, d2);
            lemma_vars_within_grow(*x, d1, d2);
        },
        _ => {},
    }
}

/// Adding bindings does not change a substitution whose hypotheses are all
/// bound already.
proof fn lemma_subst_stable(s1: Map<u64, Expr>, s2: Map<u64, Expr>, e: Expr)
    requires
        vars_within(e, s1.dom()),
        s1.submap_of(s2),
    ensures
        subst(s2, e) == subst(s1, e),
    decreases e,
{
    match e {
        Expr::Rul { m, b } => {
            lemma_subst_stable(s1, s2, *m);
            lemma_subst_stable(s1, s2, *b);
        },
        Expr::Mod { f, x } => {
            lemma_subst_stable(s1, s2, *f);
            lemma_subst_stable(s1, s2, *x);
        },
        _ => {},
    }
}

/// Matching is sound: where `x` matches the pattern `p`, the bindings it
/// leaves extend those it started from, bind every hypothesis of `p`, and
/// substituted into `p` give back `x`.
pub proof fn law_match_sound(s: Map<u64, Expr>, x: Expr, p: Expr)
    requires
        match_pattern(s, x, p).0,
    ensures
        s.submap_of(match_pattern(s, x, p).1),
        vars_within(p, match_pattern(s, x, p).1.dom()),
        subst(match_pattern(s, x, p).1, p) == x,
    decreases p,
{
    lemma_match_extends(s, x, p);
    match p {
        Expr::Rul { m: pm, b: pb } => match x {
            Expr::Rul { m: xm, b: xb } => {
                let s1 = match_pattern(s, *xm, *pm).1;
                let s2 = match_pattern(s1, *xb, *pb).1;
                law_match_sound(s, *xm, *pm);
                law_match_sound(s1, *xb, *pb);
                lemma_vars_within_grow(*pm, s1.dom(), s2.dom());
                lemma_subst_stable(s1, s2, *pm);
            },
            _ => {},
        },
        Expr::Mod { f: pf, x: px } => match x {
            Expr::Mod { f: xf, x: xx } => {
                let s1 = match_pattern(s, *xf, *pf).1;
                let s2 = match_pattern(s1, *xx, *px).1;
                law_match_sound(s, *xf, *pf);
                law_match_sound(s1, *xx, *px);
                lemma_vars_within_grow(*pf, s1.dom(), s2.dom());
                lemma_subst_stable(s1, s2, *pf);
            },
            _ => {},
        },
        _ => {},
    }
}

/// Matching is complete: where some extension `t` of the bindings `s` binds
/// every hypothesis of a tombstone-free pattern `p` and turns it into `x`,
/// `x` matches `p`, and the bindings it leaves stay within `t`.
pub proof fn law_match_complete(s: Map<u64, Expr>, t: Map<u64, Expr>, x: Expr, p: Expr)
    requires
        s.submap_of(t),
        vars_within(p, t.dom()),
        !holds_taken(p),
        subst(t, p) == x,
    ensures
        match_pattern(s, x, p).0,
        match_pattern(s, x, p).1.submap_of(t),
    decreases p,
{
    match p {
        Expr::Rul { m: pm, b: pb } => {
            let s1 = match_pattern(s, subst(t, *pm), *pm).1;
            law_match_complete(s, t, subst(t, *pm), *pm);
            law_match_complete(s1, t, subst(t, *pb), *pb);
        },
        Expr::Mod { f: pf, x: px } => {
            let s1 = match_pattern(s, subst(t, *pf), *pf).1;
            law_match_complete(s, t, subst(t, *pf), *pf);
            law_match_complete(s1, t, subst(t, *px), *px);
        },
        Expr::Hyp(id) => {},
        Expr::Taken => {},
    }
}

// ---------------------------------------------------------------------------
// The text determines the expression
// ---------------------------------------------------------------------------

/// How a character changes the depth of parentheses.
spec fn paren_delta(c: char) -> int {
    if c == '(' {
        1
    } else if c == ')' {
        -1
    } else {
        0
    }
}

/// Opening minus closing parentheses in `s`.
spec fn depth(s: Seq<char>) -> int
    decreases s.len(),
{
    if s.len() == 0 {
        0
    } else {
        depth(s.drop_last()) + paren_delta(s.last())
    }
}

/// Parentheses balance in `s`, and no prefix closes more than it opened.
spec fn balanced(s: Seq<char>) -> bool {
    &&& depth(s) == 0
    &&& forall|k: int| 0 <= k <= s.len() ==> depth(#[trigger] s.take(k)) >= 0
}

/// `a` in parentheses.
spec fn wrap(a: Seq<char>) -> Seq<char> {
    seq!['('] + a + seq![')']
}

spec fn is_digit(c: char) -> bool {
    '0' <= c && c <= '9'
}

proof fn lemma_depth_concat(a: Seq<char>, b: Seq<char>)
    ensures
        depth(a + b) == depth(a) + depth(b),
    decreases b.len(),
{
    if b.len() == 0 {
        assert(a + b =~= a);
    } else {
        assert((a + b).drop_last() =~= a + b.drop_last());
        lemma_depth_concat(a, b.drop_last());
    }
}

proof fn lemma_depth_flat(s: Seq<char>)
    requires
        forall|i: int| 0 <= i < s.len() ==> s[i] != '(' && s[i] != ')',
    ensures
        balanced(s),
    decreases s.len(),
{
    if s.len() > 0 {
        lemma_depth_flat(s.drop_last());
    }
    assert forall|k: int| 0 <= k <= s.len() implies depth(#[trigger] s.take(k)) >= 0 by {
        if k < s.len() {
            assert(s.take(k) =~= s.drop_last().take(k));
        } else {
            assert(s.take(k) =~= s);
        }
    }
}

proof fn lemma_balanced_concat(a: Seq<char>, b: Seq<char>)
    requires
        balanced(a),
        balanced(b),
    ensures
        balanced(a + b),
{
    lemma_depth_concat(a, b);
    assert forall|k: int| 0 <= k <= (a + b).len() implies depth(#[trigger] (a + b).take(k)) >= 0 by {
        if k <= a.len() {
            assert((a + b).take(k) =~= a.take(k));
        } else {
            assert((a + b).take(k) =~= a + b.take(k - a.len()));
            lemma_depth_concat(a, b.take(k - a.len()));
        }
    }
}

/// In `wrap(a) + r`, every prefix from the opening parenthesis up to the end
/// of `a` is still open, and the prefix `wrap(a)` is closed.
proof fn lemma_wrap_prefix(a: Seq<char>, r: Seq<char>, k: int)
    requires
        balanced(a),
        1 <= k <= a.len() + 2,
    ensures
        k <= a.len() + 1 ==> depth((wrap(a) + r).take(k)) >= 1,
        k == a.len() + 2 ==> depth((wrap(a) + r).take(k)) == 0,
{
    assert(depth(seq!['(']) == 1) by {
        assert(seq!['('].drop_last() =~= Seq::<char>::empty());
        assert(depth(Seq::<char>::empty()) == 0);
        assert(seq!['('].last() == '(');
    }
    assert(depth(seq![')']) == -1) by {
        assert(seq![')'].drop_last() =~= Seq::<char>::empty());
        assert(depth(Seq::<char>::empty()) == 0);
        assert(seq![')'].last() == ')');
    }
    if k <= a.len() + 1 {
        assert((wrap(a) + r).take(k) =~= seq!['('] + a.take(k - 1));
        lemma_depth_concat(seq!['('], a.take(k - 1));
    } else {
        assert((wrap(a) + r).take(k) =~= (seq!['('] + a) + seq![')']);
        lemma_depth_concat(seq!['('] + a, seq![')']);
        lemma_depth_concat(seq!['('], a);
        assert(a.take(a.len() as int) =~= a);
    }
}

proof fn lemma_balanced_wrap(a: Seq<char>)
    requires
        balanced(a),
    ensures
        balanced(wrap(a)),
{
    let w = wrap(a);
    assert(w + Seq::<char>::empty() =~= w);
    lemma_wrap_prefix(a, Seq::empty(), a.len() + 2int);
    assert(w.take(w.len() as int) =~= w);
    assert forall|k: int| 0 <= k <= w.len() implies depth(#[trigger] w.take(k)) >= 0 by {
        if k == 0 {
            assert(w.take(0) =~= Seq::<char>::empty());
        } else {
            lemma_wrap_prefix(a, Seq::empty(), k);
        }
    }
}

proof fn lemma_decimal_digits(n: nat)
    ensures
        decimal(n).len() >= 1,
        forall|i: int| 0 <= i < decimal(n).len() ==> is_digit(#[trigger] decimal(n)[i]),
    decreases n,
{
    if n >= 10 {
        lemma_decimal_digits(n / 10);
    }
}

proof fn lemma_decimal_injective(n: nat, m: nat)
    requires
        decimal(n) == decimal(m),
    ensures
        n == m,
    decreases n,
{
    lemma_decimal_digits(n);
    lemma_decimal_digits(m);
    if n >= 10 && m >= 10 {
        let dn = decimal(n);
        assert(decimal(n / 10) =~= dn.drop_last());
        assert(decimal(m / 10) =~= dn.drop_last());
        lemma_decimal_injective(n / 10, m / 10);
        assert(dn.last() == digit_char((n % 10) as int));
        assert(decimal(m).last() == digit_char((m % 10) as int));
        lemma_digit_char_injective((n % 10) as int, (m % 10) as int);
    } else if n < 10 && m < 10 {
        assert(decimal(n)[0] == digit_char(n as int));
        assert(decimal(m)[0] == digit_char(m as int));
        lemma_digit_char_injective(n as int, m as int);
    } else if n >= 10 {
        lemma_decimal_digits(n / 10);
    } else if m >= 10 {
        lemma_decimal_digits(m / 10);
    }
}

proof fn lemma_digit_char_injective(d: int, e: int)
    requires
        0 <= d < 10,
        0 <= e < 10,
        digit_char(d) == digit_char(e),
    ensures
        d == e,
{
}

/// The text of a rule or an application split into its parts.
spec fn parts(e: Expr) -> (Seq<char>, Seq<char>, Seq<char>) {
    match e {
        Expr::Rul { m, b } => (expr_text(*m), seq![' ', '-', '>', ' '], expr_text(*b)),
        Expr::Mod { f, x } => (expr_text(*f), seq![' '], expr_text(*x)),
        _ => (seq![], seq![], seq![]),
    }
}

proof fn lemma_compound(a1: Seq<char>, sep: Seq<char>, a2: Seq<char>)
    requires
        balanced(a1),
        balanced(a2),
        forall|i: int| 0 <= i < sep.len() ==> sep[i] != '(' && sep[i] != ')',
    ensures
        balanced(wrap(a1) + sep + wrap(a2)),
        (wrap(a1) + sep + wrap(a2)).len() >= 1,
        (wrap(a1) + sep + wrap(a2))[0] == '(',
{
    lemma_balanced_wrap(a1);
    lemma_balanced_wrap(a2);
    lemma_depth_flat(sep);
    lemma_balanced_concat(wrap(a1), sep);
    lemma_balanced_concat(wrap(a1) + sep, wrap(a2));
}

#[verifier::rlimit(50)]
proof fn lemma_text_shape(e: Expr)
    ensures
        balanced(expr_text(e)),
        expr_text(e).len() >= 1,
        e is Rul || e is Mod ==> expr_text(e) == wrap(parts(e).0) + parts(e).1 + wrap(parts(e).2),
        e is Rul || e is Mod ==> expr_text(e)[0] == '(',
        e matches Expr::Hyp(id) ==> is_digit(expr_text(e)[0]) && expr_text(e) == decimal(id as nat),
        e is Taken ==> expr_text(e)[0] == '<',
    decreases e,
{
    match e {
        Expr::Rul { m, b } => {
            lemma_text_shape(*m);
            lemma_text_shape(*b);
            let (a1, sep, a2) = parts(e);
            assert(expr_text(e) =~= wrap(a1) + sep + wrap(a2));
            lemma_compound(a1, sep, a2);
        },
        Expr::Mod { f, x } => {
            lemma_text_shape(*f);
            lemma_text_shape(*x);
            let (a1, sep, a2) = parts(e);
            assert(expr_text(e) =~= wrap(a1) + sep + wrap(a2));
            lemma_compound(a1, sep, a2);
        },
        Expr::Hyp(id) => {
            lemma_decimal_digits(id as nat);
            lemma_depth_flat(decimal(id as nat));
        },
        Expr::Taken => {
            lemma_depth_flat(expr_text(e));
        },
    }
}

/// The text of an expression determines it: no two different expressions
/// are written alike. So a rule is written pattern first, an application
/// operator first, each part in its own parentheses.
#[verifier::rlimit(50)]
pub proof fn law_expr_text_injective(e1: Expr, e2: Expr)
    requires
        expr_text(e1) == expr_text(e2),
    ensures
        e1 == e2,
    decreases e1,
{
    lemma_text_shape(e1);
    lemma_text_shape(e2);
    let t = expr_text(e1);
    if (e1 is Rul || e1 is Mod) && (e2 is Rul || e2 is Mod) {
        let (a1, s1, b1) = parts(e1);
        let (a2, s2, b2) = parts(e2);
        let l1 = a1.len() as int;
        let l2 = a2.len() as int;
        let r1 = s1 + wrap(b1);
        let r2 = s2 + wrap(b2);
        assert(t =~= wrap(a1) + r1);
        assert(t =~= wrap(a2) + r2);
        lemma_text_shape(match e1 { Expr::Rul { m, .. } => *m, Expr::Mod { f, .. } => *f, _ => e1 });
        lemma_text_shape(match e2 { Expr::Rul { m, .. } => *m, Expr::Mod { f, .. } => *f, _ => e2 });
        if l1 < l2 {
            lemma_wrap_prefix(a1, r1, l1 + 2);
            lemma_wrap_prefix(a2, r2, l1 + 2);
        } else if l2 < l1 {
            lemma_wrap_prefix(a1, r1, l2 + 2);
            lemma_wrap_prefix(a2, r2, l2 + 2);
        }
        assert(a1 =~= t.subrange(1, l1 + 1));
        assert(a2 =~= t.subrange(1, l1 + 1));
        assert(t[l1 + 3] == (if e1 is Rul { '-' } else { '(' }));
        assert(t[l1 + 3] == (if e2 is Rul { '-' } else { '(' }));
        let start = l1 + 2 + s1.len() + 1;
        assert(b1 =~= t.subrange(start, t.len() - 1));
        assert(b2 =~= t.subrange(start, t.len() - 1));
        match (e1, e2) {
            (Expr::Rul { m: m1, b: bb1 }, Expr::Rul { m: m2, b: bb2 }) => {
                law_expr_text_injective(*m1, *m2);
                law_expr_text_injective(*bb1, *bb2);
            },
            (Expr::Mod { f: f1, x: x1 }, Expr::Mod { f: f2, x: x2 }) => {
                law_expr_text_injective(*f1, *f2);
                law_expr_text_injective(*x1, *x2);
            },
            _ => {},
        }
    } else {
        match (e1, e2) {
            (Expr::Hyp(i), Expr::Hyp(j)) => {
                lemma_decimal_injective(i as nat, j as nat);
            },
            _ => {},
        }
    }
}

/// A rule is written as its pattern in parentheses, ` -> `, and its body in
/// parentheses; an application as its operator, a space, and its operand,
/// each in parentheses. With [`law_expr_text_injective`], the parts written
/// first are the pattern and the operator.
pub proof fn law_expr_text_layout(m: Expr, b: Expr)
    ensures
        expr_text(Expr::Rul { m: Box::new(m), b: Box::new(b) }) == seq!['('] + expr_text(m)
            + seq![')', ' ', '-', '>', ' ', '('] + expr_text(b) + seq![')'],
        expr_text(Expr::Mod { f: Box::new(m), x: Box::new(b) }) == seq!['('] + expr_text(m)
            + seq![')', ' ', '('] + expr_text(b) + seq![')'],
{
}

} // verus!
