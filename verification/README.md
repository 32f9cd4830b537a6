# lome

Normalisation of two small rule calculi, verified with Verus.

- `src/lome_calc.rs`: expressions made of rules (`pattern -> body`),
  applications and hypotheses (`u64` ids). `Expr::norm` normalises in place:
  an application of a rule matches the normalised argument against the
  normalised pattern, binds the pattern's hypotheses in a `hashbrown` map and
  continues with the body under those bindings. The contract is exact, over
  the spec function `normalize`; laws: idempotence, the `Ok` flag reports a
  change, matching is sound and complete.
- `src/modus.rs`, `src/modus/norm.rs`, `src/modus/norm/frame.rs`: principal
  expressions (`Tree`), binary trees whose leaves a user's `LeafApplicator`
  applies to one another. `Tree::norm` reduces without recursion through a
  queue of frames; its invariants (parent before child, child slot,
  ready-is-task, expanded hold, top task, root continuation) are proved, and
  the result is the value that the spec function `run` gives the tree.
- `src/lome1.rs`, `src/lang.rs`, `src/applicator.rs`: leaves with constant
  applications, statements, abstraction markers.
- `app/`: `Debug` forms for expressions and trees.
