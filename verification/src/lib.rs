//! Normalisation of small rule calculi.
//!
//! - [`lome_calc`]: expressions built from rules (pattern `->` body),
//!   applications and hypotheses, normalised in place by matching and
//!   substitution.
//! - [`modus`]: principal expressions, binary trees of leaves whose
//!   applications are delegated to a user-supplied applicator and reduced
//!   without recursion by a queue of frames.
//! - [`lome1`], [`lang`], [`applicator`]: the leaf and statement types built on
//!   top of those two.
pub mod lome_calc;
pub mod modus;
pub mod lome1;
pub mod lang;
pub mod applicator;
