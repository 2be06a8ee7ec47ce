//! Shortest arithmetic derivations.
//!
//! Given a list of base values and the four checked operators `+`, `*`, `-`
//! and `^`, the solvers look for ways to reach a target value by repeatedly
//! combining an already known value (on the left) with a base value (on the
//! right). [`FastSolver`] returns one derivation, [`FullSolver`] returns every
//! derivation that uses the least possible number of operations.
//!
//! A search proceeds in sweeps: each sweep combines every value known so far
//! with every base value. An operation whose result does not fit in a
//! [`Value`] is skipped. A search for a target that cannot be reached does not
//! go on for ever: it stops at the first sweep that finds no new value, and
//! says so with an empty answer (`None` from the fast solver). Such a search
//! may still visit every value there is, so both solvers also offer
//! `solve_within`, which gives up after a given number of sweeps.
//!
//! What the solvers compute is stated in [`order`], in terms of the
//! derivations of [`derivation`]: the order in which a search comes across
//! values and operations, the answers that follow from it, and the proofs
//! that these answers are exactly the optimal derivations.
pub mod derivation;
pub mod fast;
pub mod full;
pub mod operation;
pub mod order;
mod product;
mod sets;
pub mod text;

pub use fast::FastSolver;
pub use full::FullSolver;
pub use operation::Operation;
pub use operation::Value;
