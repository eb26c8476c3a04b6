//! Variable elimination by resolution, and the bookkeeping that lets a model survive it.
//!
//! This module is the *other* DP: Davis and Putnam's 1960 procedure, which eliminates a variable
//! by replacing every clause mentioning it with the resolvents of its positive and negative
//! occurrences. Run to completion it decides satisfiability; run under a size limit it is
//! **bounded variable elimination**, the preprocessing step that modern solvers kept.
//!
//! Both uses share this code: [`crate::preprocess`] applies it with a growth limit,
//! [`crate::dp`] without one.
//!
//! # Keeping the model
//!
//! Eliminating a variable throws away the information needed to assign it. Every elimination
//! therefore pushes the clauses it removed onto a [`Reconstruction`] trail, replayed in reverse
//! once the search has a model for what remains. This is the technique from Eén and Biere's
//! *Effective Preprocessing in SAT through Variable and Clause Elimination*.

pub mod elimination;
pub mod pure;
pub mod reconstruction;
pub mod resolution;
pub mod units;
pub mod working;

pub use elimination::{eliminate_var, resolvent_count};
pub use pure::eliminate_pure_literals;
pub use reconstruction::Reconstruction;
pub use resolution::resolve;
pub use units::unit_propagate;
pub use working::Working;
