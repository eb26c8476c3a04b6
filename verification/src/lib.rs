//! A SAT solver built on DPLL search, dynamic-programming component caching, and a hash table
//! whose buckets are binary search trees.
//!
//! # What it does
//!
//! Given a Boolean formula in conjunctive normal form, decide whether some assignment of its
//! variables makes it true, and produce one if so.
//!
//! # How
//!
//! Ordinary DPLL backtracking search, plus two things:
//!
//! * **Decomposition.** After some variables are assigned, the clauses that remain often fall
//!   into groups sharing no variables. Those groups are solved independently.
//! * **Memoisation.** Each group is named canonically and its verdict remembered, so a subproblem
//!   reached twice by different routes is solved once. That memo is the hash-table-of-BSTs.
//!
//! # What is proved
//!
//! [`solver::solve_here`] is total and right: a model it returns satisfies the input, a formula
//! it calls unsatisfiable has no model, and it gives up only where a limit was set. Everything
//! below it carries its own contract, stated over sequences of literals and assignments; see
//! [`semantics`] for what satisfaction means.
//!
//! What the parts promise to each other and to a reader of the output is stated as laws, over all
//! inputs: of branching in [`search::choice`], of components in [`search::parts`], of conflicts and
//! counters in [`search::lessons`], of the memo in [`cache::upkeep`], of elimination in
//! [`preprocess::order`], of DIMACS texts in [`dimacs::lines`], and of everything that is printed in
//! [`printed`].

pub mod cache;
pub mod clock;
pub mod cnf;
pub mod config;
pub mod count;
pub mod dimacs;
pub mod dp;
pub mod elim;
pub mod lit;
pub mod memory;
pub mod preprocess;
pub mod printed;
pub mod report;
pub mod search;
pub mod semantics;
pub mod solution;
pub mod solver;
pub mod sorting;
pub mod text;
pub mod varint;

pub use cnf::{Cnf, Model};
pub use config::{Algorithm, Config};
pub use lit::{Lit, Var};
pub use solver::{AbortReason, Outcome, SolveResult};
