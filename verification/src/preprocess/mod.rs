//! Simplification applied once, before search.
//!
//! Everything here is standard and everything here is *bounded*. The centrepiece is bounded
//! variable elimination: Davis–Putnam resolution applied only where it does not make the formula
//! bigger. Run without that bound, resolution is a decision procedure that explodes; run with it,
//! it is the preprocessing step that every competitive solver adopted.
//!
//! The pipeline is: normalise, drop duplicate clauses, propagate units, eliminate pure literals,
//! then bounded variable elimination — repeated until it stops paying off or the work budget runs
//! out.

pub mod bounded;
pub mod duplicates;
pub mod order;
pub mod pipeline;

pub use bounded::Limits;
pub use pipeline::{preprocess, Preprocessed, PreprocessStats};
