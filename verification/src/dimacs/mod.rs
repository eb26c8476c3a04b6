//! DIMACS CNF reading and writing.
//!
//! A hand-rolled byte scanner rather than line splitting plus number parsing: benchmark files run
//! to tens of megabytes and the parser should not be the thing that shows up in a profile.
//!
//! Two real-world quirks are handled deliberately, because most of the SATLIB corpus trips at
//! least one of them:
//!
//! * SATLIB instances terminate the clause list with a `%` line followed by a stray `0`. Parsing
//!   past it yields a spurious empty clause and a confidently wrong `UNSATISFIABLE`.
//! * Headers routinely disagree with the body. The header is treated as an allocation hint and
//!   a cross-check, never as ground truth.

pub mod grammar;
pub mod lines;
pub mod parser;
pub mod terminator;
pub mod writer;

pub use parser::{parse_bytes, DimacsError, ParsedCnf};
pub use writer::write_cnf;
