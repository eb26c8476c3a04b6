//! Reading and writing DIMACS.

use dpbst_core::dimacs::{parse_bytes, write_cnf, DimacsError};
use dpbst_core::{Cnf, Lit};

fn parse(text: &str) -> Cnf {
    parse_bytes(text.as_bytes()).expect("should parse").cnf
}

#[test]
fn parses_a_plain_instance() {
    let cnf = parse("p cnf 3 2\n1 -2 0\n2 3 0\n");
    assert_eq!(cnf.num_vars(), 3);
    assert_eq!(cnf.num_clauses(), 2);
    assert_eq!(cnf.clause(0), [1, -2].map(Lit::from_dimacs));
}

#[test]
fn comments_are_ignored_anywhere() {
    let cnf = parse("c leading\nc more\np cnf 2 2\n1 0\nc between\n-2 0\n");
    assert_eq!(cnf.num_clauses(), 2);
}

#[test]
fn clauses_may_span_lines_and_share_them() {
    let cnf = parse("p cnf 4 2\n1\n-2 0 3 4\n0\n");
    assert_eq!(cnf.num_clauses(), 2);
    assert_eq!(cnf.clause(0).len(), 2);
    assert_eq!(cnf.clause(1).len(), 2);
}

/// The quirk that matters: SATLIB files end with `%` then a lone `0`. Reading through it
/// invents an empty clause and turns every instance unsatisfiable.
#[test]
fn satlib_percent_terminator_stops_the_parse() {
    let cnf = parse("p cnf 2 1\n1 2 0\n%\n0\n\n");
    assert_eq!(cnf.num_clauses(), 1);
    assert!(cnf.clauses().iter().all(|c| !c.is_empty()));
}

#[test]
fn header_is_a_hint_not_ground_truth() {
    let parsed = parse_bytes(b"p cnf 10 5\n1 0\n").unwrap();
    assert_eq!(parsed.declared_vars, Some(10));
    assert_eq!(parsed.declared_clauses, Some(5));
    assert_eq!(parsed.cnf.num_clauses(), 1);
    assert!(!parsed.header_matches_body());
    // The declared variable count still widens the formula.
    assert_eq!(parsed.cnf.num_vars(), 10);
}

#[test]
fn missing_header_is_tolerated() {
    let cnf = parse("1 -2 0\n2 0\n");
    assert_eq!(cnf.num_clauses(), 2);
    assert_eq!(cnf.num_vars(), 2);
}

#[test]
fn empty_clause_is_preserved() {
    let cnf = parse("p cnf 1 2\n1 0\n0\n");
    assert_eq!(cnf.num_clauses(), 2);
    assert!(cnf.clause(1).is_empty());
}

#[test]
fn unterminated_clause_is_an_error() {
    let err = parse_bytes(b"p cnf 2 1\n1 2\n").unwrap_err();
    assert!(matches!(err, DimacsError::UnterminatedClause));
}

#[test]
fn garbage_token_is_reported_with_its_line() {
    let err = parse_bytes(b"p cnf 2 1\n1 two 0\n").unwrap_err();
    match err {
        DimacsError::BadInteger { line, token } => {
            assert_eq!(line, 2);
            assert_eq!(token, "two");
        }
        other => panic!("unexpected error: {}", other.to_string()),
    }
}

#[test]
fn bad_header_keyword_is_rejected() {
    let err = parse_bytes(b"p dnf 2 1\n1 0\n").unwrap_err();
    assert!(matches!(err, DimacsError::BadHeader { line: 1 }));
}

#[test]
fn oversized_variable_is_rejected_rather_than_wrapping() {
    let err = parse_bytes(b"p cnf 1 1\n9999999999 0\n").unwrap_err();
    assert!(matches!(err, DimacsError::VarTooLarge { .. }));
}

#[test]
fn writing_then_parsing_is_the_identity() {
    let original = parse("p cnf 3 2\n1 -2 0\n-3 0\n");
    let buf = write_cnf(&original);
    let round_tripped = parse_bytes(&buf).unwrap().cnf;
    assert_eq!(original, round_tripped);
}
