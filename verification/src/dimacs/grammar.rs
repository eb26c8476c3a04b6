//! What a DIMACS text says.

use vstd::prelude::*;
use crate::cnf::cover;
use crate::lit::{mk_lit, Lit, Var};

verus! {

/// A space, a tab or a carriage return.
pub open spec fn is_blank(b: u8) -> bool {
    b == 32 || b == 9 || b == 13
}

/// A blank or a line feed.
pub open spec fn is_space(b: u8) -> bool {
    is_blank(b) || b == 10
}

/// What ends a token in an error message: white space, the form feed included.
pub open spec fn ends_token(b: u8) -> bool {
    is_space(b) || b == 12
}

/// A decimal digit.
pub open spec fn is_digit(b: u8) -> bool {
    48 <= b <= 57
}

/// The first place from `i` on with no white space.
pub open spec fn skip_space(s: Seq<u8>, i: int) -> int
    decreases s.len() - i,
{
    if 0 <= i < s.len() && is_space(s[i]) {
        skip_space(s, i + 1)
    } else {
        i
    }
}

/// The first place from `i` on with no blank.
pub open spec fn skip_blanks(s: Seq<u8>, i: int) -> int
    decreases s.len() - i,
{
    if 0 <= i < s.len() && is_blank(s[i]) {
        skip_blanks(s, i + 1)
    } else {
        i
    }
}

/// The start of the next line.
pub open spec fn next_line(s: Seq<u8>, i: int) -> int
    decreases s.len() - i,
{
    if 0 <= i < s.len() {
        if s[i] == 10 {
            i + 1
        } else {
            next_line(s, i + 1)
        }
    } else {
        i
    }
}

/// The end of the digits from `i` on.
pub open spec fn digits_end(s: Seq<u8>, i: int) -> int
    decreases s.len() - i,
{
    if 0 <= i < s.len() && is_digit(s[i]) {
        digits_end(s, i + 1)
    } else {
        i
    }
}

/// The end of the token from `i` on.
pub open spec fn token_end(s: Seq<u8>, i: int) -> int
    decreases s.len() - i,
{
    if 0 <= i < s.len() && !ends_token(s[i]) {
        token_end(s, i + 1)
    } else {
        i
    }
}

/// The number that the digits from `a` to `b` write.
pub open spec fn number(s: Seq<u8>, a: int, b: int) -> nat
    decreases b - a,
{
    if a >= b {
        0
    } else {
        number(s, a, b - 1) * 10 + (s[b - 1] - 48) as nat
    }
}

/// The number of the line that holds place `i`: one more than the line feeds before it.
pub open spec fn line_at(s: Seq<u8>, i: int) -> nat
    decreases i,
{
    if i <= 0 {
        1
    } else {
        line_at(s, i - 1) + if s[i - 1] == 10 {
            1nat
        } else {
            0nat
        }
    }
}

/// What is wrong with a text.
pub enum Fault {
    /// The header on this line does not read as one.
    Header {
        /// The line.
        line: nat,
    },
    /// A token on this line is not an integer.
    Integer {
        /// The line.
        line: nat,
        /// The bytes of the token.
        token: Seq<u8>,
    },
    /// A literal on this line is over a variable that cannot be numbered.
    Variable {
        /// The line.
        line: nat,
        /// The literal.
        value: int,
    },
    /// The text ends inside a clause.
    Unterminated,
}

/// A sign stands at `i`.
pub open spec fn has_sign(s: Seq<u8>, i: int) -> bool {
    0 <= i < s.len() && (s[i] == 45 || s[i] == 43)
}

/// Where the digits of the integer at `i` start.
pub open spec fn digits_start(s: Seq<u8>, i: int) -> int {
    if has_sign(s, i) {
        i + 1
    } else {
        i
    }
}

/// The integer after any white space from `i` on and where it ends, or the token that is none: it
/// has no digits, or more than a signed 64-bit number holds.
pub open spec fn integer_at(s: Seq<u8>, i: int) -> Result<(int, int), Fault> {
    let start = skip_space(s, i);
    let from = digits_start(s, start);
    let to = digits_end(s, from);
    let size = number(s, from, to);
    if from == to || size > i64::MAX {
        Err(Fault::Integer { line: line_at(s, start), token: s.subrange(start, token_end(s, to)) })
    } else if has_sign(s, start) && s[start] == 45 {
        Ok((-size, to))
    } else {
        Ok((size as int, to))
    }
}

/// The word `cnf` stands at `i`.
pub open spec fn cnf_at(s: Seq<u8>, i: int) -> bool {
    0 <= i && i + 3 <= s.len() && s[i] == 99 && s[i + 1] == 110 && s[i + 2] == 102
}

/// The counts that the header whose `p` stands at `i` declares, and where it ends.
pub open spec fn header_at(s: Seq<u8>, i: int) -> Result<((usize, usize), int), Fault> {
    let j = skip_blanks(s, i + 1);
    if !cnf_at(s, j) {
        Err(Fault::Header { line: line_at(s, i) })
    } else {
        match integer_at(s, j + 3) {
            Err(e) => Err(e),
            Ok((vars, k)) => match integer_at(s, k) {
                Err(e) => Err(e),
                Ok((clauses, end)) => if vars < 0 || clauses < 0 {
                    Err(Fault::Header { line: line_at(s, i) })
                } else {
                    Ok(((vars as usize, clauses as usize), end))
                },
            },
        }
    }
}

/// Scanning never moves back, nor past the end.
pub proof fn lemma_scans(s: Seq<u8>, i: int)
    requires
        0 <= i <= s.len(),
    ensures
        i <= skip_space(s, i) <= s.len(),
        i <= skip_blanks(s, i) <= s.len(),
        i <= next_line(s, i) <= s.len(),
        i < s.len() ==> i < next_line(s, i),
        i <= digits_end(s, i) <= s.len(),
        i <= token_end(s, i) <= s.len(),
        i <= digits_start(s, i) <= s.len(),
    decreases s.len() - i,
{
    if i < s.len() {
        lemma_scans(s, i + 1);
    }
}

/// An integer ends after it starts, and within the text.
pub proof fn lemma_integer_ends(s: Seq<u8>, i: int)
    requires
        0 <= i <= s.len(),
    ensures
        integer_at(s, i) matches Ok((v, e)) ==> i < e <= s.len() && -i64::MAX <= v <= i64::MAX,
{
    lemma_scans(s, i);
    lemma_scans(s, skip_space(s, i));
    lemma_scans(s, digits_start(s, skip_space(s, i)));
}

/// The header's counts, if there is one, and where the clauses start: comments may come first.
pub open spec fn preamble(s: Seq<u8>, i: int) -> Result<(Option<(usize, usize)>, int), Fault>
    decreases s.len() - i,
    when 0 <= i <= s.len()
    via preamble_moves_on
{
    let j = skip_space(s, i);
    if j >= s.len() {
        Ok((None, j))
    } else if s[j] == 99 {
        preamble(s, next_line(s, j))
    } else if s[j] == 112 {
        match header_at(s, j) {
            Err(e) => Err(e),
            Ok((counts, end)) => Ok((Some(counts), end)),
        }
    } else {
        Ok((None, j))
    }
}

/// The clauses from `i` on, after the clauses `f` and the literals `c` of the clause under way.
///
/// Comments are skipped, a zero ends a clause, and a percent sign ends the text.
pub open spec fn clauses_from(s: Seq<u8>, i: int, f: Seq<Seq<Lit>>, c: Seq<Lit>) -> Result<Seq<Seq<Lit>>, Fault>
    decreases s.len() - i,
    when 0 <= i <= s.len()
    via clauses_move_on
{
    let j = skip_space(s, i);
    if j >= s.len() || s[j] == 37 {
        if c.len() > 0 {
            Err(Fault::Unterminated)
        } else {
            Ok(f)
        }
    } else if s[j] == 99 {
        clauses_from(s, next_line(s, j), f, c)
    } else {
        match integer_at(s, j) {
            Err(e) => Err(e),
            Ok((v, end)) => if v == 0 {
                clauses_from(s, end, f.push(c), Seq::empty())
            } else if v > Var::MAX_INDEX || v < -Var::MAX_INDEX {
                Err(Fault::Variable { line: line_at(s, end), value: v })
            } else {
                clauses_from(s, end, f, c.push(literal(v)))
            },
        }
    }
}

#[via_fn]
proof fn preamble_moves_on(s: Seq<u8>, i: int) {
    lemma_scans(s, i);
    lemma_scans(s, skip_space(s, i));
}

#[via_fn]
proof fn clauses_move_on(s: Seq<u8>, i: int, f: Seq<Seq<Lit>>, c: Seq<Lit>) {
    lemma_scans(s, i);
    lemma_scans(s, skip_space(s, i));
    lemma_integer_ends(s, skip_space(s, i));
}

/// The literal with a given DIMACS number.
pub open spec fn literal(v: int) -> Lit {
    if v > 0 {
        mk_lit(v - 1, true)
    } else {
        mk_lit(-v - 1, false)
    }
}

/// What a text says: the counts that its header declares, and its clauses.
pub struct Reading {
    /// The header's variable and clause counts.
    pub declared: Option<(usize, usize)>,
    /// The clauses.
    pub clauses: Seq<Seq<Lit>>,
}

/// What a text says, or the first thing wrong with it.
pub open spec fn reading(s: Seq<u8>) -> Result<Reading, Fault> {
    match preamble(s, 0) {
        Err(e) => Err(e),
        Ok((declared, i)) => match clauses_from(s, i, Seq::empty(), Seq::empty()) {
            Err(e) => Err(e),
            Ok(clauses) => Ok(Reading { declared, clauses }),
        },
    }
}

/// The least variable count that is at least `n` and covers every clause.
pub open spec fn cover_all(n: int, f: Seq<Seq<Lit>>) -> int
    decreases f.len(),
{
    if f.len() == 0 {
        n
    } else {
        cover(cover_all(n, f.drop_last()), f.last())
    }
}

impl Reading {
    /// The number of variables: what the header declares, or more where the clauses need more.
    pub open spec fn num_vars(self) -> int {
        match self.declared {
            Some((vars, _)) => cover_all(vars as int, self.clauses),
            None => cover_all(0, self.clauses),
        }
    }
}

} // verus!
