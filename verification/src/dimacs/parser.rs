//! The parser: one pass over the bytes, no splitting into lines or words.

use vstd::prelude::*;
use vstd::slice::slice_subrange;
use vstd::string::*;
use crate::cnf::Cnf;
use crate::lit::{Lit, Var};
use crate::text::{append_decimal, append_signed, decimal, lossy, lossy_text, signed};
use super::grammar::{clauses_from, cover_all, digits_end, digits_start, header_at, integer_at, is_space, lemma_integer_ends, lemma_scans, line_at, literal, next_line, number, preamble, reading, skip_blanks, skip_space, token_end, Fault, Reading};

verus! {

/// Something wrong with a DIMACS input.
#[derive(Debug)]
pub enum DimacsError {
    /// The header does not read `p cnf <vars> <clauses>`.
    BadHeader {
        /// Line of the header.
        line: usize,
    },
    /// A token is not an integer.
    BadInteger {
        /// Line of the token.
        line: usize,
        /// The token.
        token: String,
    },
    /// A literal refers to a variable above the supported maximum.
    VarTooLarge {
        /// Line of the literal.
        line: usize,
        /// The literal.
        value: i64,
        /// Its variable.
        var: u64,
    },
    /// The input ends in the middle of a clause.
    UnterminatedClause,
    /// There is no `p cnf` header. Parsing does without one; this is for callers that do not.
    MissingHeader,
}

impl DimacsError {
    /// The error reports the fault.
    pub open spec fn reports(self, fault: Fault) -> bool {
        match (self, fault) {
            (DimacsError::BadHeader { line }, Fault::Header { line: l }) => line == l,
            (DimacsError::BadInteger { line, token }, Fault::Integer { line: l, token: t }) => line == l
                && token@ == lossy_text(t) && (vstd::utf8::valid_utf8(t) ==> token@ == vstd::utf8::decode_utf8(t)),
            (DimacsError::VarTooLarge { line, value, var }, Fault::Variable { line: l, value: v }) => line == l
                && value == v && var == if v < 0 {
                -v
            } else {
                v
            },
            (DimacsError::UnterminatedClause, Fault::Unterminated) => true,
            _ => false,
        }
    }

    /// The message as text.
    pub open spec fn message(self) -> Seq<char> {
        match self {
            DimacsError::BadHeader { line } => "line "@ + decimal(line as nat)
                + ": expected the header to read `p cnf <vars> <clauses>`"@,
            DimacsError::BadInteger { line, token } => "line "@ + decimal(line as nat) + ": `"@ + token@
                + "` is not an integer"@,
            DimacsError::VarTooLarge { line, value, var } => "line "@ + decimal(line as nat) + ": literal "@ + signed(
                value as int,
            ) + " refers to variable "@ + decimal(var as nat) + ", above the supported maximum"@,
            DimacsError::UnterminatedClause => "input ends in the middle of a clause; a trailing `0` is missing"@,
            DimacsError::MissingHeader => "no `p cnf` header found"@,
        }
    }

    /// The message for people.
    pub fn to_string(&self) -> (s: String)
        ensures
            s@ == self.message(),
    {
        match self {
            DimacsError::BadHeader { line } => {
                let mut s = "line ".to_owned();
                append_decimal(&mut s, *line as u64);
                s.append(": expected the header to read `p cnf <vars> <clauses>`");
                s
            },
            DimacsError::BadInteger { line, token } => {
                let mut s = "line ".to_owned();
                append_decimal(&mut s, *line as u64);
                s.append(": `");
                s.append(token.as_str());
                s.append("` is not an integer");
                s
            },
            DimacsError::VarTooLarge { line, value, var } => {
                let mut s = "line ".to_owned();
                append_decimal(&mut s, *line as u64);
                s.append(": literal ");
                append_signed(&mut s, *value);
                s.append(" refers to variable ");
                append_decimal(&mut s, *var);
                s.append(", above the supported maximum");
                s
            },
            DimacsError::UnterminatedClause => {
                "input ends in the middle of a clause; a trailing `0` is missing".to_owned()
            },
            DimacsError::MissingHeader => "no `p cnf` header found".to_owned(),
        }
    }
}

/// Outcome of a parse, including what the header claimed.
#[derive(Debug, Clone)]
pub struct ParsedCnf {
    /// The formula as read.
    pub cnf: Cnf,
    /// Variable count from the `p cnf` header, if there was one.
    pub declared_vars: Option<usize>,
    /// Clause count from the `p cnf` header, if there was one.
    pub declared_clauses: Option<usize>,
}

impl ParsedCnf {
    /// What was read is what the text says.
    pub open spec fn shows(self, r: Reading) -> bool {
        &&& self.cnf.wf()
        &&& self.cnf@ == r.clauses
        &&& self.cnf.nv() == r.num_vars()
        &&& match r.declared {
            Some((vars, clauses)) => self.declared_vars == Some(vars) && self.declared_clauses == Some(clauses),
            None => self.declared_vars is None && self.declared_clauses is None,
        }
    }

    /// Whether the header's counts match what was actually read.
    ///
    /// A mismatch is not an error — plenty of real instances have one — but it is worth
    /// reporting.
    pub fn header_matches_body(&self) -> (b: bool)
        requires
            self.cnf.wf(),
        ensures
            b == ((self.declared_clauses matches Some(c) ==> c == self.cnf@.len()) && (
            self.declared_vars matches Some(v) ==> v == self.cnf.nv())),
    {
        let clauses_fit = match self.declared_clauses {
            Some(c) => c == self.cnf.num_clauses(),
            None => true,
        };
        let vars_fit = match self.declared_vars {
            Some(v) => v == self.cnf.num_vars(),
            None => true,
        };
        clauses_fit && vars_fit
    }
}

/// A place in the input, and the number of its line.
struct Parser<'a> {
    input: &'a [u8],
    pos: usize,
    line: usize,
}

impl<'a> Parser<'a> {
    spec fn wf(&self) -> bool {
        &&& self.pos <= self.input@.len()
        &&& self.line == line_at(self.input@, self.pos as int)
        &&& self.input@.len() < usize::MAX
    }

    /// Moves over one byte.
    fn step(&mut self)
        requires
            old(self).wf(),
            old(self).pos < old(self).input@.len(),
        ensures
            final(self).wf(),
            final(self).input == old(self).input,
            final(self).pos == old(self).pos + 1,
    {
        proof {
            lemma_line_bound(self.input@, self.pos as int);
        }
        if self.input[self.pos] == 10 {
            self.line = self.line + 1;
        }
        self.pos = self.pos + 1;
    }

    /// Skips spaces and tabs but stops at a newline.
    fn skip_spaces(&mut self)
        requires
            old(self).wf(),
        ensures
            final(self).wf(),
            final(self).input == old(self).input,
            final(self).pos == skip_blanks(old(self).input@, old(self).pos as int),
    {
        let ghost goal = skip_blanks(self.input@, self.pos as int);
        while self.pos < self.input.len() && (self.input[self.pos] == 32 || self.input[self.pos] == 9
            || self.input[self.pos] == 13)
            invariant
                self.wf(),
                self.input == old(self).input,
                goal == skip_blanks(self.input@, self.pos as int),
            decreases self.input.len() - self.pos,
        {
            self.step();
        }
    }

    /// Skips white space.
    fn skip_whitespace(&mut self)
        requires
            old(self).wf(),
        ensures
            final(self).wf(),
            final(self).input == old(self).input,
            final(self).pos == skip_space(old(self).input@, old(self).pos as int),
    {
        let ghost goal = skip_space(self.input@, self.pos as int);
        while self.pos < self.input.len() && (self.input[self.pos] == 32 || self.input[self.pos] == 9
            || self.input[self.pos] == 13 || self.input[self.pos] == 10)
            invariant
                self.wf(),
                self.input == old(self).input,
                goal == skip_space(self.input@, self.pos as int),
            decreases self.input.len() - self.pos,
        {
            self.step();
        }
    }

    /// Skips the rest of the line.
    fn skip_line(&mut self)
        requires
            old(self).wf(),
        ensures
            final(self).wf(),
            final(self).input == old(self).input,
            final(self).pos == next_line(old(self).input@, old(self).pos as int),
    {
        let ghost goal = next_line(self.input@, self.pos as int);
        while self.pos < self.input.len() && self.input[self.pos] != 10
            invariant
                self.wf(),
                self.input == old(self).input,
                goal == next_line(self.input@, self.pos as int),
            decreases self.input.len() - self.pos,
        {
            self.step();
        }
        if self.pos < self.input.len() {
            self.step();
        }
    }

    /// Parses one signed integer, in `i64` so that an out-of-range variable can be reported as a
    /// clear diagnostic rather than silently wrapping.
    fn parse_int(&mut self) -> (r: Result<i64, DimacsError>)
        requires
            old(self).wf(),
        ensures
            final(self).wf(),
            final(self).input == old(self).input,
            match integer_at(old(self).input@, old(self).pos as int) {
                Ok((v, end)) => r is Ok && r->Ok_0 == v && final(self).pos == end,
                Err(e) => r is Err && r->Err_0.reports(e),
            },
    {
        let ghost s = self.input@;
        let ghost from = self.pos as int;
        self.skip_whitespace();
        let start: usize = self.pos;
        let line: usize = self.line;
        let signed = self.pos < self.input.len() && (self.input[self.pos] == 45 || self.input[self.pos] == 43);
        let negative = signed && self.input[self.pos] == 45;
        if signed {
            self.step();
        }
        let digits: usize = self.pos;
        let mut value: i64 = 0;
        let mut overflow = false;
        let ghost to = digits_end(s, digits as int);
        while self.pos < self.input.len() && 48 <= self.input[self.pos] && self.input[self.pos] <= 57
            invariant
                self.wf(),
                s == self.input@,
                self.input == old(self).input,
                digits <= self.pos,
                to == digits_end(s, self.pos as int),
                value >= 0,
                !overflow ==> value == number(s, digits as int, self.pos as int),
                overflow ==> number(s, digits as int, self.pos as int) > i64::MAX,
            decreases self.input.len() - self.pos,
        {
            let d: i64 = (self.input[self.pos] - 48) as i64;
            if value > 922_337_203_685_477_580 || value * 10 > i64::MAX - d {
                overflow = true;
                value = i64::MAX;
            } else {
                value = value * 10 + d;
            }
            self.step();
        }
        proof {
            assert(self.pos == to);
            assert(from_start(s, from, start as int, digits as int));
            lemma_scans(s, to);
        }
        if self.pos == digits || overflow {
            // Consume the rest of the offending token so the message shows all of it.
            while self.pos < self.input.len() && !(self.input[self.pos] == 32 || self.input[self.pos] == 9
                || self.input[self.pos] == 13 || self.input[self.pos] == 10 || self.input[self.pos] == 12)
                invariant
                    self.wf(),
                    s == self.input@,
                    self.input == old(self).input,
                    start <= self.pos,
                    token_end(s, to) == token_end(s, self.pos as int),
                decreases self.input.len() - self.pos,
            {
                self.step();
            }
            let token = lossy(slice_subrange(self.input, start, self.pos));
            return Err(DimacsError::BadInteger { line, token });
        }
        Ok(
            if negative {
                -value
            } else {
                value
            },
        )
    }

    /// Parses the header whose `p` stands here.
    fn parse_header(&mut self) -> (r: Result<(usize, usize), DimacsError>)
        requires
            old(self).wf(),
            old(self).pos < old(self).input@.len(),
        ensures
            final(self).wf(),
            final(self).input == old(self).input,
            match header_at(old(self).input@, old(self).pos as int) {
                Ok((counts, end)) => r is Ok && r->Ok_0 == counts && final(self).pos == end,
                Err(e) => r is Err && r->Err_0.reports(e),
            },
    {
        let line: usize = self.line;
        self.step();
        self.skip_spaces();
        let word = self.input.len() - self.pos >= 3 && self.input[self.pos] == 99 && self.input[self.pos + 1] == 110
            && self.input[self.pos + 2] == 102;
        if !word {
            return Err(DimacsError::BadHeader { line });
        }
        self.step();
        self.step();
        self.step();
        let vars: i64 = match self.parse_int() {
            Ok(v) => v,
            Err(e) => {
                return Err(e);
            },
        };
        let clauses: i64 = match self.parse_int() {
            Ok(v) => v,
            Err(e) => {
                return Err(e);
            },
        };
        if vars < 0 || clauses < 0 {
            return Err(DimacsError::BadHeader { line });
        }
        Ok((vars as usize, clauses as usize))
    }
}

/// The most clauses that a header's word alone makes room for.
const MAX_RESERVED: usize = 0x10_0000;

impl<'a> Parser<'a> {
    /// Reads the header, if there is one, and the comments around it.
    fn parse_preamble(&mut self) -> (r: Result<Option<(usize, usize)>, DimacsError>)
        requires
            old(self).wf(),
        ensures
            final(self).wf(),
            final(self).input == old(self).input,
            match preamble(old(self).input@, old(self).pos as int) {
                Ok((declared, at)) => r is Ok && r->Ok_0 == declared && final(self).pos == at,
                Err(e) => r is Err && r->Err_0.reports(e),
            },
    {
        let ghost s = self.input@;
        let ghost goal = preamble(s, self.pos as int);
        loop
            invariant
                self.wf(),
                self.input == old(self).input,
                s == self.input@,
                goal == preamble(s, self.pos as int),
                goal == preamble(old(self).input@, old(self).pos as int),
            decreases self.input@.len() - self.pos,
        {
            proof {
                lemma_scans(s, self.pos as int);
                lemma_scans(s, skip_space(s, self.pos as int));
            }
            self.skip_whitespace();
            if self.pos >= self.input.len() {
                return Ok(None);
            }
            let b: u8 = self.input[self.pos];
            if b == 99 {
                self.skip_line();
            } else if b == 112 {
                return match self.parse_header() {
                    Ok(counts) => Ok(Some(counts)),
                    Err(e) => Err(e),
                };
            } else {
                return Ok(None);
            }
        }
    }

    /// Reads the clauses into the formula.
    fn parse_clauses(&mut self, cnf: &mut Cnf, Ghost(n): Ghost<int>) -> (r: Result<(), DimacsError>)
        requires
            old(self).wf(),
            old(cnf).wf(),
            old(cnf)@.len() == 0,
            old(cnf).nv() == n,
        ensures
            final(self).input == old(self).input,
            match clauses_from(old(self).input@, old(self).pos as int, Seq::empty(), Seq::empty()) {
                Ok(f) => r is Ok && final(cnf).wf() && final(cnf)@ == f && final(cnf).nv() == cover_all(n, f),
                Err(e) => r is Err && r->Err_0.reports(e),
            },
    {
        let ghost s = self.input@;
        let ghost goal = clauses_from(s, self.pos as int, Seq::empty(), Seq::empty());
        let mut clause: Vec<Lit> = Vec::new();
        assert(cnf@ =~= Seq::<Seq<Lit>>::empty());
        assert(clause@ =~= Seq::<Lit>::empty());
        loop
            invariant
                self.wf(),
                self.input == old(self).input,
                s == self.input@,
                cnf.wf(),
                cnf.nv() == cover_all(n, cnf@),
                goal == clauses_from(s, self.pos as int, cnf@, clause@),
                goal == clauses_from(old(self).input@, old(self).pos as int, Seq::empty(), Seq::empty()),
            decreases self.input@.len() - self.pos,
        {
            proof {
                let j = skip_space(s, self.pos as int);
                lemma_scans(s, self.pos as int);
                lemma_scans(s, j);
                lemma_integer_ends(s, j);
                lemma_skip_twice(s, self.pos as int);
            }
            self.skip_whitespace();
            // End of input, or a percent sign: everything after it is not clause data.
            if self.pos >= self.input.len() || self.input[self.pos] == 37 {
                if clause.len() > 0 {
                    return Err(DimacsError::UnterminatedClause);
                }
                return Ok(());
            }
            if self.input[self.pos] == 99 {
                self.skip_line();
            } else {
                let value: i64 = match self.parse_int() {
                    Ok(v) => v,
                    Err(e) => {
                        return Err(e);
                    },
                };
                if value == 0 {
                    proof {
                        assert(cnf@.push(clause@).drop_last() =~= cnf@);
                    }
                    cnf.add_clause(&clause);
                    clause = Vec::new();
                    assert(clause@ =~= Seq::<Lit>::empty());
                } else {
                    let size: u64 = if value < 0 {
                        (-value) as u64
                    } else {
                        value as u64
                    };
                    if size > Var::MAX_INDEX as u64 {
                        return Err(DimacsError::VarTooLarge { line: self.line, value, var: size });
                    }
                    let lit = Var::from_index((size - 1) as usize).lit(value > 0);
                    assert(lit == literal(value as int));
                    clause.push(lit);
                }
            }
        }
    }
}

/// Parses DIMACS CNF from a byte slice.
pub fn parse_bytes(input: &[u8]) -> (r: Result<ParsedCnf, DimacsError>)
    requires
        input@.len() < usize::MAX,
    ensures
        match reading(input@) {
            Ok(t) => r is Ok && r->Ok_0.shows(t),
            Err(e) => r is Err && r->Err_0.reports(e),
        },
{
    let mut parser = Parser { input, pos: 0, line: 1 };
    let declared = match parser.parse_preamble() {
        Ok(d) => d,
        Err(e) => {
            return Err(e);
        },
    };
    // Trust the header enough to size the allocation, within reason. An average clause in the wild
    // is short, so three literals is a reasonable guess for the literal pool.
    let mut cnf = match declared {
        Some((vars, clauses)) => {
            let room: usize = if clauses < MAX_RESERVED {
                clauses
            } else {
                MAX_RESERVED
            };
            Cnf::with_capacity(vars, room, 3 * room)
        },
        // A missing header is tolerated; some generators omit it.
        None => Cnf::new(0),
    };
    let ghost n = cnf.nv();
    match parser.parse_clauses(&mut cnf, Ghost(n)) {
        Ok(_) => {},
        Err(e) => {
            return Err(e);
        },
    }
    let (declared_vars, declared_clauses) = match declared {
        Some((vars, clauses)) => (Some(vars), Some(clauses)),
        None => (None, None),
    };
    Ok(ParsedCnf { cnf, declared_vars, declared_clauses })
}

/// Skipping white space where there is none left.
proof fn lemma_skip_twice(s: Seq<u8>, i: int)
    requires
        0 <= i <= s.len(),
    ensures
        skip_space(s, skip_space(s, i)) == skip_space(s, i),
    decreases s.len() - i,
{
    if i < s.len() && is_space(s[i]) {
        lemma_skip_twice(s, i + 1);
    }
}

/// The digits of an integer start where its sign, if any, ends.
spec fn from_start(s: Seq<u8>, from: int, start: int, digits: int) -> bool {
    start == skip_space(s, from) && digits == digits_start(s, start)
}

/// There are at most as many lines as bytes, and one.
proof fn lemma_line_bound(s: Seq<u8>, i: int)
    requires
        0 <= i,
    ensures
        line_at(s, i) <= i + 1,
    decreases i,
{
    if i > 0 {
        lemma_line_bound(s, i - 1);
    }
}

} // verus!
