//! How the reading of a text follows from the reading of its lines.
//!
//! A text is taken apart at the end of a line, and something is put in between: a comment, white
//! space, a number, a header, or what is none of these.

use vstd::prelude::*;
use crate::count::cnt;
use crate::lit::{Lit, Var};
use crate::cnf::{cover, lemma_cover};
use crate::semantics::{clause_below, formula_below};
use super::parser::{DimacsError, ParsedCnf};
use super::grammar::{clauses_from, cover_all, digits_end, digits_start, ends_token, header_at, integer_at, is_blank, is_digit, is_space, lemma_integer_ends, lemma_scans, line_at, literal, next_line, number, preamble, reading, skip_blanks, skip_space, token_end, Fault, Reading};

verus! {

/// The text is made of whole lines.
pub open spec fn whole(a: Seq<u8>) -> bool {
    a.len() > 0 ==> a.last() == 10
}

/// Nothing is wrong with the text so far: it can be read, or a clause is under way at its end.
pub open spec fn sound_so_far(a: Seq<u8>) -> bool {
    reading(a) is Ok || reading(a) == Err::<Reading, Fault>(Fault::Unterminated)
}

/// The fault, with the line that it names `k` lines further down.
pub open spec fn moved_fault(e: Fault, k: int) -> Fault {
    match e {
        Fault::Header { line } => Fault::Header { line: (line + k) as nat },
        Fault::Integer { line, token } => Fault::Integer { line: (line + k) as nat, token },
        Fault::Variable { line, value } => Fault::Variable { line: (line + k) as nat, value },
        Fault::Unterminated => Fault::Unterminated,
    }
}

/// The same result, with the fault, if there is one, `k` lines further down.
pub open spec fn moved<T>(r: Result<T, Fault>, k: int) -> Result<T, Fault> {
    match r {
        Ok(x) => Ok(x),
        Err(e) => Err(moved_fault(e, k)),
    }
}

/// A line that starts with the letter `c`, with the line feed that ends it.
pub open spec fn is_comment_line(c: Seq<u8>) -> bool {
    &&& c.len() >= 2
    &&& c[0] == 99
    &&& c.last() == 10
    &&& forall|i: int| 0 <= i < c.len() - 1 ==> #[trigger] c[i] != 10
}

/// The number that digits stand for, the most significant one first.
pub open spec fn digits_value(w: Seq<u8>) -> nat
    decreases w.len(),
{
    if w.len() == 0 {
        0
    } else {
        10 * digits_value(w.drop_last()) + (w.last() - 48) as nat
    }
}

/// The word without its sign.
pub open spec fn unsigned(w: Seq<u8>) -> Seq<u8> {
    if w.len() > 0 && (w[0] == 43 || w[0] == 45) {
        w.skip(1)
    } else {
        w
    }
}

/// The word is a numeral for `v`: one or more digits, with a plus or minus sign before them or none.
pub open spec fn spells(w: Seq<u8>, v: int) -> bool {
    &&& unsigned(w).len() > 0
    &&& forall|i: int| 0 <= i < unsigned(w).len() ==> 48 <= #[trigger] unsigned(w)[i] <= 57
    &&& v == if w[0] == 45 {
        -digits_value(unsigned(w))
    } else {
        digits_value(unsigned(w)) as int
    }
}

/// What follows the clauses so far, from place `n` on.
spec fn read_on(t: Seq<u8>, n: int) -> Result<Reading, Fault> {
    match preamble(t, n) {
        Err(e) => Err(e),
        Ok((declared, i)) => match clauses_from(t, i, Seq::empty(), Seq::empty()) {
            Err(e) => Err(e),
            Ok(clauses) => Ok(Reading { declared, clauses }),
        },
    }
}

/// Within whole lines, scanning does not depend on what comes after them.
proof fn lemma_prefix_scans(a: Seq<u8>, x: Seq<u8>, i: int)
    requires
        whole(a),
        0 <= i < a.len(),
    ensures
        skip_space(a, i) < a.len() ==> skip_space(a + x, i) == skip_space(a, i),
        skip_space(a, i) <= a.len(),
        skip_space(a, i) == a.len() ==> skip_space(a + x, i) == skip_space(a + x, a.len() as int),
        next_line(a + x, i) == next_line(a, i),
        skip_blanks(a, i) < a.len(),
        skip_blanks(a + x, i) == skip_blanks(a, i),
        digits_end(a, i) < a.len(),
        digits_end(a + x, i) == digits_end(a, i),
        digits_start(a + x, i) == digits_start(a, i),
        digits_start(a, i) < a.len(),
    decreases a.len() - i,
{
    assert((a + x)[i] == a[i]);
    if i + 1 < a.len() {
        lemma_prefix_scans(a, x, i + 1);
    } else {
        assert(a[i] == 10);
        lemma_scans(a, i + 1);
    }
}

proof fn lemma_prefix_number(a: Seq<u8>, x: Seq<u8>, p: int, q: int)
    requires
        0 <= p,
        q <= a.len(),
    ensures
        number(a + x, p, q) == number(a, p, q),
    decreases q - p,
{
    if p < q {
        lemma_prefix_number(a, x, p, q - 1);
        assert((a + x)[q - 1] == a[q - 1]);
    }
}

proof fn lemma_prefix_integer(a: Seq<u8>, x: Seq<u8>, i: int)
    requires
        whole(a),
        0 <= i <= a.len(),
        integer_at(a, i) is Ok,
    ensures
        integer_at(a + x, i) == integer_at(a, i),
        i < integer_at(a, i)->Ok_0.1 < a.len(),
        i < a.len(),
{
    lemma_scans(a, i);
    let start = skip_space(a, i);
    lemma_scans(a, start);
    lemma_integer_ends(a, i);
    assert(start < a.len());
    lemma_prefix_scans(a, x, i);
    lemma_prefix_scans(a, x, start);
    let from = digits_start(a, start);
    lemma_prefix_scans(a, x, from);
    lemma_prefix_number(a, x, from, digits_end(a, from));
    assert((a + x)[start] == a[start]);
}

proof fn lemma_prefix_header(a: Seq<u8>, x: Seq<u8>, i: int)
    requires
        whole(a),
        0 <= i < a.len(),
        a[i] == 112,
        header_at(a, i) is Ok,
    ensures
        header_at(a + x, i) == header_at(a, i),
        i < header_at(a, i)->Ok_0.1 < a.len(),
{
    assert(i + 1 < a.len());
    lemma_prefix_scans(a, x, i + 1);
    lemma_scans(a, i + 1);
    let j = skip_blanks(a, i + 1);
    assert((a + x)[j] == a[j] && (a + x)[j + 1] == a[j + 1] && (a + x)[j + 2] == a[j + 2]);
    lemma_prefix_integer(a, x, j + 3);
    lemma_prefix_integer(a, x, integer_at(a, j + 3)->Ok_0.1);
}

/// Only comments and white space stand in the text.
spec fn nothing_yet(a: Seq<u8>) -> bool {
    preamble(a, 0) == Ok::<(Option<(usize, usize)>, int), Fault>((None, a.len() as int))
}

proof fn lemma_prefix_preamble(a: Seq<u8>, x: Seq<u8>, i: int)
    requires
        whole(a),
        0 <= i <= a.len(),
        preamble(a, i) is Ok,
    ensures
        0 <= preamble(a, i)->Ok_0.1 <= a.len(),
        preamble(a, i)->Ok_0.0 is None && preamble(a, i)->Ok_0.1 == a.len() ==> preamble(a + x, i) == preamble(
            a + x,
            a.len() as int,
        ),
        !(preamble(a, i)->Ok_0.0 is None && preamble(a, i)->Ok_0.1 == a.len()) ==> preamble(a + x, i) == preamble(
            a,
            i,
        ),
    decreases a.len() - i,
{
    lemma_scans(a, i);
    let t = a + x;
    let j = skip_space(a, i);
    if i < a.len() {
        lemma_prefix_scans(a, x, i);
        if j < a.len() {
            assert(t[j] == a[j]);
            lemma_scans(a, j);
            lemma_prefix_scans(a, x, j);
            if a[j] == 99 {
                lemma_prefix_preamble(a, x, next_line(a, j));
            } else if a[j] == 112 {
                lemma_prefix_header(a, x, j);
            }
        } else {
            lemma_scans(t, a.len() as int);
        }
    }
}

/// The clauses and the literals of the clause under way at the end of the text, and whether the text
/// was ended before.
spec fn after(a: Seq<u8>, i: int, f: Seq<Seq<Lit>>, c: Seq<Lit>) -> (Seq<Seq<Lit>>, Seq<Lit>, bool)
    decreases a.len() - i,
{
    let j = skip_space(a, i);
    if !(0 <= i <= j < a.len()) {
        (f, c, false)
    } else if a[j] == 37 {
        (f, c, true)
    } else if a[j] == 99 {
        let e = next_line(a, j);
        if i < e <= a.len() {
            after(a, e, f, c)
        } else {
            (f, c, true)
        }
    } else {
        match integer_at(a, j) {
            Err(_) => (f, c, true),
            Ok((v, e)) => if !(i < e <= a.len()) {
                (f, c, true)
            } else if v == 0 {
                after(a, e, f.push(c), Seq::empty())
            } else {
                after(a, e, f, c.push(literal(v)))
            },
        }
    }
}

spec fn clean(r: Result<Seq<Seq<Lit>>, Fault>) -> bool {
    r is Ok || r == Err::<Seq<Seq<Lit>>, Fault>(Fault::Unterminated)
}

/// Reading goes on where the whole lines end.
proof fn lemma_resume(a: Seq<u8>, x: Seq<u8>, i: int, f: Seq<Seq<Lit>>, c: Seq<Lit>)
    requires
        whole(a),
        0 <= i <= a.len(),
        clean(clauses_from(a, i, f, c)),
    ensures
        ({
            let (g, d, stop) = after(a, i, f, c);
            &&& !stop ==> clauses_from(a + x, i, f, c) == clauses_from(a + x, a.len() as int, g, d)
            &&& !stop && d.len() > 0 ==> clauses_from(a, i, f, c) == Err::<Seq<Seq<Lit>>, Fault>(Fault::Unterminated)
            &&& !stop && d.len() == 0 ==> clauses_from(a, i, f, c) == Ok::<Seq<Seq<Lit>>, Fault>(g)
            &&& stop ==> clauses_from(a + x, i, f, c) == clauses_from(a, i, f, c)
            &&& stop ==> exists|k: int| 0 <= k < a.len() && #[trigger] a[k] == 37
        }),
    decreases a.len() - i,
{
    let t = a + x;
    lemma_scans(a, i);
    let j = skip_space(a, i);
    if i < a.len() {
        lemma_prefix_scans(a, x, i);
        if j < a.len() {
            assert(t[j] == a[j]);
            lemma_scans(a, j);
            lemma_prefix_scans(a, x, j);
            if a[j] == 37 {
            } else if a[j] == 99 {
                lemma_resume(a, x, next_line(a, j), f, c);
            } else {
                assert(integer_at(a, j) is Ok);
                lemma_prefix_integer(a, x, j);
                let (v, e) = integer_at(a, j)->Ok_0;
                if v == 0 {
                    lemma_resume(a, x, e, f.push(c), Seq::empty());
                } else {
                    lemma_resume(a, x, e, f, c.push(literal(v)));
                }
            }
        } else {
            lemma_scans(t, a.len() as int);
            lemma_settled(t, i, a.len() as int, f, c);
        }
    }
}

/// Reading goes on behind white space.
proof fn lemma_settled(t: Seq<u8>, i: int, j: int, f: Seq<Seq<Lit>>, c: Seq<Lit>)
    requires
        0 <= i <= t.len(),
        0 <= j <= t.len(),
        skip_space(t, i) == skip_space(t, j),
    ensures
        clauses_from(t, i, f, c) == clauses_from(t, j, f, c),
        preamble(t, i) == preamble(t, j),
{
}

/// What is known where the whole lines end: the header's counts, the clauses, the literals of the
/// clause under way, and whether the text was ended.
spec fn so_far(a: Seq<u8>) -> (Option<(usize, usize)>, Seq<Seq<Lit>>, Seq<Lit>, bool) {
    let (declared, i) = preamble(a, 0)->Ok_0;
    let (f, c, stop) = after(a, i, Seq::empty(), Seq::empty());
    (declared, f, c, stop)
}

spec fn with_header(declared: Option<(usize, usize)>, r: Result<Seq<Seq<Lit>>, Fault>) -> Result<Reading, Fault> {
    match r {
        Err(e) => Err(e),
        Ok(clauses) => Ok(Reading { declared, clauses }),
    }
}

/// Before the clauses no clause is under way.
proof fn lemma_preamble_faults(a: Seq<u8>, i: int)
    requires
        0 <= i <= a.len(),
    ensures
        preamble(a, i) != Err::<(Option<(usize, usize)>, int), Fault>(Fault::Unterminated),
    decreases a.len() - i,
{
    lemma_scans(a, i);
    let j = skip_space(a, i);
    if j < a.len() && a[j] == 99 {
        lemma_scans(a, j);
        lemma_preamble_faults(a, next_line(a, j));
    }
}

/// What a text says when more is put behind it.
#[verifier::spinoff_prover]
#[verifier::rlimit(100)]
proof fn lemma_goes_on(a: Seq<u8>, x: Seq<u8>)
    requires
        whole(a),
        sound_so_far(a),
    ensures
        ({
            let (declared, f, c, stop) = so_far(a);
            &&& nothing_yet(a) ==> reading(a + x) == read_on(a + x, a.len() as int)
            &&& nothing_yet(a) ==> declared is None && f.len() == 0 && c.len() == 0 && !stop
            &&& !nothing_yet(a) && !stop ==> reading(a + x) == with_header(
                declared,
                clauses_from(a + x, a.len() as int, f, c),
            )
            &&& stop ==> reading(a + x) == reading(a) && exists|k: int| 0 <= k < a.len() && #[trigger] a[k] == 37
            &&& !stop ==> reading(a) == with_header(
                declared,
                if c.len() > 0 {
                    Err(Fault::Unterminated)
                } else {
                    Ok(f)
                },
            )
        }),
{
    lemma_preamble_faults(a, 0);
    assert(preamble(a, 0) is Ok);
    lemma_prefix_preamble(a, x, 0);
    let (declared, i) = preamble(a, 0)->Ok_0;
    lemma_resume(a, x, i, Seq::empty(), Seq::empty());
    lemma_scans(a, i);
}

/// Two continuations that differ only in the place of faults.
proof fn lemma_swap(a: Seq<u8>, x: Seq<u8>, y: Seq<u8>, k: int)
    requires
        whole(a),
        sound_so_far(a),
        forall|f: Seq<Seq<Lit>>, c: Seq<Lit>| #[trigger]
            clauses_from(a + y, a.len() as int, f, c) == moved(clauses_from(a + x, a.len() as int, f, c), k),
        read_on(a + y, a.len() as int) == moved(read_on(a + x, a.len() as int), k),
    ensures
        reading(a + y) == moved(reading(a + x), k),
{
    lemma_goes_on(a, x);
    lemma_goes_on(a, y);
}

/// From `x` on, `u` goes on as `v` does `off` places further.
spec fn same_tail(u: Seq<u8>, v: Seq<u8>, x: int, off: int) -> bool {
    &&& 0 <= x <= u.len()
    &&& 0 <= x + off
    &&& u.len() + off == v.len()
    &&& forall|i: int| x <= i < u.len() ==> #[trigger] u[i] == v[i + off]
}

proof fn lemma_tail_scans(u: Seq<u8>, v: Seq<u8>, x: int, off: int, i: int)
    requires
        same_tail(u, v, x, off),
        x <= i <= u.len(),
    ensures
        skip_space(v, i + off) == skip_space(u, i) + off,
        skip_blanks(v, i + off) == skip_blanks(u, i) + off,
        next_line(v, i + off) == next_line(u, i) + off,
        digits_end(v, i + off) == digits_end(u, i) + off,
        digits_start(v, i + off) == digits_start(u, i) + off,
        token_end(v, i + off) == token_end(u, i) + off,
        line_at(v, i + off) - line_at(u, i) == line_at(v, x + off) - line_at(u, x),
    decreases u.len() - i,
{
    lemma_tail_lines(u, v, x, off, i);
    if i < u.len() {
        assert(u[i] == v[i + off]);
        lemma_tail_scans(u, v, x, off, i + 1);
    }
}

proof fn lemma_tail_lines(u: Seq<u8>, v: Seq<u8>, x: int, off: int, i: int)
    requires
        same_tail(u, v, x, off),
        x <= i <= u.len(),
    ensures
        line_at(v, i + off) - line_at(u, i) == line_at(v, x + off) - line_at(u, x),
    decreases i - x,
{
    if x < i {
        lemma_tail_lines(u, v, x, off, i - 1);
        assert(u[i - 1] == v[i - 1 + off]);
    }
}

proof fn lemma_tail_number(u: Seq<u8>, v: Seq<u8>, x: int, off: int, p: int, q: int)
    requires
        same_tail(u, v, x, off),
        x <= p,
        q <= u.len(),
    ensures
        number(v, p + off, q + off) == number(u, p, q),
    decreases q - p,
{
    if p < q {
        lemma_tail_number(u, v, x, off, p, q - 1);
        assert(u[q - 1] == v[q - 1 + off]);
    }
}

/// A number with the place where it ends moved along, or a fault some lines further down.
spec fn moved_end<T>(r: Result<(T, int), Fault>, off: int, k: int) -> Result<(T, int), Fault> {
    match r {
        Ok((v, e)) => Ok((v, e + off)),
        Err(e) => Err(moved_fault(e, k)),
    }
}

proof fn lemma_tail_integer(u: Seq<u8>, v: Seq<u8>, x: int, off: int, i: int)
    requires
        same_tail(u, v, x, off),
        x <= i <= u.len(),
    ensures
        integer_at(v, i + off) == moved_end(integer_at(u, i), off, line_at(v, x + off) - line_at(u, x)),
        integer_at(u, i) matches Ok((n, e)) ==> i < e <= u.len(),
{
    lemma_scans(u, i);
    let start = skip_space(u, i);
    lemma_scans(u, start);
    let from = digits_start(u, start);
    lemma_scans(u, from);
    let to = digits_end(u, from);
    lemma_scans(u, to);
    lemma_integer_ends(u, i);
    lemma_tail_scans(u, v, x, off, i);
    lemma_tail_scans(u, v, x, off, start);
    lemma_tail_scans(u, v, x, off, from);
    lemma_tail_scans(u, v, x, off, to);
    lemma_tail_number(u, v, x, off, from, to);
    let end = token_end(u, to);
    assert(v.subrange(start + off, end + off) =~= u.subrange(start, end));
    if start < u.len() {
        assert(u[start] == v[start + off]);
    }
}

proof fn lemma_tail_header(u: Seq<u8>, v: Seq<u8>, x: int, off: int, i: int)
    requires
        same_tail(u, v, x, off),
        x <= i < u.len(),
    ensures
        header_at(v, i + off) == moved_end(header_at(u, i), off, line_at(v, x + off) - line_at(u, x)),
        header_at(u, i) matches Ok((n, e)) ==> i < e <= u.len(),
{
    lemma_scans(u, i + 1);
    lemma_tail_scans(u, v, x, off, i);
    lemma_tail_scans(u, v, x, off, i + 1);
    let j = skip_blanks(u, i + 1);
    assert(skip_blanks(v, i + off + 1) == j + off);
    if j + 3 <= u.len() {
        assert(u[j] == v[j + off] && u[j + 1] == v[j + 1 + off] && u[j + 2] == v[j + 2 + off]);
        lemma_tail_integer(u, v, x, off, j + 3);
        if let Ok((n, k)) = integer_at(u, j + 3) {
            lemma_tail_integer(u, v, x, off, k);
        }
    }
}

proof fn lemma_tail_clauses(u: Seq<u8>, v: Seq<u8>, x: int, off: int, i: int, f: Seq<Seq<Lit>>, c: Seq<Lit>)
    requires
        same_tail(u, v, x, off),
        x <= i <= u.len(),
    ensures
        clauses_from(v, i + off, f, c) == moved(clauses_from(u, i, f, c), line_at(v, x + off) - line_at(u, x)),
    decreases u.len() - i,
{
    lemma_scans(u, i);
    lemma_tail_scans(u, v, x, off, i);
    let j = skip_space(u, i);
    if j < u.len() {
        assert(u[j] == v[j + off]);
        lemma_scans(u, j);
        lemma_tail_scans(u, v, x, off, j);
        if u[j] == 37 {
        } else if u[j] == 99 {
            lemma_tail_clauses(u, v, x, off, next_line(u, j), f, c);
        } else {
            lemma_tail_integer(u, v, x, off, j);
            if let Ok((n, e)) = integer_at(u, j) {
                lemma_tail_scans(u, v, x, off, e);
                if n == 0 {
                    lemma_tail_clauses(u, v, x, off, e, f.push(c), Seq::empty());
                } else {
                    lemma_tail_clauses(u, v, x, off, e, f, c.push(literal(n)));
                }
            }
        }
    }
}

proof fn lemma_tail_preamble(u: Seq<u8>, v: Seq<u8>, x: int, off: int, i: int)
    requires
        same_tail(u, v, x, off),
        x <= i <= u.len(),
    ensures
        preamble(v, i + off) == moved_end(preamble(u, i), off, line_at(v, x + off) - line_at(u, x)),
        preamble(u, i) matches Ok((n, e)) ==> i <= e <= u.len(),
    decreases u.len() - i,
{
    lemma_scans(u, i);
    lemma_tail_scans(u, v, x, off, i);
    let j = skip_space(u, i);
    if j < u.len() {
        assert(u[j] == v[j + off]);
        lemma_scans(u, j);
        lemma_tail_scans(u, v, x, off, j);
        if u[j] == 99 {
            lemma_tail_preamble(u, v, x, off, next_line(u, j));
        } else if u[j] == 112 {
            lemma_tail_header(u, v, x, off, j);
        }
    }
}

proof fn lemma_tail_read_on(u: Seq<u8>, v: Seq<u8>, x: int, off: int)
    requires
        same_tail(u, v, x, off),
    ensures
        read_on(v, x + off) == moved(read_on(u, x), line_at(v, x + off) - line_at(u, x)),
{
    lemma_tail_preamble(u, v, x, off, x);
    if let Ok((n, e)) = preamble(u, x) {
        lemma_tail_clauses(u, v, x, off, e, Seq::empty(), Seq::empty());
    }
}

/// The line feeds before a place, counted.
proof fn lemma_line_at(s: Seq<u8>, i: int)
    requires
        0 <= i <= s.len(),
    ensures
        line_at(s, i) == 1 + cnt(s.take(i), 10u8),
    decreases i,
{
    if i > 0 {
        lemma_line_at(s, i - 1);
        crate::count::lemma_cnt_take(s, i - 1, 10u8);
    } else {
        assert(s.take(0) =~= Seq::<u8>::empty());
    }
}

proof fn lemma_line_of(a: Seq<u8>, x: Seq<u8>)
    ensures
        line_at(a + x, a.len() as int) == 1 + cnt(a, 10u8),
{
    lemma_line_at(a + x, a.len() as int);
    assert((a + x).take(a.len() as int) =~= a);
}

proof fn lemma_lines_of(a: Seq<u8>, x: Seq<u8>, y: Seq<u8>)
    ensures
        line_at(a + x + y, (a + x).len() as int) == 1 + cnt(a, 10u8) + cnt(x, 10u8),
{
    lemma_line_of(a + x, y);
    crate::count::lemma_cnt_concat(a, x, 10u8);
}

/// Comments do not matter: a comment line put between the lines of a text changes nothing but the line
/// numbers of the faults behind it. The lines before it must not end inside a header.
#[verifier::spinoff_prover]
#[verifier::rlimit(100)]
pub proof fn lemma_comments_do_not_matter(a: Seq<u8>, c: Seq<u8>, b: Seq<u8>)
    requires
        whole(a),
        sound_so_far(a),
        is_comment_line(c),
    ensures
        reading(a + c + b) == moved(reading(a + b), 1),
        reading(a + b) is Ok ==> reading(a + c + b) == reading(a + b),
{
    let n = a.len() as int;
    let u = a + b;
    let v = a + c + b;
    let off = c.len() as int;
    assert(v =~= a + (c + b));
    assert(same_tail(u, v, n, off)) by {
        assert forall|i: int| n <= i < u.len() implies #[trigger] u[i] == v[i + off] by {
            assert(u[i] == b[i - n]);
            assert(v[i + off] == b[i - n]);
        }
    }
    assert(v[n] == 99);
    lemma_comment_end(v, n, n, off);
    lemma_line_of(a, b);
    lemma_lines_of(a, c, b);
    lemma_comment_feeds(c);
    lemma_tail_read_on(u, v, n, off);
    assert forall|f: Seq<Seq<Lit>>, d: Seq<Lit>| #[trigger]
        clauses_from(a + (c + b), n, f, d) == moved(clauses_from(u, n, f, d), 1) by {
        lemma_tail_clauses(u, v, n, off, n, f, d);
    }
    assert(read_on(v, n) == read_on(v, n + off));
    lemma_swap(a, b, c + b, 1);
}

/// A comment line ends with its line feed.
proof fn lemma_comment_end(v: Seq<u8>, n: int, i: int, off: int)
    requires
        0 <= n <= i < n + off <= v.len(),
        v[n + off - 1] == 10,
        forall|j: int| i <= j < n + off - 1 ==> #[trigger] v[j] != 10,
    ensures
        next_line(v, i) == n + off,
    decreases n + off - i,
{
    if i < n + off - 1 {
        lemma_comment_end(v, n, i + 1, off);
    }
}

proof fn lemma_comment_feeds(c: Seq<u8>)
    requires
        is_comment_line(c),
    ensures
        cnt(c, 10u8) == 1,
{
    let p = c.drop_last();
    if cnt(p, 10u8) > 0 {
        crate::count::lemma_cnt_contains(p, 10u8);
        let i = choose|i: int| 0 <= i < p.len() && p[i] == 10;
        assert(c[i] == 10);
    }
}

/// White space at the start of a line does not matter, and neither do empty lines: they only move the
/// line numbers of the faults behind them.
#[verifier::spinoff_prover]
#[verifier::rlimit(100)]
pub proof fn lemma_white_space_does_not_matter(a: Seq<u8>, w: u8, b: Seq<u8>)
    requires
        whole(a),
        sound_so_far(a),
        w == 32 || w == 9 || w == 13 || w == 10,
    ensures
        reading(a + seq![w] + b) == moved(
            reading(a + b),
            if w == 10 {
                1
            } else {
                0
            },
        ),
        reading(a + b) is Ok ==> reading(a + seq![w] + b) == reading(a + b),
{
    let n = a.len() as int;
    let u = a + b;
    let v = a + seq![w] + b;
    let k: int = if w == 10 { 1 } else { 0 };
    assert(v =~= a + (seq![w] + b));
    assert(same_tail(u, v, n, 1)) by {
        assert forall|i: int| n <= i < u.len() implies #[trigger] u[i] == v[i + 1] by {
            assert(u[i] == b[i - n]);
            assert(v[i + 1] == b[i - n]);
        }
    }
    assert(v[n] == w);
    assert(skip_space(v, n) == skip_space(v, n + 1));
    lemma_line_of(a, b);
    lemma_lines_of(a, seq![w], b);
    assert(cnt(seq![w], 10u8) == k) by {
        assert(seq![w].drop_last() =~= Seq::<u8>::empty());
        assert(cnt(Seq::<u8>::empty(), 10u8) == 0);
    }
    lemma_tail_read_on(u, v, n, 1);
    assert forall|f: Seq<Seq<Lit>>, d: Seq<Lit>| #[trigger]
        clauses_from(a + (seq![w] + b), n, f, d) == moved(clauses_from(u, n, f, d), k) by {
        lemma_tail_clauses(u, v, n, 1, n, f, d);
        lemma_settled(v, n, n + 1, f, d);
    }
    assert(read_on(v, n) == read_on(v, n + 1));
    lemma_swap(a, b, seq![w] + b, k);
}

proof fn lemma_digits_here(t: Seq<u8>, n: int, ds: Seq<u8>, k: int)
    requires
        0 <= n,
        n + ds.len() <= t.len(),
        0 <= k <= ds.len(),
        forall|i: int| 0 <= i < ds.len() ==> t[n + i] == #[trigger] ds[i],
        forall|i: int| 0 <= i < ds.len() ==> 48 <= #[trigger] ds[i] <= 57,
        n + ds.len() < t.len() ==> !is_digit(t[n + ds.len()]),
    ensures
        digits_end(t, n + k) == n + ds.len(),
    decreases ds.len() - k,
{
    if k < ds.len() {
        assert(t[n + k] == ds[k]);
        lemma_digits_here(t, n, ds, k + 1);
    }
}

proof fn lemma_number_here(t: Seq<u8>, n: int, ds: Seq<u8>)
    requires
        0 <= n,
        n + ds.len() <= t.len(),
        forall|i: int| 0 <= i < ds.len() ==> t[n + i] == #[trigger] ds[i],
        forall|i: int| 0 <= i < ds.len() ==> 48 <= #[trigger] ds[i] <= 57,
    ensures
        number(t, n, n + ds.len()) == digits_value(ds),
    decreases ds.len(),
{
    if ds.len() > 0 {
        let p = ds.drop_last();
        assert forall|i: int| 0 <= i < p.len() implies t[n + i] == #[trigger] p[i] && 48 <= p[i] <= 57 by {
            assert(p[i] == ds[i]);
        }
        lemma_number_here(t, n, p);
        assert(t[n + (ds.len() - 1)] == ds[ds.len() - 1]);
    }
}

/// A numeral is read where it stands.
#[verifier::spinoff_prover]
#[verifier::rlimit(100)]
proof fn lemma_integer_here(a: Seq<u8>, w: Seq<u8>, b: Seq<u8>, v: int)
    requires
        spells(w, v),
        b.len() > 0 ==> !is_digit(b[0]),
    ensures
        -i64::MAX <= v <= i64::MAX ==> integer_at(a + w + b, a.len() as int) == Ok::<(int, int), Fault>(
            (v, (a.len() + w.len()) as int),
        ),
        !(-i64::MAX <= v <= i64::MAX) ==> integer_at(a + w + b, a.len() as int) == Err::<(int, int), Fault>(
            Fault::Integer {
                line: line_at(a + w + b, a.len() as int),
                token: (a + w + b).subrange(a.len() as int, token_end(a + w + b, (a.len() + w.len()) as int)),
            },
        ),
        skip_space(a + w + b, a.len() as int) == a.len(),
        w.len() > 0,
        w[0] == 43 || w[0] == 45 || 48 <= w[0] <= 57,
        (a + w + b)[a.len() as int] == w[0],
{
    let t = a + w + b;
    let n = a.len() as int;
    let ds = unsigned(w);
    let from = n + w.len() - ds.len();
    assert(t[n] == w[0]);
    if ds.len() == w.len() {
        assert(48 <= ds[0] <= 57);
    }
    assert(digits_start(t, n) == from);
    assert forall|i: int| 0 <= i < ds.len() implies t[from + i] == #[trigger] ds[i] by {}
    if b.len() > 0 {
        assert(t[from + ds.len()] == b[0]);
    }
    lemma_digits_here(t, from, ds, 0);
    lemma_number_here(t, from, ds);
}

/// Two texts that differ in one place, where both have white space.
proof fn lemma_either_end(u: Seq<u8>, t: Seq<u8>, m: int, f: Seq<Seq<Lit>>, c: Seq<Lit>)
    requires
        0 <= m < u.len(),
        is_space(u[m]),
        is_space(t[m]),
        same_tail(u, t, m + 1, 0),
    ensures
        clauses_from(t, m, f, c) == moved(clauses_from(u, m, f, c), line_at(t, m + 1) - line_at(u, m + 1)),
{
    lemma_tail_clauses(u, t, m + 1, 0, m + 1, f, c);
    lemma_settled(u, m, m + 1, f, c);
    lemma_settled(t, m, m + 1, f, c);
}

/// Whichever white space ends a number, the text says the same: only the line numbers of the faults
/// behind it move.
#[verifier::spinoff_prover]
#[verifier::rlimit(100)]
pub proof fn lemma_any_white_space_ends_a_number(a: Seq<u8>, w: Seq<u8>, v: int, x: u8, y: u8, b: Seq<u8>)
    requires
        whole(a),
        sound_so_far(a),
        spells(w, v),
        -Var::MAX_INDEX <= v <= Var::MAX_INDEX,
        x == 32 || x == 9 || x == 13 || x == 10,
        y == 32 || y == 9 || y == 13 || y == 10,
    ensures
        reading(a + w + (seq![y] + b)) == moved(
            reading(a + w + (seq![x] + b)),
            (if y == 10 {
                1int
            } else {
                0int
            }) - (if x == 10 {
                1int
            } else {
                0int
            }),
        ),
{
    let n = a.len() as int;
    let m = n + w.len();
    let u = a + w + (seq![x] + b);
    let t = a + w + (seq![y] + b);
    let k = (if y == 10 { 1int } else { 0int }) - (if x == 10 { 1int } else { 0int });
    lemma_integer_here(a, w, seq![x] + b, v);
    lemma_integer_here(a, w, seq![y] + b, v);
    assert(u[m] == x && t[m] == y);
    assert forall|i: int| 0 <= i < u.len() && i != m implies u[i] == t[i] by {}
    assert(same_tail(u, t, m + 1, 0));
    lemma_lines_of(a, w, seq![x] + b);
    lemma_lines_of(a, w, seq![y] + b);
    assert(line_at(u, m + 1) == line_at(u, m) + (if x == 10 { 1nat } else { 0nat }));
    assert(line_at(t, m + 1) == line_at(t, m) + (if y == 10 { 1nat } else { 0nat }));
    let p = w + (seq![x] + b);
    let q = w + (seq![y] + b);
    assert(u =~= a + p);
    assert(t =~= a + q);
    assert forall|f: Seq<Seq<Lit>>, c: Seq<Lit>| #[trigger]
        clauses_from(a + q, n, f, c) == moved(clauses_from(a + p, n, f, c), k) by {
        if v == 0 {
            lemma_either_end(u, t, m, f.push(c), Seq::empty());
        } else {
            lemma_either_end(u, t, m, f, c.push(literal(v)));
        }
    }
    assert(preamble(t, n) == Ok::<(Option<(usize, usize)>, int), Fault>((None, n)));
    assert(preamble(u, n) == Ok::<(Option<(usize, usize)>, int), Fault>((None, n)));
    lemma_swap(a, p, q, k);
}

/// The blank behind a number may be left out where no digit follows: the text says the same.
#[verifier::spinoff_prover]
#[verifier::rlimit(60)]
pub proof fn lemma_blank_behind_a_number_is_optional(a: Seq<u8>, w: Seq<u8>, v: int, b: Seq<u8>)
    requires
        whole(a),
        sound_so_far(a),
        spells(w, v),
        -Var::MAX_INDEX <= v <= Var::MAX_INDEX,
        b.len() > 0 ==> b[0] < 48 || b[0] > 57,
    ensures
        reading(a + w + (seq![32u8] + b)) == reading(a + w + b),
{
    let n = a.len() as int;
    let m = n + w.len();
    let u = a + w + b;
    let t = a + w + (seq![32u8] + b);
    lemma_integer_here(a, w, b, v);
    lemma_integer_here(a, w, seq![32u8] + b, v);
    assert(t[m] == 32);
    assert(same_tail(u, t, m, 1)) by {
        assert forall|i: int| m <= i < u.len() implies #[trigger] u[i] == t[i + 1] by {
            assert(u[i] == b[i - m]);
            assert(t[i + 1] == b[i - m]);
        }
    }
    lemma_lines_of(a, w, b);
    lemma_lines_of(a, w, seq![32u8] + b);
    assert(line_at(t, m + 1) == line_at(t, m));
    let p = w + b;
    let q = w + (seq![32u8] + b);
    assert(u =~= a + p);
    assert(t =~= a + q);
    assert forall|f: Seq<Seq<Lit>>, c: Seq<Lit>| #[trigger]
        clauses_from(a + q, n, f, c) == moved(clauses_from(a + p, n, f, c), 0) by {
        if v == 0 {
            lemma_blank_skipped(u, t, m, f.push(c), Seq::empty());
        } else {
            lemma_blank_skipped(u, t, m, f, c.push(literal(v)));
        }
    }
    assert(preamble(t, n) == Ok::<(Option<(usize, usize)>, int), Fault>((None, n)));
    assert(preamble(u, n) == Ok::<(Option<(usize, usize)>, int), Fault>((None, n)));
    lemma_swap(a, p, q, 0);
    lemma_moved_nowhere(reading(u));
}

proof fn lemma_moved_nowhere<T>(r: Result<T, Fault>)
    ensures
        moved(r, 0) == r,
{
}

proof fn lemma_blank_skipped(u: Seq<u8>, t: Seq<u8>, m: int, f: Seq<Seq<Lit>>, c: Seq<Lit>)
    requires
        0 <= m < t.len(),
        t[m] == 32,
        same_tail(u, t, m, 1),
        line_at(t, m + 1) == line_at(u, m),
    ensures
        clauses_from(t, m, f, c) == moved(clauses_from(u, m, f, c), 0),
{
    lemma_tail_clauses(u, t, m, 1, m, f, c);
    assert(skip_space(t, m) == skip_space(t, m + 1));
    lemma_settled(t, m, m + 1, f, c);
}

/// No percent sign stands in the text.
pub open spec fn unended(a: Seq<u8>) -> bool {
    forall|i: int| 0 <= i < a.len() ==> #[trigger] a[i] != 37
}

/// A word that is neither white space, a comment nor a header belongs to the clauses.
#[verifier::spinoff_prover]
#[verifier::rlimit(100)]
proof fn lemma_word_next(a: Seq<u8>, x: Seq<u8>)
    requires
        whole(a),
        sound_so_far(a),
        unended(a),
        x.len() > 0,
        !is_space(x[0]),
        x[0] != 99,
        x[0] != 112,
    ensures
        ({
            let (declared, f, c, stop) = so_far(a);
            &&& !stop
            &&& reading(a + x) == with_header(declared, clauses_from(a + x, a.len() as int, f, c))
            &&& reading(a) == with_header(
                declared,
                if c.len() > 0 {
                    Err(Fault::Unterminated)
                } else {
                    Ok(f)
                },
            )
        }),
{
    lemma_goes_on(a, x);
    let t = a + x;
    let n = a.len() as int;
    let (declared, f, c, stop) = so_far(a);
    assert(t[n] == x[0]);
    if stop {
        let k = choose|k: int| 0 <= k < a.len() && #[trigger] a[k] == 37;
        assert(false);
    }
    if nothing_yet(a) {
        assert(preamble(t, n) == Ok::<(Option<(usize, usize)>, int), Fault>((None, n)));
        assert(f =~= Seq::<Seq<Lit>>::empty());
        assert(c =~= Seq::<Lit>::empty());
    }
}

proof fn lemma_zero_ends(t: Seq<u8>, n: int, f: Seq<Seq<Lit>>, c: Seq<Lit>)
    requires
        0 <= n,
        n + 1 == t.len(),
        t[n] == 10,
    ensures
        clauses_from(t, n, f, c) == (if c.len() > 0 {
            Err::<Seq<Seq<Lit>>, Fault>(Fault::Unterminated)
        } else {
            Ok(f)
        }),
{
    assert(skip_space(t, n) == skip_space(t, n + 1));
    assert(skip_space(t, n + 1) == n + 1);
}

/// A zero ends the clause under way, however it is written; where none is, it makes an empty one. Every
/// clause before it stays as it is.
#[verifier::spinoff_prover]
#[verifier::rlimit(100)]
pub proof fn lemma_zero_ends_a_clause(a: Seq<u8>, w: Seq<u8>, z: Seq<u8>)
    requires
        whole(a),
        sound_so_far(a),
        unended(a),
        spells(w, 0),
        spells(z, 0),
    ensures
        reading(a + w + seq![10u8]) is Ok,
        reading(a + w + seq![10u8]) == reading(a + z + seq![10u8]),
        reading(a) matches Ok(r) ==> reading(a + w + seq![10u8]) == Ok::<Reading, Fault>(
            Reading { declared: r.declared, clauses: r.clauses.push(Seq::empty()) },
        ),
        reading(a) is Err ==> reading(a + w + seq![10u8])->Ok_0.clauses.len() > 0
            && reading(a + w + seq![10u8])->Ok_0.clauses.last().len() > 0,
{
    let n = a.len() as int;
    let e = seq![10u8];
    let (declared, f, c, stop) = so_far(a);
    lemma_integer_here(a, w, e, 0);
    lemma_integer_here(a, z, e, 0);
    assert(a + w + e =~= a + (w + e));
    assert(a + z + e =~= a + (z + e));
    lemma_word_next(a, w + e);
    lemma_word_next(a, z + e);
    lemma_zero_ends(a + w + e, n + w.len(), f.push(c), Seq::empty());
    lemma_zero_ends(a + z + e, n + z.len(), f.push(c), Seq::empty());
    if c.len() == 0 {
        assert(c =~= Seq::<Lit>::empty());
    }
    assert(f.push(c).last() == c);
}

proof fn lemma_zero_word()
    ensures
        spells(seq![48u8], 0),
{
    let zero = seq![48u8];
    assert(zero.drop_last() =~= Seq::<u8>::empty());
    assert(digits_value(Seq::<u8>::empty()) == 0);
    assert(digits_value(zero) == 0);
}

proof fn lemma_then_zero(a: Seq<u8>)
    requires
        whole(a),
        sound_so_far(a),
        unended(a),
    ensures
        ({
            let (declared, f, c, stop) = so_far(a);
            reading(a + seq![48u8, 10u8]) == Ok::<Reading, Fault>(Reading { declared, clauses: f.push(c) })
        }),
{
    let n = a.len() as int;
    let e = seq![10u8];
    let zero = seq![48u8];
    let (declared, f, c, stop) = so_far(a);
    lemma_zero_word();
    lemma_integer_here(a, zero, e, 0);
    assert(a + zero + e =~= a + seq![48u8, 10u8]);
    lemma_word_next(a, seq![48u8, 10u8]);
    lemma_zero_ends(a + zero + e, n + 1, f.push(c), Seq::empty());
}

proof fn lemma_then_number(a: Seq<u8>, w: Seq<u8>, v: int)
    requires
        whole(a),
        sound_so_far(a),
        unended(a),
        spells(w, v),
        v != 0,
        -Var::MAX_INDEX <= v <= Var::MAX_INDEX,
    ensures
        reading(a + w + seq![10u8]) == Err::<Reading, Fault>(Fault::Unterminated),
{
    let n = a.len() as int;
    let e = seq![10u8];
    let (declared, f, c, stop) = so_far(a);
    lemma_integer_here(a, w, e, v);
    assert(a + w + e =~= a + (w + e));
    lemma_word_next(a, w + e);
    lemma_zero_ends(a + w + e, n + w.len(), f, c.push(literal(v)));
}

#[verifier::spinoff_prover]
#[verifier::rlimit(100)]
proof fn lemma_then_number_and_zero(a: Seq<u8>, w: Seq<u8>, v: int)
    requires
        whole(a),
        sound_so_far(a),
        unended(a),
        spells(w, v),
        v != 0,
        -Var::MAX_INDEX <= v <= Var::MAX_INDEX,
    ensures
        ({
            let (declared, f, c, stop) = so_far(a);
            reading(a + w + seq![10u8, 48u8, 10u8]) == Ok::<Reading, Fault>(
                Reading { declared, clauses: f.push(c.push(literal(v))) },
            )
        }),
{
    let n = a.len() as int;
    let e = seq![10u8];
    let zero = seq![48u8];
    let (declared, f, c, stop) = so_far(a);
    let d = c.push(literal(v));
    let tail = seq![10u8, 48u8, 10u8];
    let t = a + w + tail;
    let m = n + w.len();
    lemma_integer_here(a, w, tail, v);
    assert(t =~= a + (w + tail));
    lemma_word_next(a, w + tail);
    assert(t[m] == 10 && t[m + 1] == 48 && t[m + 2] == 10);
    assert(skip_space(t, m) == skip_space(t, m + 1));
    lemma_settled(t, m, m + 1, f, d);
    assert(t =~= (a + w + e) + zero + e);
    lemma_zero_word();
    lemma_integer_here(a + w + e, zero, e, 0);
    lemma_zero_ends(t, m + 2, f.push(d), Seq::empty());
    assert(clauses_from(t, m + 1, f, d) == clauses_from(t, m + 2, f.push(d), Seq::empty()));
    assert(clauses_from(t, n, f, c) == clauses_from(t, m, f, d));
}

/// A number other than zero puts its literal behind the clause under way, and leaves that clause open.
/// The clauses before it stay as they are.
#[verifier::spinoff_prover]
#[verifier::rlimit(100)]
pub proof fn lemma_number_adds_a_literal(a: Seq<u8>, w: Seq<u8>, v: int, l: Lit)
    requires
        whole(a),
        sound_so_far(a),
        unended(a),
        spells(w, v),
        v != 0,
        -Var::MAX_INDEX <= v <= Var::MAX_INDEX,
        l.dimacs() == v,
    ensures
        reading(a + w + seq![10u8]) == Err::<Reading, Fault>(Fault::Unterminated),
        ({
            let before = reading(a + seq![48u8, 10u8]);
            let now = reading(a + w + seq![10u8, 48u8, 10u8]);
            &&& before is Ok
            &&& now is Ok
            &&& now->Ok_0.declared == before->Ok_0.declared
            &&& now->Ok_0.clauses.len() == before->Ok_0.clauses.len()
            &&& before->Ok_0.clauses.len() > 0
            &&& now->Ok_0.clauses.drop_last() == before->Ok_0.clauses.drop_last()
            &&& now->Ok_0.clauses.last() == before->Ok_0.clauses.last().push(l)
        }),
{
    let (declared, f, c, stop) = so_far(a);
    assert(l == literal(v));
    lemma_then_zero(a);
    lemma_then_number(a, w, v);
    lemma_then_number_and_zero(a, w, v);
    assert(f.push(c).drop_last() =~= f);
    assert(f.push(c.push(l)).drop_last() =~= f);
}

/// What a word means for the clauses.
proof fn lemma_word_step(t: Seq<u8>, n: int, f: Seq<Seq<Lit>>, c: Seq<Lit>)
    requires
        0 <= n < t.len(),
        skip_space(t, n) == n,
        t[n] != 37,
        t[n] != 99,
    ensures
        integer_at(t, n) matches Err(e) ==> clauses_from(t, n, f, c) == Err::<Seq<Seq<Lit>>, Fault>(e),
        integer_at(t, n) matches Ok((v, e)) ==> (v > Var::MAX_INDEX || v < -Var::MAX_INDEX) ==> clauses_from(t, n, f, c)
            == Err::<Seq<Seq<Lit>>, Fault>(Fault::Variable { line: line_at(t, e), value: v }),
{
}

/// A numeral holds no line feed.
proof fn lemma_on_one_line(w: Seq<u8>, v: int)
    requires
        spells(w, v),
    ensures
        cnt(w, 10u8) == 0,
{
    if cnt(w, 10u8) > 0 {
        crate::count::lemma_cnt_contains(w, 10u8);
        let i = choose|i: int| 0 <= i < w.len() && w[i] == 10;
        if unsigned(w).len() == w.len() {
            assert(48 <= unsigned(w)[i]);
        } else if i > 0 {
            assert(48 <= unsigned(w)[i - 1]);
        }
    }
}

/// A number over a variable that cannot be numbered is a fault, on the line where it stands.
#[verifier::spinoff_prover]
#[verifier::rlimit(100)]
pub proof fn lemma_unusable_variable_is_refused(a: Seq<u8>, w: Seq<u8>, v: int, b: Seq<u8>)
    requires
        whole(a),
        sound_so_far(a),
        unended(a),
        spells(w, v),
        v < -Var::MAX_INDEX || v > Var::MAX_INDEX,
        -i64::MAX <= v <= i64::MAX,
        b.len() > 0 ==> b[0] < 48 || b[0] > 57,
    ensures
        reading(a + w + b) == Err::<Reading, Fault>(Fault::Variable { line: 1 + cnt(a, 10u8), value: v }),
{
    let (declared, f, c, stop) = so_far(a);
    lemma_integer_here(a, w, b, v);
    assert(a + w + b =~= a + (w + b));
    lemma_word_next(a, w + b);
    lemma_word_step(a + w + b, a.len() as int, f, c);
    lemma_lines_of(a, w, b);
    lemma_on_one_line(w, v);
}

proof fn lemma_token_here(t: Seq<u8>, n: int, i: int, m: int)
    requires
        0 <= n <= i <= m < t.len(),
        ends_token(t[m]),
        forall|k: int| i <= k < m ==> !ends_token(#[trigger] t[k]),
    ensures
        token_end(t, i) == m,
    decreases m - i,
{
    if i < m {
        lemma_token_here(t, n, i + 1, m);
    }
}

/// A word that is no number is a fault, on the line where it stands, and the fault names the word. One
/// that starts with the letter `c` is a comment, and one that starts with a percent sign ends the text;
/// the letter `p` starts a header.
#[verifier::spinoff_prover]
#[verifier::rlimit(100)]
pub proof fn lemma_other_words_are_refused(a: Seq<u8>, w: Seq<u8>, b: Seq<u8>)
    requires
        whole(a),
        sound_so_far(a),
        unended(a),
        w.len() > 0,
        w[0] != 99 && w[0] != 37 && w[0] != 112,
        forall|i: int| 0 <= i < w.len() ==> !ends_token(#[trigger] w[i]),
        b.len() > 0,
        ends_token(b[0]),
        unsigned(w).len() > 0 ==> unsigned(w)[0] < 48 || unsigned(w)[0] > 57,
    ensures
        reading(a + w + b) == Err::<Reading, Fault>(Fault::Integer { line: 1 + cnt(a, 10u8), token: w }),
{
    let t = a + w + b;
    let n = a.len() as int;
    assert(t =~= a + (w + b));
    assert(!ends_token(w[0]));
    assert(t[n] == w[0]);
    lemma_word_next(a, w + b);
    lemma_line_of(a, w + b);
    let from = digits_start(t, n);
    assert(from == n + w.len() - unsigned(w).len());
    if unsigned(w).len() > 0 {
        assert(t[from] == unsigned(w)[0]);
    } else {
        assert(t[from] == b[0]);
    }
    assert(digits_end(t, from) == from);
    assert(t[n + w.len()] == b[0]);
    assert forall|k: int| from <= k < n + w.len() implies !ends_token(#[trigger] t[k]) by {
        assert(t[k] == w[k - n]);
    }
    lemma_token_here(t, from, from, n + w.len());
    assert(t.subrange(n, n + w.len()) =~= w);
}

/// A number of more than 64 bits is a fault, on the line where it stands.
#[verifier::spinoff_prover]
#[verifier::rlimit(100)]
pub proof fn lemma_huge_numbers_are_refused(a: Seq<u8>, w: Seq<u8>, v: int, b: Seq<u8>)
    requires
        whole(a),
        sound_so_far(a),
        unended(a),
        spells(w, v),
        v < -i64::MAX || v > i64::MAX,
        b.len() > 0,
        ends_token(b[0]),
    ensures
        reading(a + w + b) == Err::<Reading, Fault>(Fault::Integer { line: 1 + cnt(a, 10u8), token: w }),
{
    let t = a + w + b;
    let n = a.len() as int;
    lemma_integer_here(a, w, b, v);
    assert(t =~= a + (w + b));
    lemma_word_next(a, w + b);
    lemma_line_of(a, w + b);
    assert(t[n + w.len()] == b[0]);
    assert(token_end(t, n + w.len()) == n + w.len());
    assert(t.subrange(n, n + w.len()) =~= w);
}

proof fn lemma_skip_over(t: Seq<u8>, n: int, k: int)
    requires
        0 <= n <= k <= t.len(),
        forall|i: int| n <= i < k ==> is_space(#[trigger] t[i]),
        k < t.len() ==> !is_space(t[k]),
    ensures
        skip_space(t, n) == k,
        skip_space(t, k) == k,
    decreases k - n,
{
    if n < k {
        lemma_skip_over(t, n + 1, k);
    }
}

proof fn lemma_skip_over_blanks(t: Seq<u8>, n: int, k: int)
    requires
        0 <= n <= k <= t.len(),
        forall|i: int| n <= i < k ==> is_blank(#[trigger] t[i]),
        k < t.len() ==> !is_blank(t[k]),
    ensures
        skip_blanks(t, n) == k,
    decreases k - n,
{
    if n < k {
        lemma_skip_over_blanks(t, n + 1, k);
    }
}

/// A numeral is read behind white space.
proof fn lemma_integer_behind(t: Seq<u8>, i: int, g: Seq<u8>, w: Seq<u8>, v: int)
    requires
        0 <= i,
        i + g.len() + w.len() <= t.len(),
        t.subrange(i, i + g.len()) == g,
        t.subrange(i + g.len(), i + g.len() + w.len()) == w,
        i + g.len() + w.len() < t.len() ==> !is_digit(t[i + g.len() + w.len()]),
        forall|k: int| 0 <= k < g.len() ==> is_space(#[trigger] g[k]),
        spells(w, v),
        -i64::MAX <= v <= i64::MAX,
    ensures
        integer_at(t, i) == Ok::<(int, int), Fault>((v, i + g.len() + w.len())),
{
    let n = i + g.len();
    let b = t.skip(n + w.len());
    assert(t =~= t.take(n) + w + b);
    if b.len() > 0 {
        assert(b[0] == t[n + w.len()]);
    }
    lemma_integer_here(t.take(n), w, b, v);
    assert forall|k: int| i <= k < n implies is_space(#[trigger] t[k]) by {
        assert(t.subrange(i, i + g.len())[k - i] == t[k]);
        assert(is_space(g[k - i]));
    }
    lemma_skip_over(t, i, n);
}

/// The clauses of a text without a header.
proof fn lemma_without_header(b: Seq<u8>, i: int)
    requires
        0 <= i <= b.len(),
        preamble(b, i) is Ok,
        preamble(b, i)->Ok_0.0 is None,
    ensures
        clauses_from(b, i, Seq::empty(), Seq::empty()) == clauses_from(
            b,
            preamble(b, i)->Ok_0.1,
            Seq::empty(),
            Seq::empty(),
        ),
    decreases b.len() - i,
{
    lemma_scans(b, i);
    let j = skip_space(b, i);
    lemma_scans(b, j);
    if j < b.len() && b[j] == 99 {
        lemma_without_header(b, next_line(b, j));
    } else {
        assert(skip_space(b, j) == j) by {
            lemma_stays(b, i);
        }
        lemma_settled(b, i, j, Seq::empty(), Seq::empty());
    }
}

proof fn lemma_stays(b: Seq<u8>, i: int)
    requires
        0 <= i <= b.len(),
    ensures
        skip_space(b, skip_space(b, i)) == skip_space(b, i),
    decreases b.len() - i,
{
    if i < b.len() && is_space(b[i]) {
        lemma_stays(b, i + 1);
    }
}

/// A header line: the letter `p`, the word `cnf`, and two numerals, with the given gaps between them.
pub open spec fn header_line(g: Seq<u8>, h: Seq<u8>, w: Seq<u8>, k: Seq<u8>, z: Seq<u8>) -> Seq<u8> {
    seq![112u8] + g + seq![99u8, 110u8, 102u8] + h + w + k + z + seq![10u8]
}

/// A header declares the two numbers behind the word `cnf`, and the clauses are those of the rest. Where
/// one of the numbers is negative the header is a fault.
#[verifier::spinoff_prover]
#[verifier::rlimit(100)]
pub proof fn lemma_header_declares(
    g: Seq<u8>,
    h: Seq<u8>,
    w: Seq<u8>,
    v: int,
    k: Seq<u8>,
    z: Seq<u8>,
    m: int,
    b: Seq<u8>,
)
    requires
        forall|i: int| 0 <= i < g.len() ==> #[trigger] g[i] == 32 || g[i] == 9 || g[i] == 13,
        forall|i: int| 0 <= i < h.len() ==> #[trigger] h[i] == 32 || h[i] == 9 || h[i] == 13,
        forall|i: int| 0 <= i < k.len() ==> #[trigger] k[i] == 32 || k[i] == 9 || k[i] == 13,
        k.len() > 0,
        spells(w, v),
        spells(z, m),
        -i64::MAX <= v <= i64::MAX,
        -i64::MAX <= m <= i64::MAX,
        reading(b) is Ok,
        reading(b)->Ok_0.declared is None,
    ensures
        v >= 0 && m >= 0 ==> reading(header_line(g, h, w, k, z) + b) == Ok::<Reading, Fault>(
            Reading { declared: Some((v as usize, m as usize)), clauses: reading(b)->Ok_0.clauses },
        ),
        v < 0 || m < 0 ==> reading(header_line(g, h, w, k, z) + b) == Err::<Reading, Fault>(
            Fault::Header { line: 1 },
        ),
{
    let line = header_line(g, h, w, k, z);
    let t = line + b;
    let j = 1 + g.len() as int;
    let e = j + 3 + h.len() + w.len();
    let end = e + k.len() + z.len();
    assert(t[0] == 112);
    assert(t[j] == 99 && t[j + 1] == 110 && t[j + 2] == 102);
    assert forall|i: int| 1 <= i < j implies is_blank(#[trigger] t[i]) by {
        assert(t[i] == g[i - 1]);
    }
    lemma_skip_over_blanks(t, 1, j);
    assert(t.subrange(j + 3, j + 3 + h.len()) =~= h);
    assert(t.subrange(j + 3 + h.len(), e) =~= w);
    assert(t[e] == k[0]);
    lemma_integer_behind(t, j + 3, h, w, v);
    assert(t.subrange(e, e + k.len()) =~= k);
    assert(t.subrange(e + k.len(), end) =~= z);
    assert(t[end] == 10);
    lemma_integer_behind(t, e, k, z, m);
    lemma_scans(t, 0);
    assert(skip_space(t, 0) == 0);
    assert(line_at(t, 0) == 1);
    if v >= 0 && m >= 0 {
        assert(header_at(t, 0) == Ok::<((usize, usize), int), Fault>(((v as usize, m as usize), end)));
        assert(line.len() == end + 1);
        assert(skip_space(t, end) == skip_space(t, end + 1));
        lemma_settled(t, end, end + 1, Seq::empty(), Seq::empty());
        assert(same_tail(b, t, 0, end + 1)) by {
            assert forall|i: int| 0 <= i < b.len() implies #[trigger] b[i] == t[i + (end + 1)] by {}
        }
        lemma_tail_clauses(b, t, 0, end + 1, 0, Seq::empty(), Seq::empty());
        lemma_without_header(b, 0);
    } else {
        assert(header_at(t, 0) == Err::<((usize, usize), int), Fault>(Fault::Header { line: 1 }));
    }
}

/// The letter `p` at the start of a text is a fault unless the word `cnf` comes next.
pub proof fn lemma_only_cnf_is_declared(g: Seq<u8>, b: Seq<u8>)
    requires
        forall|i: int| 0 <= i < g.len() ==> #[trigger] g[i] == 32 || g[i] == 9 || g[i] == 13,
        b.len() > 0 ==> b[0] != 32 && b[0] != 9 && b[0] != 13,
        !(b.len() >= 3 && b[0] == 99 && b[1] == 110 && b[2] == 102),
    ensures
        reading(seq![112u8] + g + b) == Err::<Reading, Fault>(Fault::Header { line: 1 }),
{
    let t = seq![112u8] + g + b;
    let j = 1 + g.len() as int;
    assert(t[0] == 112);
    assert forall|i: int| 1 <= i < j implies is_blank(#[trigger] t[i]) by {
        assert(t[i] == g[i - 1]);
    }
    if b.len() > 0 {
        assert(t[j] == b[0]);
    }
    lemma_skip_over_blanks(t, 1, j);
    if j + 3 <= t.len() {
        assert(t[j] == b[0] && t[j + 1] == b[1] && t[j + 2] == b[2]);
    }
    assert(skip_space(t, 0) == 0);
    assert(line_at(t, 0) == 1);
}

/// A text with nothing in it says nothing.
pub proof fn lemma_empty_text()
    ensures
        reading(Seq::<u8>::empty()) == Ok::<Reading, Fault>(Reading { declared: None, clauses: Seq::empty() }),
{
}

proof fn lemma_covers_all(n: int, f: Seq<Seq<Lit>>, m: int)
    ensures
        cover_all(n, f) >= n,
        formula_below(f, cover_all(n, f)),
        n <= m && formula_below(f, m) ==> cover_all(n, f) <= m,
    decreases f.len(),
{
    if f.len() > 0 {
        let p = f.drop_last();
        let c = f.last();
        let k = cover_all(n, p);
        lemma_covers_all(n, p, m);
        lemma_cover(k, c);
        assert forall|i: int| 0 <= i < f.len() implies clause_below(#[trigger] f[i], cover_all(n, f)) by {
            if i < p.len() {
                assert(p[i] == f[i]);
                assert(clause_below(p[i], k));
            }
        }
        if n <= m && formula_below(f, m) {
            assert(formula_below(p, m)) by {
                assert forall|i: int| 0 <= i < p.len() implies clause_below(#[trigger] p[i], m) by {
                    assert(p[i] == f[i]);
                }
            }
            assert(clause_below(f[f.len() - 1], m));
            lemma_cover_is_least(k, c, m);
        }
    }
}

proof fn lemma_cover_is_least(n: int, c: Seq<Lit>, m: int)
    requires
        n <= m,
        clause_below(c, m),
    ensures
        cover(n, c) <= m,
    decreases c.len(),
{
    if c.len() > 0 {
        assert forall|i: int| 0 <= i < c.drop_last().len() implies (#[trigger] c.drop_last()[i]).vi() < m by {
            assert(c.drop_last()[i] == c[i]);
        }
        lemma_cover_is_least(n, c.drop_last(), m);
        assert(c[c.len() - 1].vi() < m);
    }
}

/// The header is a hint: a formula has the variables that the header declares and those that its
/// clauses name, and no more.
pub proof fn lemma_variables_are_those_declared_and_named(r: Reading, m: int)
    ensures
        r.num_vars() >= 0,
        r.declared matches Some((vars, clauses)) ==> r.num_vars() >= vars,
        formula_below(r.clauses, r.num_vars()),
        0 <= m && formula_below(r.clauses, m) && (r.declared matches Some((vars, clauses)) ==> vars <= m)
            ==> r.num_vars() <= m,
{
    match r.declared {
        Some((vars, clauses)) => lemma_covers_all(vars as int, r.clauses, m),
        None => lemma_covers_all(0, r.clauses, m),
    }
}

/// A header comes first: behind another one, or behind the start of a clause, the letter `p` is no more
/// than a word that is no number.
#[verifier::spinoff_prover]
#[verifier::rlimit(40)]
pub proof fn lemma_headers_come_first(a: Seq<u8>, w: Seq<u8>, b: Seq<u8>)
    requires
        whole(a),
        sound_so_far(a),
        unended(a),
        reading(a) matches Ok(r) ==> r.declared is Some || r.clauses.len() > 0,
        w.len() > 0,
        w[0] == 112,
        forall|i: int| 0 <= i < w.len() ==> !ends_token(#[trigger] w[i]),
        b.len() > 0,
        ends_token(b[0]),
    ensures
        reading(a + w + b) == Err::<Reading, Fault>(Fault::Integer { line: 1 + cnt(a, 10u8), token: w }),
{
    let t = a + w + b;
    let n = a.len() as int;
    let (declared, f, c, stop) = so_far(a);
    assert(t =~= a + (w + b));
    assert(t[n] == w[0]);
    lemma_goes_on(a, w + b);
    if stop {
        let k = choose|k: int| 0 <= k < a.len() && #[trigger] a[k] == 37;
        assert(false);
    }
    assert(!nothing_yet(a));
    assert(skip_space(t, n) == n);
    assert(digits_start(t, n) == n);
    assert(digits_end(t, n) == n);
    lemma_word_step(t, n, f, c);
    lemma_line_of(a, w + b);
    assert(t[n + w.len()] == b[0]);
    assert forall|k: int| n <= k < n + w.len() implies !ends_token(#[trigger] t[k]) by {
        assert(t[k] == w[k - n]);
    }
    lemma_token_here(t, n, n, n + w.len());
    assert(t.subrange(n, n + w.len()) =~= w);
}

/// A parsed formula holds what the text says: its clauses, as many variables, and the header's counts,
/// each in its place.
pub proof fn lemma_parsed_formula_is_the_reading(p: ParsedCnf, r: Reading)
    requires
        p.shows(r),
    ensures
        p.cnf@ == r.clauses,
        p.cnf.nv() == r.num_vars(),
        p.declared_vars is Some <==> r.declared is Some,
        p.declared_clauses is Some <==> r.declared is Some,
        r.declared matches Some((vars, clauses)) ==> p.declared_vars == Some(vars) && p.declared_clauses == Some(clauses),
{
}

/// An error is about the fault: of the same kind, on the same line, and for a variable that cannot be
/// numbered with the literal and its variable, whatever the sign.
pub proof fn lemma_error_is_about_the_fault(e: DimacsError, f: Fault)
    requires
        e.reports(f),
    ensures
        e is BadHeader <==> f is Header,
        e is BadInteger <==> f is Integer,
        e is VarTooLarge <==> f is Variable,
        e is UnterminatedClause <==> f is Unterminated,
        !(e is MissingHeader),
        e matches DimacsError::BadHeader { line } ==> f == (Fault::Header { line: line as nat }),
        e matches DimacsError::BadInteger { line, token } ==> f->Integer_line == line,
        e matches DimacsError::VarTooLarge { line, value, var } ==> f == (Fault::Variable {
            line: line as nat,
            value: value as int,
        }) && (var == value || var == -value),
{
}

} // verus!
