//! Writing a formula, and what reading it back gives.

use vstd::prelude::*;
use vstd::string::*;
use vstd::utf8::{encode_utf8, is_ascii_chars, is_ascii_chars_encode_utf8};
use crate::cnf::{clauses_text, cnf_text, header_text, lemma_cover, lits_text, Cnf};
use crate::lit::{lemma_mk_lit, Lit, Var};
use crate::semantics::{clause_below, formula_below};
use crate::text::{decimal, digit, signed};
use super::grammar::{clauses_from, cnf_at, cover_all, digits_end, digits_start, header_at, integer_at, is_digit, is_space, literal, number, preamble, reading, skip_blanks, skip_space, Fault, Reading};

verus! {

/// A formula as the bytes of a DIMACS file.
pub open spec fn cnf_bytes(f: Seq<Seq<Lit>>, num_vars: nat) -> Seq<u8> {
    let text = cnf_text(f, num_vars);
    Seq::new(text.len(), |i: int| text[i] as u8)
}

/// Every character is an ASCII character.
pub open spec fn plain(t: Seq<char>) -> bool {
    forall|i: int| 0 <= i < t.len() ==> (#[trigger] t[i]) as u32 <= 127
}

proof fn lemma_plain_concat(a: Seq<char>, b: Seq<char>)
    requires
        plain(a),
        plain(b),
    ensures
        plain(a + b),
{
    assert forall|i: int| 0 <= i < (a + b).len() implies (#[trigger] (a + b)[i]) as u32 <= 127 by {
        if i < a.len() {
            assert(a[i] as u32 <= 127);
        } else {
            assert(b[i - a.len()] as u32 <= 127);
        }
    }
}

proof fn lemma_ascii(c: char)
    requires
        c as u32 <= 127,
    ensures
        '\0' <= c <= '\u{7f}',
{
}

proof fn lemma_digit_byte(c: char)
    requires
        48 <= c as u32 <= 57,
    ensures
        is_digit(c as u8),
{
}

/// A digit is the byte 48 and what it counts.
proof fn lemma_digit(d: int)
    requires
        0 <= d < 10,
    ensures
        digit(d) as u32 == 48 + d,
        digit(d) as u8 == 48 + d,
{
}

/// A decimal numeral is one or more digits.
pub proof fn lemma_decimal(n: nat)
    ensures
        decimal(n).len() > 0,
        plain(decimal(n)),
        forall|i: int| 0 <= i < decimal(n).len() ==> 48 <= (#[trigger] decimal(n)[i]) as u32 <= 57,
    decreases n,
{
    lemma_digit(n as int % 10);
    if n >= 10 {
        lemma_decimal(n / 10);
    }
}

proof fn lemma_signed_plain(v: int)
    ensures
        plain(signed(v)),
{
    if v < 0 {
        lemma_decimal((-v) as nat);
        lemma_plain_concat(seq!['-'], decimal((-v) as nat));
    } else {
        lemma_decimal(v as nat);
    }
}

proof fn lemma_lits_plain(c: Seq<Lit>)
    ensures
        plain(lits_text(c)),
    decreases c.len(),
{
    if c.len() > 0 {
        lemma_lits_plain(c.drop_last());
        lemma_signed_plain(c.last().dimacs());
        lemma_plain_concat(lits_text(c.drop_last()), signed(c.last().dimacs()));
        lemma_plain_concat(lits_text(c.drop_last()) + signed(c.last().dimacs()), seq![' ']);
    }
}

proof fn lemma_clauses_plain(f: Seq<Seq<Lit>>)
    ensures
        plain(clauses_text(f)),
    decreases f.len(),
{
    if f.len() > 0 {
        lemma_clauses_plain(f.drop_last());
        lemma_lits_plain(f.last());
        lemma_plain_concat(clauses_text(f.drop_last()), lits_text(f.last()));
        lemma_plain_concat(clauses_text(f.drop_last()) + lits_text(f.last()), seq!['0', '\n']);
    }
}

/// A formula is written in ASCII characters.
pub proof fn lemma_cnf_text_is_ascii(f: Seq<Seq<Lit>>, n: nat)
    ensures
        plain(cnf_text(f, n)),
        cnf_bytes(f, n) == encode_utf8(cnf_text(f, n)),
{
    lemma_decimal(n);
    lemma_decimal(f.len());
    let h = seq!['p', ' ', 'c', 'n', 'f', ' '];
    lemma_plain_concat(h, decimal(n));
    lemma_plain_concat(h + decimal(n), seq![' ']);
    lemma_plain_concat(h + decimal(n) + seq![' '], decimal(f.len()));
    lemma_plain_concat(h + decimal(n) + seq![' '] + decimal(f.len()), seq!['\n']);
    lemma_clauses_plain(f);
    lemma_plain_concat(header_text(n, f.len()), clauses_text(f));
    let t = cnf_text(f, n);
    assert(is_ascii_chars(t)) by {
        assert forall|i: int| 0 <= i < t.len() implies '\0' <= #[trigger] t[i] <= '\u{7f}' by {
            lemma_ascii(t[i]);
        }
    }
    is_ascii_chars_encode_utf8(t);
    assert(cnf_bytes(f, n) =~= encode_utf8(t));
}

/// Writes a formula as DIMACS CNF.
pub fn write_cnf(cnf: &Cnf) -> (out: Vec<u8>)
    requires
        cnf.wf(),
        formula_below(cnf@, i32::MAX as int),
    ensures
        out@ == cnf_bytes(cnf@, cnf.nv() as nat),
{
    let text = cnf.to_string();
    proof {
        cnf.lemma_wf();
        lemma_cnf_text_is_ascii(cnf@, cnf.nv() as nat);
    }
    let bytes = text.as_str().as_bytes();
    let mut out: Vec<u8> = Vec::new();
    for i in 0..bytes.len()
        invariant
            out@ == bytes@.take(i as int),
    {
        out.push(bytes[i]);
        assert(bytes@.take(i + 1) =~= bytes@.take(i as int).push(bytes@[i as int]));
    }
    assert(bytes@.take(bytes@.len() as int) =~= bytes@);
    out
}

/// The text `t` stands in the bytes at `i`.
pub open spec fn written(s: Seq<u8>, i: int, t: Seq<char>) -> bool {
    &&& 0 <= i
    &&& i + t.len() <= s.len()
    &&& forall|k: int| 0 <= k < t.len() ==> s[i + k] == #[trigger] t[k] as u8
}

proof fn lemma_written_split(s: Seq<u8>, i: int, a: Seq<char>, b: Seq<char>)
    requires
        written(s, i, a + b),
    ensures
        written(s, i, a),
        written(s, i + a.len(), b),
{
    assert forall|k: int| 0 <= k < a.len() implies s[i + k] == #[trigger] a[k] as u8 by {
        assert((a + b)[k] == a[k]);
    }
    assert forall|k: int| 0 <= k < b.len() implies s[i + a.len() + k] == #[trigger] b[k] as u8 by {
        assert((a + b)[a.len() + k] == b[k]);
        assert(s[i + (a.len() + k)] == (a + b)[a.len() + k] as u8);
    }
}

/// A numeral reads as its number.
proof fn lemma_number(s: Seq<u8>, a: int, n: nat)
    requires
        written(s, a, decimal(n)),
    ensures
        number(s, a, a + decimal(n).len()) == n,
    decreases n,
{
    lemma_digit(n as int % 10);
    let t = decimal(n);
    if n < 10 {
        assert(s[a + 0] == t[0] as u8);
        assert(number(s, a, a) == 0);
        assert(number(s, a, a + 1) == number(s, a, a) * 10 + (s[a] - 48) as nat);
    } else {
        let p = decimal(n / 10);
        assert(t =~= p + seq![digit(n as int % 10)]);
        lemma_written_split(s, a, p, seq![digit(n as int % 10)]);
        lemma_number(s, a, n / 10);
        let b = a + t.len();
        assert(s[a + p.len() + 0] == digit(n as int % 10) as u8) by {
            assert(seq![digit(n as int % 10)][0] == digit(n as int % 10));
        }
        assert(b - 1 == a + p.len());
    }
}

/// A run of digits ends where it ends.
proof fn lemma_digits_end(s: Seq<u8>, a: int, b: int)
    requires
        0 <= a <= b < s.len(),
        forall|k: int| a <= k < b ==> is_digit(#[trigger] s[k]),
        !is_digit(s[b]),
    ensures
        digits_end(s, a) == b,
    decreases b - a,
{
    if a < b {
        lemma_digits_end(s, a + 1, b);
    }
}

/// An integer that was written and is followed by something else than a digit reads as itself.
proof fn lemma_integer(s: Seq<u8>, i: int, v: int)
    requires
        written(s, i, signed(v)),
        i + signed(v).len() < s.len(),
        !is_digit(s[i + signed(v).len()]),
        -i64::MAX <= v <= i64::MAX,
    ensures
        integer_at(s, i) == Ok::<(int, int), Fault>((v, i + signed(v).len())),
        skip_space(s, i) == i,
        i < s.len(),
        s[i] == 45 || is_digit(s[i]),
{
    let t = signed(v);
    let size = if v < 0 { (-v) as nat } else { v as nat };
    let d = decimal(size);
    lemma_decimal(size);
    let from = if v < 0 { i + 1 } else { i };
    if v < 0 {
        lemma_written_split(s, i, seq!['-'], d);
        assert(seq!['-'][0] == '-');
        assert(s[i + 0] == 45);
    }
    assert(written(s, from, d));
    let to = from + d.len();
    assert forall|k: int| from <= k < to implies is_digit(#[trigger] s[k]) by {
        lemma_digit_byte(d[k - from]);
        assert(s[from + (k - from)] == d[k - from] as u8);
    }
    lemma_digits_end(s, from, to);
    lemma_number(s, from, size);
    assert(is_digit(s[from]));
    assert(skip_space(s, i) == i);
    assert(digits_start(s, i) == from);
}

/// Reading clauses starts at the next token, however much white space comes first.
proof fn lemma_space_first(s: Seq<u8>, i: int, f: Seq<Seq<Lit>>, c: Seq<Lit>)
    requires
        0 <= i < s.len(),
        is_space(s[i]),
    ensures
        clauses_from(s, i, f, c) == clauses_from(s, i + 1, f, c),
{
    assert(skip_space(s, i) == skip_space(s, i + 1));
}

proof fn lemma_lits_prefix(c: Seq<Lit>, j: int)
    requires
        0 <= j <= c.len(),
    ensures
        exists|rest: Seq<char>| lits_text(c) == #[trigger] (lits_text(c.take(j)) + rest),
    decreases c.len(),
{
    if j == c.len() {
        assert(c.take(j) =~= c);
        assert(lits_text(c) =~= lits_text(c.take(j)) + Seq::<char>::empty());
    } else {
        let p = c.drop_last();
        lemma_lits_prefix(p, j);
        assert(p.take(j) =~= c.take(j));
        let rest = choose|rest: Seq<char>| lits_text(p) == #[trigger] (lits_text(p.take(j)) + rest);
        let more = rest + signed(c.last().dimacs()) + seq![' '];
        assert(lits_text(c) =~= lits_text(c.take(j)) + more);
    }
}

proof fn lemma_clauses_prefix(f: Seq<Seq<Lit>>, j: int)
    requires
        0 <= j <= f.len(),
    ensures
        exists|rest: Seq<char>| clauses_text(f) == #[trigger] (clauses_text(f.take(j)) + rest),
    decreases f.len(),
{
    if j == f.len() {
        assert(f.take(j) =~= f);
        assert(clauses_text(f) =~= clauses_text(f.take(j)) + Seq::<char>::empty());
    } else {
        let p = f.drop_last();
        lemma_clauses_prefix(p, j);
        assert(p.take(j) =~= f.take(j));
        let rest = choose|rest: Seq<char>| clauses_text(p) == #[trigger] (clauses_text(p.take(j)) + rest);
        let more = rest + lits_text(f.last()) + seq!['0', '\n'];
        assert(clauses_text(f) =~= clauses_text(f.take(j)) + more);
    }
}

/// Every literal can be read back.
pub open spec fn all_readable(f: Seq<Seq<Lit>>) -> bool {
    formula_below(f, Var::MAX_INDEX as int)
}

/// Reading on through the literals of a clause and its zero.
proof fn lemma_read_clause(s: Seq<u8>, q: int, c: Seq<Lit>, j: int, f: Seq<Seq<Lit>>)
    requires
        written(s, q, lits_text(c) + seq!['0', '\n']),
        clause_below(c, Var::MAX_INDEX as int),
        0 <= j <= c.len(),
    ensures
        clauses_from(s, q + lits_text(c.take(j)).len(), f, c.take(j)) == clauses_from(
            s,
            q + lits_text(c).len() + 2,
            f.push(c),
            Seq::empty(),
        ),
    decreases c.len() - j,
{
    let tail = seq!['0', '\n'];
    lemma_written_split(s, q, lits_text(c), tail);
    if j == c.len() {
        assert(c.take(j) =~= c);
        let at = q + lits_text(c).len();
        assert(tail[0] == '0' && tail[1] == '\n');
        assert(s[at + 0] == 48 && s[at + 1] == 10);
        lemma_digit(0);
        assert(signed(0) =~= seq![digit(0)]);
        assert(written(s, at, signed(0))) by {
            assert(signed(0)[0] as u8 == 48);
        }
        lemma_integer(s, at, 0);
        assert(clauses_from(s, at, f, c) == clauses_from(s, at + 1, f.push(c), Seq::empty()));
        lemma_space_first(s, at + 1, f.push(c), Seq::empty());
    } else {
        let l = c[j];
        let v = l.dimacs();
        let at = q + lits_text(c.take(j)).len();
        assert(c.take(j + 1).drop_last() =~= c.take(j));
        lemma_lits_prefix(c, j + 1);
        let rest = choose|rest: Seq<char>| lits_text(c) == #[trigger] (lits_text(c.take(j + 1)) + rest);
        lemma_written_split(s, q, lits_text(c.take(j + 1)), rest);
        let head = lits_text(c.take(j)) + signed(v);
        assert(lits_text(c.take(j + 1)) == head + seq![' ']);
        lemma_written_split(s, q, head, seq![' ']);
        lemma_written_split(s, q, lits_text(c.take(j)), signed(v));
        let e = at + signed(v).len();
        assert(q + head.len() == e);
        assert(seq![' '][0] == ' ');
        assert(s[e + 0] == 32);
        assert(l.vi() < Var::MAX_INDEX);
        lemma_integer(s, at, v);
        lemma_mk_lit(l);
        assert(literal(v) == l);
        assert(c.take(j).push(l) =~= c.take(j + 1));
        assert(clauses_from(s, at, f, c.take(j)) == clauses_from(s, e, f, c.take(j + 1)));
        lemma_space_first(s, e, f, c.take(j + 1));
        lemma_read_clause(s, q, c, j + 1, f);
    }
}

/// Reading on through the clauses to the end of the text.
proof fn lemma_read_clauses(s: Seq<u8>, q: int, f: Seq<Seq<Lit>>, k: int)
    requires
        written(s, q, clauses_text(f)),
        q + clauses_text(f).len() == s.len(),
        all_readable(f),
        0 <= k <= f.len(),
    ensures
        clauses_from(s, q + clauses_text(f.take(k)).len(), f.take(k), Seq::empty()) == Ok::<
            Seq<Seq<Lit>>,
            Fault,
        >(f),
    decreases f.len() - k,
{
    if k == f.len() {
        assert(f.take(k) =~= f);
    } else {
        let c = f[k];
        assert(clause_below(f[k], Var::MAX_INDEX as int));
        let at = q + clauses_text(f.take(k)).len();
        assert(f.take(k + 1).drop_last() =~= f.take(k));
        lemma_clauses_prefix(f, k + 1);
        let rest = choose|rest: Seq<char>| clauses_text(f) == #[trigger] (clauses_text(f.take(k + 1)) + rest);
        lemma_written_split(s, q, clauses_text(f.take(k + 1)), rest);
        let line = lits_text(c) + seq!['0', '\n'];
        assert(clauses_text(f.take(k + 1)) =~= clauses_text(f.take(k)) + line);
        lemma_written_split(s, q, clauses_text(f.take(k)), line);
        lemma_read_clause(s, at, c, 0, f.take(k));
        assert(c.take(0) =~= Seq::<Lit>::empty());
        assert(f.take(k).push(c) =~= f.take(k + 1));
        lemma_read_clauses(s, q, f, k + 1);
    }
}

/// The header that was written declares the counts that were written.
proof fn lemma_read_header(s: Seq<u8>, n: nat, m: nat)
    requires
        written(s, 0, header_text(n, m)),
        n <= i64::MAX,
        m <= i64::MAX,
        n <= usize::MAX,
        m <= usize::MAX,
    ensures
        preamble(s, 0) == Ok::<(Option<(usize, usize)>, int), Fault>(
            (Some((n as usize, m as usize)), header_text(n, m).len() - 1),
        ),
        s[header_text(n, m).len() - 1] == 10,
{
    let word = seq!['p', ' ', 'c', 'n', 'f', ' '];
    let a = word + decimal(n);
    let b = a + seq![' '];
    let c = b + decimal(m);
    assert(header_text(n, m) == c + seq!['\n']);
    lemma_written_split(s, 0, c, seq!['\n']);
    lemma_written_split(s, 0, b, decimal(m));
    lemma_written_split(s, 0, a, seq![' ']);
    lemma_written_split(s, 0, word, decimal(n));
    assert(word[0] == 'p' && word[1] == ' ' && word[2] == 'c' && word[3] == 'n' && word[4] == 'f' && word[5] == ' ');
    assert(s[0] == 112 && s[1] == 32 && s[2] == 99 && s[3] == 110 && s[4] == 102 && s[5] == 32);
    assert(seq![' '][0] == ' ' && seq!['\n'][0] == '\n');
    assert(s[a.len() as int] == 32);
    assert(s[c.len() as int] == 10);
    assert(skip_space(s, 0) == 0);
    assert(skip_blanks(s, 1) == 2) by {
        assert(skip_blanks(s, 2) == 2);
    }
    assert(cnf_at(s, 2));
    assert(signed(n as int) == decimal(n) && signed(m as int) == decimal(m));
    lemma_integer(s, 6, n as int);
    assert(skip_space(s, 5) == skip_space(s, 6));
    assert(integer_at(s, 5) == integer_at(s, 6));
    lemma_integer(s, b.len() as int, m as int);
    assert(skip_space(s, a.len() as int) == skip_space(s, b.len() as int));
    assert(integer_at(s, a.len() as int) == integer_at(s, b.len() as int));
    assert(header_at(s, 0) == Ok::<((usize, usize), int), Fault>(((n as usize, m as usize), c.len() as int)));
}

proof fn lemma_cover_all(n: int, f: Seq<Seq<Lit>>)
    requires
        formula_below(f, n),
    ensures
        cover_all(n, f) == n,
    decreases f.len(),
{
    if f.len() > 0 {
        let p = f.drop_last();
        assert forall|i: int| 0 <= i < p.len() implies clause_below(#[trigger] p[i], n) by {
            assert(p[i] == f[i]);
        }
        lemma_cover_all(n, p);
        assert(clause_below(f[f.len() - 1], n));
        lemma_cover(n, f.last());
    }
}

/// Reading a formula that was written gives the formula back: the same clauses over the same
/// number of variables, with a header that declares both.
pub proof fn lemma_writing_then_parsing_is_the_identity(f: Seq<Seq<Lit>>, n: nat)
    requires
        formula_below(f, n as int),
        all_readable(f),
        n <= i64::MAX && n <= usize::MAX,
        f.len() <= i64::MAX && f.len() <= usize::MAX,
    ensures
        reading(cnf_bytes(f, n)) matches Ok(r) && r.clauses == f && r.num_vars() == n && r.declared == Some(
            (n as usize, f.len() as usize),
        ),
{
    let s = cnf_bytes(f, n);
    lemma_bytes_written(f, n);
    lemma_read_whole(s, f, n);
    lemma_cover_all(n as int, f);
}

proof fn lemma_bytes_written(f: Seq<Seq<Lit>>, n: nat)
    ensures
        written(cnf_bytes(f, n), 0, cnf_text(f, n)),
        cnf_bytes(f, n).len() == cnf_text(f, n).len(),
{
}

/// A text that holds a formula and nothing else reads as the formula.
proof fn lemma_read_whole(s: Seq<u8>, f: Seq<Seq<Lit>>, n: nat)
    requires
        written(s, 0, header_text(n, f.len()) + clauses_text(f)),
        s.len() == (header_text(n, f.len()) + clauses_text(f)).len(),
        all_readable(f),
        n <= i64::MAX && n <= usize::MAX,
        f.len() <= i64::MAX && f.len() <= usize::MAX,
    ensures
        reading(s) == Ok::<Reading, Fault>(
            Reading { declared: Some((n as usize, f.len() as usize)), clauses: f },
        ),
{
    let h = header_text(n, f.len());
    let t = clauses_text(f);
    lemma_written_split(s, 0, h, t);
    lemma_read_header(s, n, f.len());
    let at = h.len() - 1;
    lemma_read_clauses(s, h.len() as int, f, 0);
    lemma_space_first(s, at, Seq::empty(), Seq::empty());
    assert(f.take(0) =~= Seq::<Seq<Lit>>::empty());
    assert(clauses_text(f.take(0)).len() == 0);
}

} // verus!
