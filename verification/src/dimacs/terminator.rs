//! The percent sign that ends a text.

use vstd::prelude::*;
use crate::lit::Lit;
use super::grammar::{clauses_from, digits_end, digits_start, header_at, integer_at, lemma_integer_ends, lemma_scans, literal, next_line, number, preamble, reading, skip_blanks, skip_space};

verus! {

/// `t` is the whole lines of `s`, then a percent sign and whatever follows.
spec fn cut_off(s: Seq<u8>, t: Seq<u8>) -> bool {
    &&& s.len() < t.len()
    &&& forall|i: int| 0 <= i < s.len() ==> #[trigger] s[i] == t[i]
    &&& t[s.len() as int] == 37
    &&& s.len() > 0 ==> s.last() == 10
}

proof fn lemma_same_scans(s: Seq<u8>, t: Seq<u8>, i: int)
    requires
        cut_off(s, t),
        0 <= i <= s.len(),
    ensures
        skip_space(t, i) == skip_space(s, i),
        skip_blanks(t, i) == skip_blanks(s, i),
        digits_end(t, i) == digits_end(s, i),
        i < s.len() ==> next_line(t, i) == next_line(s, i),
        digits_start(t, i) == digits_start(s, i),
    decreases s.len() - i,
{
    if i < s.len() {
        assert(s[i] == t[i]);
        lemma_same_scans(s, t, i + 1);
        if i == s.len() - 1 {
            assert(s[i] == 10);
        }
    }
}

proof fn lemma_same_number(s: Seq<u8>, t: Seq<u8>, a: int, b: int)
    requires
        cut_off(s, t),
        0 <= a,
        b <= s.len(),
    ensures
        number(t, a, b) == number(s, a, b),
    decreases b - a,
{
    if a < b {
        lemma_same_number(s, t, a, b - 1);
        assert(s[b - 1] == t[b - 1]);
    }
}

proof fn lemma_same_integer(s: Seq<u8>, t: Seq<u8>, i: int)
    requires
        cut_off(s, t),
        0 <= i <= s.len(),
        integer_at(s, i) is Ok,
    ensures
        integer_at(t, i) == integer_at(s, i),
{
    lemma_scans(s, i);
    let start = skip_space(s, i);
    lemma_scans(s, start);
    let from = digits_start(s, start);
    lemma_scans(s, from);
    let to = digits_end(s, from);
    lemma_same_scans(s, t, i);
    lemma_same_scans(s, t, start);
    lemma_same_scans(s, t, from);
    lemma_same_number(s, t, from, to);
    assert(start < s.len());
    assert(s[start] == t[start]);
}

proof fn lemma_same_header(s: Seq<u8>, t: Seq<u8>, i: int)
    requires
        cut_off(s, t),
        0 <= i < s.len(),
        header_at(s, i) is Ok,
    ensures
        header_at(t, i) == header_at(s, i),
        header_at(s, i)->Ok_0.1 <= s.len(),
        header_at(s, i)->Ok_0.1 >= 0,
{
    lemma_scans(s, i + 1);
    let j = skip_blanks(s, i + 1);
    lemma_same_scans(s, t, i + 1);
    assert(s[j] == t[j] && s[j + 1] == t[j + 1] && s[j + 2] == t[j + 2]);
    lemma_same_integer(s, t, j + 3);
    lemma_integer_ends(s, j + 3);
    let k = integer_at(s, j + 3)->Ok_0.1;
    lemma_same_integer(s, t, k);
    lemma_integer_ends(s, k);
}

proof fn lemma_same_preamble(s: Seq<u8>, t: Seq<u8>, i: int)
    requires
        cut_off(s, t),
        0 <= i <= s.len(),
        preamble(s, i) is Ok,
    ensures
        preamble(t, i) == preamble(s, i),
        0 <= preamble(s, i)->Ok_0.1 <= s.len(),
    decreases s.len() - i,
{
    lemma_scans(s, i);
    lemma_same_scans(s, t, i);
    let j = skip_space(s, i);
    if j < s.len() {
        assert(s[j] == t[j]);
        lemma_scans(s, j);
        lemma_same_scans(s, t, j);
        if s[j] == 99 {
            lemma_same_preamble(s, t, next_line(s, j));
        } else if s[j] == 112 {
            lemma_same_header(s, t, j);
        }
    }
}

proof fn lemma_same_clauses(s: Seq<u8>, t: Seq<u8>, i: int, f: Seq<Seq<Lit>>, c: Seq<Lit>)
    requires
        cut_off(s, t),
        0 <= i <= s.len(),
        clauses_from(s, i, f, c) is Ok,
    ensures
        clauses_from(t, i, f, c) == clauses_from(s, i, f, c),
    decreases s.len() - i,
{
    lemma_scans(s, i);
    lemma_same_scans(s, t, i);
    let j = skip_space(s, i);
    if j < s.len() && s[j] != 37 {
        assert(s[j] == t[j]);
        lemma_scans(s, j);
        lemma_same_scans(s, t, j);
        if s[j] == 99 {
            lemma_same_clauses(s, t, next_line(s, j), f, c);
        } else {
            lemma_same_integer(s, t, j);
            lemma_integer_ends(s, j);
            let (v, end) = integer_at(s, j)->Ok_0;
            if v == 0 {
                lemma_same_clauses(s, t, end, f.push(c), Seq::empty());
            } else {
                lemma_same_clauses(s, t, end, f, c.push(literal(v)));
            }
        }
    } else if j < s.len() {
        assert(s[j] == t[j]);
    }
}

/// A percent sign at the start of a line ends the text: what follows it is not read.
pub proof fn lemma_percent_sign_ends_the_text(lines: Seq<u8>, rest: Seq<u8>)
    requires
        reading(lines) is Ok,
        lines.len() > 0 ==> lines.last() == 10,
    ensures
        reading(lines + seq![37u8] + rest) == reading(lines),
{
    let t = lines + seq![37u8] + rest;
    assert(cut_off(lines, t));
    lemma_same_preamble(lines, t, 0);
    lemma_same_clauses(lines, t, preamble(lines, 0)->Ok_0.1, Seq::empty(), Seq::empty());
}

} // verus!
