//! The text of a solution: a status line, and a model on `v` lines.

use vstd::prelude::*;
use vstd::string::*;
use crate::cnf::{model_literals, Model};
use crate::dimacs::writer::lemma_decimal;
use crate::lit::Var;
use crate::solver::Outcome;
use crate::text::{append_signed, signed};

verus! {

/// Column at which to break a `v` line. Long single-line models upset some tools.
pub const MODEL_LINE_WIDTH: usize = 78;

/// Words on `v` lines so far: the text, and the column where the next word would go.
pub struct Wrapped {
    /// The text.
    pub text: Seq<char>,
    /// Length of the last line.
    pub column: int,
}

/// Puts words on `v` lines: a word that would reach past the line width starts a new line.
pub open spec fn wrapped(words: Seq<Seq<char>>) -> Wrapped
    decreases words.len(),
{
    if words.len() == 0 {
        Wrapped { text: Seq::empty(), column: 0 }
    } else {
        let before = wrapped(words.drop_last());
        let word = words.last();
        if words.len() == 1 {
            Wrapped { text: seq!['v', ' '] + word, column: 2int + word.len() }
        } else if before.column + word.len() + 1 > MODEL_LINE_WIDTH {
            Wrapped { text: before.text + seq!['\n', 'v', ' '] + word, column: 2int + word.len() }
        } else {
            Wrapped { text: before.text + seq![' '] + word, column: before.column + word.len() + 1 }
        }
    }
}

/// The words of a model: its literals, then a zero.
pub open spec fn model_words(values: Seq<bool>) -> Seq<Seq<char>> {
    Seq::new(values.len(), |i: int| signed(model_literals(values)[i].dimacs())).push(signed(0))
}

/// A model on `v` lines.
pub open spec fn model_lines(values: Seq<bool>) -> Seq<char> {
    wrapped(model_words(values)).text + seq!['\n']
}

/// The solution: the status line, then the model where there is one and it is wanted.
pub open spec fn solution(outcome: Outcome, no_model: bool) -> Seq<char> {
    let status = outcome.spec_status_line() + seq!['\n'];
    match outcome {
        Outcome::Sat(m) => if no_model {
            status
        } else {
            status + model_lines(m@)
        },
        _ => status,
    }
}

/// The last line of the text is `column` long.
pub open spec fn last_line_is(text: Seq<char>, column: int) -> bool {
    &&& 0 <= column <= text.len()
    &&& column < text.len() ==> text[text.len() - column - 1] == '\n'
    &&& forall|i: int| text.len() - column <= i < text.len() ==> #[trigger] text[i] != '\n'
}

/// Every line break in the text ends a line that is no longer than the width.
pub open spec fn lines_fit(text: Seq<char>) -> bool {
    forall|i: int| #![trigger text[i]]
        0 <= i < text.len() && text[i] == '\n' ==> exists|start: int|
            i - MODEL_LINE_WIDTH <= start <= i && #[trigger] line_starts(text, start)
}

/// A line starts at this place.
pub open spec fn line_starts(text: Seq<char>, start: int) -> bool {
    start == 0 || (0 < start <= text.len() && text[start - 1] == '\n')
}

/// No line of wrapped words is longer than the line width, as long as no word is too long for a
/// line of its own.
pub proof fn lemma_wrapped_lines_fit(words: Seq<Seq<char>>)
    requires
        forall|i: int|
            0 <= i < words.len() ==> (#[trigger] words[i]).len() + 2 <= MODEL_LINE_WIDTH && forall|k: int|
                0 <= k < words[i].len() ==> #[trigger] words[i][k] != '\n',
    ensures
        wrapped(words).column <= MODEL_LINE_WIDTH,
        last_line_is(wrapped(words).text, wrapped(words).column),
        lines_fit(wrapped(words).text),
    decreases words.len(),
{
    if words.len() > 0 {
        let p = words.drop_last();
        assert forall|i: int| 0 <= i < p.len() implies (#[trigger] p[i]).len() + 2 <= MODEL_LINE_WIDTH && forall|k: int|
            0 <= k < p[i].len() ==> #[trigger] p[i][k] != '\n' by {
            assert(p[i] == words[i]);
        }
        lemma_wrapped_lines_fit(p);
        let before = wrapped(p);
        let word = words.last();
        assert(words[words.len() - 1] == word);
        let after = wrapped(words);
        let old_len = before.text.len() as int;
        let t = after.text;
        assert forall|i: int| 0 <= i < old_len && words.len() > 1 implies t[i] == before.text[i] by {}
        assert forall|i: int| t.len() - word.len() <= i < t.len() implies #[trigger] t[i] != '\n' by {
            assert(t[i] == word[i - (t.len() - word.len())]);
        }
        if words.len() == 1 {
            assert(t[0] == 'v' && t[1] == ' ');
        } else if before.column + word.len() + 1 > MODEL_LINE_WIDTH {
            assert(t[old_len] == '\n' && t[old_len + 1] == 'v' && t[old_len + 2] == ' ');
        } else {
            assert(t[old_len] == ' ');
            assert forall|i: int| t.len() - after.column <= i < t.len() implies #[trigger] t[i] != '\n' by {
                if i < old_len {
                    assert(before.text[i] != '\n');
                }
            }
        }
        assert forall|i: int| #![trigger t[i]] 0 <= i < t.len() && t[i] == '\n' implies exists|start: int|
            i - MODEL_LINE_WIDTH <= start <= i && #[trigger] line_starts(t, start) by {
            if i < old_len && words.len() > 1 {
                assert(before.text[i] == '\n');
                let start = choose|start: int|
                    i - MODEL_LINE_WIDTH <= start <= i && #[trigger] line_starts(before.text, start);
                assert(line_starts(t, start));
            } else {
                let start = old_len - before.column;
                if 0 < start {
                    assert(before.text[start - 1] == '\n');
                    assert(t[start - 1] == '\n');
                }
                assert(line_starts(t, start));
            }
        }
    }
}

/// Appends one word, as `wrapped` says.
fn append_word(out: &mut String, column: usize, first: bool, value: i64) -> (now: usize)
    requires
        column <= MODEL_LINE_WIDTH,
    ensures
        ({
            let word = signed(value as int);
            let breaks = !first && column + word.len() + 1 > MODEL_LINE_WIDTH;
            let lead = if first {
                seq!['v', ' ']
            } else if breaks {
                seq!['\n', 'v', ' ']
            } else {
                seq![' ']
            };
            &&& final(out)@ == old(out)@ + lead + word
            &&& now == if first || breaks {
                2int + word.len()
            } else {
                column + word.len() + 1
            }
            &&& now <= MODEL_LINE_WIDTH
        }),
{
    let mut word = String::new();
    append_signed(&mut word, value);
    proof {
        assert(word@ =~= signed(value as int));
        lemma_signed_len(value as int);
        reveal_strlit("v ");
        reveal_strlit("\nv ");
        reveal_strlit(" ");
        assert("v "@ =~= seq!['v', ' ']);
        assert("\nv "@ =~= seq!['\n', 'v', ' ']);
        assert(" "@ =~= seq![' ']);
    }
    let len: usize = word.as_str().unicode_len();
    if first {
        out.append("v ");
        out.append(word.as_str());
        2 + len
    } else if column + len + 1 > MODEL_LINE_WIDTH {
        out.append("\nv ");
        out.append(word.as_str());
        2 + len
    } else {
        out.append(" ");
        out.append(word.as_str());
        column + len + 1
    }
}

/// Ten to the `k`.
spec fn pow10(k: nat) -> nat
    decreases k,
{
    if k == 0 {
        1
    } else {
        10 * pow10((k - 1) as nat)
    }
}

/// A number below ten to the `k` has at most `k` digits.
proof fn lemma_decimal_len(n: nat, k: nat)
    requires
        k >= 1,
        n < pow10(k),
    ensures
        crate::text::decimal(n).len() <= k,
    decreases k,
{
    if n >= 10 {
        if k == 1 {
            assert(pow10(0) == 1);
        }
        lemma_decimal_len(n / 10, (k - 1) as nat);
    }
}

/// A number of 64 bits takes at most twenty characters.
proof fn lemma_signed_len(v: int)
    requires
        i64::MIN <= v <= i64::MAX,
    ensures
        signed(v).len() <= 20,
{
    let n = if v < 0 { (-v) as nat } else { v as nat };
    reveal_with_fuel(pow10, 20);
    assert(pow10(19) == 10_000_000_000_000_000_000);
    lemma_decimal_len(n, 19);
}

/// A numeral holds no line break.
proof fn lemma_signed_on_one_line(v: int)
    ensures
        forall|k: int| 0 <= k < signed(v).len() ==> #[trigger] signed(v)[k] != '\n',
{
    let n = if v < 0 { (-v) as nat } else { v as nat };
    let d = crate::text::decimal(n);
    lemma_decimal(n);
    assert forall|k: int| 0 <= k < signed(v).len() implies #[trigger] signed(v)[k] != '\n' by {
        if v < 0 {
            if k > 0 {
                assert(signed(v)[k] == d[k - 1]);
                assert(48 <= d[k - 1] as u32);
            } else {
                assert(signed(v)[0] == '-');
            }
        } else {
            assert(48 <= d[k] as u32);
        }
    }
}

/// No line of a model is longer than the line width.
pub proof fn lemma_model_lines_fit(values: Seq<bool>)
    requires
        values.len() <= Var::MAX_INDEX + 1,
    ensures
        lines_fit(model_lines(values)),
{
    let words = model_words(values);
    assert forall|i: int| 0 <= i < words.len() implies (#[trigger] words[i]).len() + 2 <= MODEL_LINE_WIDTH && forall|k: int|
        0 <= k < words[i].len() ==> #[trigger] words[i][k] != '\n' by {
        let v = if i < values.len() { model_literals(values)[i].dimacs() } else { 0 };
        assert(words[i] == signed(v));
        lemma_signed_len(v);
        lemma_signed_on_one_line(v);
    }
    lemma_wrapped_lines_fit(words);
    let w = wrapped(words);
    let t = model_lines(values);
    let n = w.text.len() as int;
    assert forall|i: int| #![trigger t[i]] 0 <= i < t.len() && t[i] == '\n' implies exists|start: int|
        i - MODEL_LINE_WIDTH <= start <= i && #[trigger] line_starts(t, start) by {
        if i < n {
            assert(w.text[i] == '\n');
            let start = choose|start: int|
                i - MODEL_LINE_WIDTH <= start <= i && #[trigger] line_starts(w.text, start);
            assert(line_starts(t, start));
        } else {
            let start = n - w.column;
            if 0 < start {
                assert(w.text[start - 1] == '\n');
            }
            assert(line_starts(t, start));
        }
    }
}

/// Writes the solution as DIMACS text, wrapping the model across `v` lines.
pub fn solution_text(outcome: &Outcome, no_model: bool) -> (s: String)
    requires
        outcome matches Outcome::Sat(m) ==> m@.len() <= Var::MAX_INDEX + 1,
    ensures
        s@ == solution(*outcome, no_model),
{
    let mut s = outcome.status_line().to_owned();
    s.append("\n");
    proof {
        reveal_strlit("\n");
        assert("\n"@ =~= seq!['\n']);
    }
    match outcome {
        Outcome::Sat(model) => {
            if !no_model {
                append_model(&mut s, model);
            }
        },
        _ => {},
    }
    s
}

/// Appends a model on `v` lines.
fn append_model(out: &mut String, model: &Model)
    requires
        model@.len() <= Var::MAX_INDEX + 1,
    ensures
        final(out)@ == old(out)@ + model_lines(model@),
{
    let ghost start = out@;
    let ghost words = model_words(model@);
    let lits = model.literals();
    let mut column: usize = 0;
    assert(words.take(0).len() == 0);
    assert(start + wrapped(words.take(0)).text =~= start);
    for i in 0..lits.len()
        invariant
            model@.len() <= Var::MAX_INDEX + 1,
            lits@ == model_literals(model@),
            words == model_words(model@),
            column == wrapped(words.take(i as int)).column,
            column <= MODEL_LINE_WIDTH,
            out@ == start + wrapped(words.take(i as int)).text,
    {
        let ghost mid = out@;
        let ghost before = wrapped(words.take(i as int)).text;
        let value: i64 = lits[i].to_dimacs() as i64;
        proof {
            assert(words.take(i + 1).drop_last() =~= words.take(i as int));
            assert(words.take(i + 1).last() == signed(value as int));
        }
        column = append_word(out, column, i == 0, value);
        assert(out@ =~= start + wrapped(words.take(i + 1)).text);
    }
    let ghost n = lits@.len() as int;
    proof {
        assert(words.take(n + 1) =~= words);
        assert(words.drop_last() =~= words.take(n));
        assert(words.last() == signed(0));
    }
    append_word(out, column, lits.len() == 0, 0);
    assert(out@ =~= start + wrapped(words).text);
    out.append("\n");
    proof {
        reveal_strlit("\n");
        assert("\n"@ =~= seq!['\n']);
        assert(out@ =~= start + model_lines(model@));
    }
}

} // verus!
