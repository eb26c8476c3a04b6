//! What a reader of the printed texts finds in them.
//!
//! The solution, the report for people and the report for harnesses are read here the way a program
//! at the other end of a pipe reads them: split into words, into lines, or into the fields of an
//! object. What is found is then compared with the result that was printed.

use vstd::prelude::*;
use vstd::string::*;
use crate::cache::BucketKind;
use crate::cnf::{model_literals, spaced_text};
use crate::config::{Algorithm, Options};
use crate::dimacs::DimacsError;
use crate::dp::DpStats;
use crate::lit::{mk_lit, Lit, Var};
use crate::preprocess::PreprocessStats;
use crate::report::{dp_lines, head_lines, json_dp, json_head, json_item, json_object, json_preprocess, json_search, memo_lines, num_line, preprocess_lines, quoted, search_lines, stats_lines, text_line, verdict_word, Figures};
use crate::search::heuristic::Heuristic;
use crate::search::SearchCounters;
use crate::solution::{model_lines, model_words, solution, wrapped};
use crate::solver::{Outcome, SolveResult, SolveStats};
use crate::text::{decimal, signed, unknown_text};

verus! {

/// What separates words: a blank or a line feed.
pub open spec fn separates(c: char) -> bool {
    c == ' ' || c == '\n'
}

/// Words read so far, and the start of the one under way.
pub struct Scan {
    /// The words that are complete.
    pub done: Seq<Seq<char>>,
    /// The characters of the word under way.
    pub word: Seq<char>,
}

/// Reads a text character by character.
pub open spec fn scan(t: Seq<char>) -> Scan
    decreases t.len(),
{
    if t.len() == 0 {
        Scan { done: Seq::empty(), word: Seq::empty() }
    } else {
        let p = scan(t.drop_last());
        if !separates(t.last()) {
            Scan { done: p.done, word: p.word.push(t.last()) }
        } else if p.word.len() == 0 {
            p
        } else {
            Scan { done: p.done.push(p.word), word: Seq::empty() }
        }
    }
}

/// The words of a text.
pub open spec fn words_of(t: Seq<char>) -> Seq<Seq<char>> {
    if scan(t).word.len() == 0 {
        scan(t).done
    } else {
        scan(t).done.push(scan(t).word)
    }
}

/// The list without the words `v`.
pub open spec fn without_v(words: Seq<Seq<char>>) -> Seq<Seq<char>>
    decreases words.len(),
{
    if words.len() == 0 {
        Seq::empty()
    } else if words.last() == seq!['v'] {
        without_v(words.drop_last())
    } else {
        without_v(words.drop_last()).push(words.last())
    }
}

/// The number that a word of digits stands for, the most significant one first.
pub open spec fn digits_value(w: Seq<char>) -> int
    decreases w.len(),
{
    if w.len() == 0 {
        0
    } else {
        10 * digits_value(w.drop_last()) + (w.last() as u32 - 48)
    }
}

/// The number that a numeral stands for: digits, with a minus sign before them where it is negative.
pub open spec fn numeral_value(w: Seq<char>) -> int {
    if w.len() > 0 && w[0] == '-' {
        -digits_value(w.skip(1))
    } else {
        digits_value(w)
    }
}

/// Decimal notation stands for the number that was written, begins with a zero only where the number
/// is zero, and holds digits only.
pub proof fn lemma_decimal_reads_back(n: nat)
    ensures
        digits_value(decimal(n)) == n,
        decimal(n).len() > 0,
        decimal(n)[0] == '0' <==> n == 0,
        decimal(n)[0] == '0' ==> decimal(n).len() == 1,
        forall|i: int| 0 <= i < decimal(n).len() ==> '0' <= #[trigger] decimal(n)[i] <= '9',
    decreases n,
{
    let d = decimal(n);
    if n < 10 {
        assert(d.drop_last() =~= Seq::<char>::empty());
        assert(digits_value(d.drop_last()) == 0);
        assert(d.last() as u32 == 48 + n);
    } else {
        lemma_decimal_reads_back(n / 10);
        assert(d.drop_last() =~= decimal(n / 10));
        assert(d.last() as u32 == 48 + n % 10);
        assert(d[0] == decimal(n / 10)[0]);
    }
}

/// A numeral stands for the number that was written.
pub proof fn lemma_numeral_reads_back(v: int)
    ensures
        numeral_value(signed(v)) == v,
        v < 0 <==> signed(v)[0] == '-',
        signed(v).len() > 0,
        forall|i: int| 0 <= i < signed(v).len() ==> !separates(#[trigger] signed(v)[i]) && signed(v)[i] != 'v',
{
    let n = if v < 0 { (-v) as nat } else { v as nat };
    lemma_decimal_reads_back(n);
    if v < 0 {
        assert(signed(v).skip(1) =~= decimal(n));
        assert forall|i: int| 0 <= i < signed(v).len() implies !separates(#[trigger] signed(v)[i]) && signed(v)[i] != 'v' by {
            if i > 0 {
                assert(signed(v)[i] == decimal(n)[i - 1]);
            }
        }
    } else {
        assert('0' <= decimal(n)[0]);
    }
}

proof fn lemma_scan_separator(t: Seq<char>, c: char)
    requires
        separates(c),
    ensures
        scan(t.push(c)).word.len() == 0,
        scan(t.push(c)).done == words_of(t),
{
    assert(t.push(c).drop_last() =~= t);
}

proof fn lemma_scan_word(t: Seq<char>, w: Seq<char>)
    requires
        scan(t).word.len() == 0,
        forall|i: int| 0 <= i < w.len() ==> !separates(#[trigger] w[i]),
    ensures
        scan(t + w).done == scan(t).done,
        scan(t + w).word == w,
    decreases w.len(),
{
    if w.len() == 0 {
        assert(t + w =~= t);
        assert(scan(t).word =~= w);
    } else {
        let p = w.drop_last();
        assert forall|i: int| 0 <= i < p.len() implies !separates(#[trigger] p[i]) by {
            assert(p[i] == w[i]);
        }
        lemma_scan_word(t, p);
        assert((t + w).drop_last() =~= t + p);
        assert(!separates(w[w.len() - 1]));
        assert(p.push(w.last()) =~= w);
    }
}

/// Wrapping adds nothing to the words but the word `v` at the start of each line.
#[verifier::spinoff_prover]
#[verifier::rlimit(100)]
pub proof fn lemma_wrapped_words_read_back(words: Seq<Seq<char>>)
    requires
        forall|i: int| 0 <= i < words.len() ==> (#[trigger] words[i]).len() > 0 && words[i] != seq!['v'],
        forall|i: int, k: int|
            0 <= i < words.len() && 0 <= k < words[i].len() ==> !separates(#[trigger] words[i][k]),
    ensures
        without_v(words_of(wrapped(words).text)) == words,
    decreases words.len(),
{
    if words.len() == 0 {
        assert(words_of(Seq::<char>::empty()) =~= Seq::<Seq<char>>::empty());
        assert(words =~= Seq::<Seq<char>>::empty());
    } else {
        let p = words.drop_last();
        let w = words.last();
        assert(w == words[words.len() - 1]);
        assert forall|k: int| 0 <= k < w.len() implies !separates(#[trigger] w[k]) by {
            assert(!separates(words[words.len() - 1][k]));
        }
        assert forall|i: int, k: int| 0 <= i < p.len() && 0 <= k < p[i].len() implies !separates(
            #[trigger] p[i][k],
        ) by {
            assert(!separates(words[i][k]));
        }
        lemma_wrapped_words_read_back(p);
        let before = wrapped(p).text;
        let after = wrapped(words).text;
        let v = seq!['v'];
        assert(!separates(v[0]));
        let lead = if words.len() == 1 {
            assert(before =~= Seq::<char>::empty());
            let a = before + v;
            lemma_scan_word(before, v);
            lemma_scan_separator(a, ' ');
            assert(after =~= a.push(' ') + w);
            a.push(' ')
        } else if wrapped(p).column + w.len() + 1 > crate::solution::MODEL_LINE_WIDTH {
            let a = before.push('\n');
            lemma_scan_separator(before, '\n');
            lemma_scan_word(a, v);
            lemma_scan_separator(a + v, ' ');
            assert(after =~= (a + v).push(' ') + w);
            (a + v).push(' ')
        } else {
            lemma_scan_separator(before, ' ');
            assert(after =~= before.push(' ') + w);
            before.push(' ')
        };
        lemma_scan_word(lead, w);
        let d = scan(lead).done;
        assert(words_of(after) == d.push(w));
        assert(d.push(w).drop_last() =~= d);
        assert(without_v(d) == p) by {
            if d != words_of(before) {
                assert(d.drop_last() =~= words_of(before));
            }
        }
        assert(p.push(w) =~= words);
    }
}

/// Every line of the text starts with `v` and a blank.
pub open spec fn all_v_lines(t: Seq<char>) -> bool {
    &&& t.len() > 0 ==> t.len() > 1 && t[0] == 'v' && t[1] == ' '
    &&& forall|i: int|
        0 <= i < t.len() - 1 && #[trigger] t[i] == '\n' ==> i + 2 < t.len() && t[i + 1] == 'v' && t[i + 2] == ' '
}

proof fn lemma_wrapped_v_lines(words: Seq<Seq<char>>)
    requires
        forall|i: int, k: int|
            0 <= i < words.len() && 0 <= k < words[i].len() ==> !separates(#[trigger] words[i][k]),
        forall|i: int| 0 <= i < words.len() ==> (#[trigger] words[i]).len() > 0,
    ensures
        all_v_lines(wrapped(words).text),
        words.len() > 0 ==> wrapped(words).text.len() > 0 && wrapped(words).text.last() != '\n',
    decreases words.len(),
{
    if words.len() > 0 {
        let p = words.drop_last();
        let w = words.last();
        let before = wrapped(p).text;
        let t = wrapped(words).text;
        assert(w == words[words.len() - 1]);
        assert forall|i: int, k: int| 0 <= i < p.len() && 0 <= k < p[i].len() implies !separates(
            #[trigger] p[i][k],
        ) by {
            assert(!separates(words[i][k]));
        }
        lemma_wrapped_v_lines(p);
        let n = t.len() - w.len();
        assert forall|i: int| n <= i < t.len() implies #[trigger] t[i] != '\n' by {
            assert(t[i] == w[i - n]);
            assert(!separates(words[words.len() - 1][i - n]));
        }
        assert(t.last() == t[t.len() - 1]);
        if words.len() > 1 {
            assert forall|i: int| 0 <= i < before.len() implies t[i] == before[i] by {}
            assert(before.last() == before[before.len() - 1]);
            assert forall|i: int| 0 <= i < t.len() - 1 && #[trigger] t[i] == '\n' implies i + 2 < t.len() && t[i + 1]
                == 'v' && t[i + 2] == ' ' by {
                if i < before.len() {
                    assert(before[i] == '\n');
                } else {
                    assert(i == before.len());
                }
            }
        } else {
            assert(t[0] == 'v' && t[1] == ' ');
            assert forall|i: int| 0 <= i < t.len() - 1 && #[trigger] t[i] == '\n' implies i + 2 < t.len() && t[i + 1]
                == 'v' && t[i + 2] == ' ' by {
                assert(i < 2);
            }
        }
    }
}

/// The number that stands for a variable in a listing: positive where it is true, negative where it is
/// false. Variables are counted from one.
pub open spec fn listed_number(values: Seq<bool>, i: int) -> int {
    if values[i] {
        i + 1
    } else {
        -(i + 1)
    }
}

/// Reading the `v` lines back gives the model: the words on them are, for every variable in order, its
/// number where it is true and the number with a minus sign where it is false, and then one zero.
#[verifier::spinoff_prover]
#[verifier::rlimit(100)]
pub proof fn lemma_model_reads_back(values: Seq<bool>)
    requires
        values.len() <= Var::MAX_INDEX + 1,
    ensures
        all_v_lines(model_lines(values)),
        model_lines(values).last() == '\n',
        ({
            let words = without_v(words_of(model_lines(values)));
            &&& words.len() == values.len() + 1
            &&& forall|i: int|
                0 <= i < values.len() ==> numeral_value(#[trigger] words[i]) == listed_number(values, i) && words[i]
                    == signed(listed_number(values, i))
            &&& words.last() == seq!['0']
        }),
{
    let words = model_words(values);
    assert forall|i: int| 0 <= i < values.len() implies #[trigger] words[i] == signed(listed_number(values, i)) by {
        let l = model_literals(values)[i];
        assert(l == mk_lit(i, values[i]));
    }
    assert forall|i: int| 0 <= i < words.len() implies (#[trigger] words[i]).len() > 0 && words[i] != seq!['v'] && forall|k: int|
        0 <= k < words[i].len() ==> !separates(#[trigger] words[i][k]) by {
        let v = if i < values.len() { listed_number(values, i) } else { 0 };
        assert(words[i] == signed(v));
        lemma_numeral_reads_back(v);
        if words[i] == seq!['v'] {
            assert(signed(v)[0] == 'v');
        }
    }
    assert forall|i: int, k: int| 0 <= i < words.len() && 0 <= k < words[i].len() implies !separates(
        #[trigger] words[i][k],
    ) by {
        assert(words[i].len() > 0);
    }
    lemma_wrapped_words_read_back(words);
    lemma_wrapped_v_lines(words);
    let t = wrapped(words).text;
    assert(model_lines(values) =~= t.push('\n'));
    lemma_scan_separator(t, '\n');
    assert(words_of(model_lines(values)) == words_of(t));
    assert forall|i: int| 0 <= i < values.len() implies numeral_value(#[trigger] words[i]) == listed_number(values, i) by {
        lemma_numeral_reads_back(listed_number(values, i));
    }
    assert(words.last() == signed(0));
    assert(signed(0) =~= seq!['0']);
    let m = model_lines(values);
    assert forall|i: int| 0 <= i < m.len() - 1 && #[trigger] m[i] == '\n' implies i + 2 < m.len() && m[i + 1] == 'v'
        && m[i + 2] == ' ' by {
        assert(t[i] == '\n');
        assert(t.last() == t[t.len() - 1]);
    }
}

/// A solution is one status line, and the model where there is one and it was asked for. The status
/// line tells which of the three kinds of verdict it is.
pub proof fn lemma_solution_reads_back(outcome: Outcome, no_model: bool)
    ensures
        ({
            let t = solution(outcome, no_model);
            let status = match outcome {
                Outcome::Sat(_) => "s SATISFIABLE"@,
                Outcome::Unsat => "s UNSATISFIABLE"@,
                Outcome::Unknown(_) => "s UNKNOWN"@,
            };
            let n = status.len() + 1;
            &&& t.len() >= n
            &&& t.take(n as int) == status.push('\n')
            &&& !no_model && outcome is Sat ==> t.skip(n as int) == model_lines(outcome->Sat_0@)
            &&& no_model || !(outcome is Sat) ==> t.len() == n
        }),
{
    let t = solution(outcome, no_model);
    let status = outcome.spec_status_line();
    let n = status.len() + 1;
    assert(t.take(n as int) =~= status.push('\n'));
    match outcome {
        Outcome::Sat(m) => {
            if !no_model {
                assert(t.skip(n as int) =~= model_lines(m@));
            }
        },
        _ => {},
    }
}

/// The text has `part` at place `i`.
pub open spec fn part_at(t: Seq<char>, part: Seq<char>, i: int) -> bool {
    0 <= i && i + part.len() <= t.len() && t.subrange(i, i + part.len()) == part
}

/// What a field of an object looks like: the key between quotation marks, a colon and the value.
pub open spec fn field(key: Seq<char>, value: Seq<char>) -> Seq<char> {
    seq!['"'] + key + seq!['"', ':'] + value
}

/// The object has the field: it stands after the opening brace or a comma, and before a comma or the
/// closing brace.
pub open spec fn has_field(t: Seq<char>, key: Seq<char>, value: Seq<char>) -> bool {
    exists|i: int| #[trigger] field_at(t, key, value, i)
}

/// The field stands at place `i`.
pub open spec fn field_at(t: Seq<char>, key: Seq<char>, value: Seq<char>, i: int) -> bool {
    let end = i + field(key, value).len();
    &&& part_at(t, field(key, value), i)
    &&& 0 < i && (t[i - 1] == '{' || t[i - 1] == ',')
    &&& end < t.len() && (t[end] == ',' || t[end] == '}')
}

/// The field stands after an opening brace or a comma, and before a comma or the end of the text.
spec fn item_at(t: Seq<char>, key: Seq<char>, value: Seq<char>, i: int) -> bool {
    let end = i + field(key, value).len();
    &&& part_at(t, field(key, value), i)
    &&& 0 < i && (t[i - 1] == '{' || t[i - 1] == ',')
    &&& end < t.len() ==> t[end] == ','
}

#[verifier::opaque]
spec fn has_item(t: Seq<char>, key: Seq<char>, value: Seq<char>) -> bool {
    exists|i: int| #[trigger] item_at(t, key, value, i)
}

/// The text is empty, or starts with a comma.
spec fn goes_on(t: Seq<char>) -> bool {
    t.len() > 0 ==> t[0] == ','
}

proof fn lemma_item(key: Seq<char>, value: Seq<char>)
    ensures
        json_item(key, value) == seq![','] + field(key, value),
        has_item(json_item(key, value), key, value),
        goes_on(json_item(key, value)),
{
    reveal(has_item);
    reveal_strlit(",\"");
    reveal_strlit("\":");
    let t = json_item(key, value);
    assert(t =~= seq![','] + field(key, value));
    assert(t.subrange(1, 1 + field(key, value).len() as int) =~= field(key, value));
    assert(item_at(t, key, value, 1));
}

/// What follows an object's fields leaves them as they are.
proof fn lemma_appended(a: Seq<char>, b: Seq<char>)
    requires
        goes_on(b),
    ensures
        forall|k: Seq<char>, v: Seq<char>| has_item(a, k, v) ==> #[trigger] has_item(a + b, k, v),
        forall|k: Seq<char>, v: Seq<char>| has_item(b, k, v) ==> #[trigger] has_item(a + b, k, v),
        goes_on(a) ==> goes_on(a + b),
{
    reveal(has_item);
    let t = a + b;
    assert forall|k: Seq<char>, v: Seq<char>| has_item(a, k, v) implies #[trigger] has_item(t, k, v) by {
        let i = choose|i: int| #[trigger] item_at(a, k, v, i);
        let n = field(k, v).len() as int;
        assert(t.subrange(i, i + n) =~= a.subrange(i, i + n));
        assert(item_at(t, k, v, i));
    }
    assert forall|k: Seq<char>, v: Seq<char>| has_item(b, k, v) implies #[trigger] has_item(t, k, v) by {
        let i = choose|i: int| #[trigger] item_at(b, k, v, i);
        let n = field(k, v).len() as int;
        let j = a.len() + i;
        assert(t.subrange(j, j + n) =~= b.subrange(i, i + n));
        assert(item_at(t, k, v, j));
    }
}

/// One more field.
proof fn lemma_next(a: Seq<char>, key: Seq<char>, value: Seq<char>)
    ensures
        forall|k: Seq<char>, v: Seq<char>|
            has_item(a, k, v) ==> #[trigger] has_item(a + json_item(key, value), k, v),
        has_item(a + json_item(key, value), key, value),
        goes_on(a) ==> goes_on(a + json_item(key, value)),
{
    lemma_item(key, value);
    lemma_appended(a, json_item(key, value));
}

#[verifier::spinoff_prover]
#[verifier::rlimit(100)]
proof fn lemma_search_items(c: SearchCounters, fig: Figures)
    ensures
        goes_on(json_search(c, fig)),
        has_item(json_search(c, fig), "nodes"@, decimal(c.nodes as nat)),
        has_item(json_search(c, fig), "decisions"@, decimal(c.decisions as nat)),
        has_item(json_search(c, fig), "conflicts"@, decimal(c.conflicts as nat)),
        has_item(json_search(c, fig), "propagations"@, decimal(c.propagations as nat)),
        has_item(json_search(c, fig), "components"@, decimal(c.components as nat)),
        has_item(json_search(c, fig), "max_depth"@, decimal(c.max_depth as nat)),
        has_item(json_search(c, fig), "cache_lookups"@, decimal(c.cache.lookups as nat)),
        has_item(json_search(c, fig), "cache_hits"@, decimal(c.cache.hits as nat)),
        has_item(json_search(c, fig), "cache_hit_rate"@, fig.hit_rate@),
        has_item(json_search(c, fig), "cache_entries"@, decimal(c.table.entries as nat)),
        has_item(json_search(c, fig), "cache_evicted"@, decimal(c.cache.evicted as nat)),
        has_item(json_search(c, fig), "table_buckets"@, decimal(c.table.buckets as nat)),
        has_item(json_search(c, fig), "table_max_bucket"@, decimal(c.table.max_bucket as nat)),
        has_item(json_search(c, fig), "table_max_depth"@, decimal(c.table.max_depth as nat)),
        has_item(json_search(c, fig), "table_mean_depth"@, fig.mean_depth_fine@),
        has_item(json_search(c, fig), "cache_bytes"@, decimal(c.cache_bytes as nat)),
{
    let t = json_item("nodes"@, decimal(c.nodes as nat));
    lemma_item("nodes"@, decimal(c.nodes as nat));
    lemma_next(t, "decisions"@, decimal(c.decisions as nat));
    let t = t + json_item("decisions"@, decimal(c.decisions as nat));
    lemma_next(t, "conflicts"@, decimal(c.conflicts as nat));
    let t = t + json_item("conflicts"@, decimal(c.conflicts as nat));
    lemma_next(t, "propagations"@, decimal(c.propagations as nat));
    let t = t + json_item("propagations"@, decimal(c.propagations as nat));
    lemma_next(t, "components"@, decimal(c.components as nat));
    let t = t + json_item("components"@, decimal(c.components as nat));
    lemma_next(t, "max_depth"@, decimal(c.max_depth as nat));
    let t = t + json_item("max_depth"@, decimal(c.max_depth as nat));
    lemma_next(t, "cache_lookups"@, decimal(c.cache.lookups as nat));
    let t = t + json_item("cache_lookups"@, decimal(c.cache.lookups as nat));
    lemma_next(t, "cache_hits"@, decimal(c.cache.hits as nat));
    let t = t + json_item("cache_hits"@, decimal(c.cache.hits as nat));
    lemma_next(t, "cache_hit_rate"@, fig.hit_rate@);
    let t = t + json_item("cache_hit_rate"@, fig.hit_rate@);
    lemma_next(t, "cache_entries"@, decimal(c.table.entries as nat));
    let t = t + json_item("cache_entries"@, decimal(c.table.entries as nat));
    lemma_next(t, "cache_evicted"@, decimal(c.cache.evicted as nat));
    let t = t + json_item("cache_evicted"@, decimal(c.cache.evicted as nat));
    lemma_next(t, "table_buckets"@, decimal(c.table.buckets as nat));
    let t = t + json_item("table_buckets"@, decimal(c.table.buckets as nat));
    lemma_next(t, "table_max_bucket"@, decimal(c.table.max_bucket as nat));
    let t = t + json_item("table_max_bucket"@, decimal(c.table.max_bucket as nat));
    lemma_next(t, "table_max_depth"@, decimal(c.table.max_depth as nat));
    let t = t + json_item("table_max_depth"@, decimal(c.table.max_depth as nat));
    lemma_next(t, "table_mean_depth"@, fig.mean_depth_fine@);
    let t = t + json_item("table_mean_depth"@, fig.mean_depth_fine@);
    lemma_next(t, "cache_bytes"@, decimal(c.cache_bytes as nat));
    let t = t + json_item("cache_bytes"@, decimal(c.cache_bytes as nat));
    assert(t == json_search(c, fig));
}

proof fn lemma_preprocess_items(p: PreprocessStats)
    ensures
        goes_on(json_preprocess(p)),
        has_item(json_preprocess(p), "pre_clauses_after"@, decimal(p.clauses_after as nat)),
        has_item(json_preprocess(p), "pre_vars_eliminated"@, decimal(p.vars_eliminated as nat)),
{
    let t = json_item("pre_clauses_after"@, decimal(p.clauses_after as nat));
    lemma_item("pre_clauses_after"@, decimal(p.clauses_after as nat));
    lemma_next(t, "pre_vars_eliminated"@, decimal(p.vars_eliminated as nat));
    let t = t + json_item("pre_vars_eliminated"@, decimal(p.vars_eliminated as nat));
    assert(t == json_preprocess(p));
}

proof fn lemma_dp_items(d: DpStats)
    ensures
        goes_on(json_dp(d)),
        has_item(json_dp(d), "dp_eliminated"@, decimal(d.eliminated as nat)),
        has_item(json_dp(d), "dp_resolvents"@, decimal(d.resolvents as nat)),
        has_item(json_dp(d), "dp_peak_clauses"@, decimal(d.peak_clauses as nat)),
{
    let t = json_item("dp_eliminated"@, decimal(d.eliminated as nat));
    lemma_item("dp_eliminated"@, decimal(d.eliminated as nat));
    lemma_next(t, "dp_resolvents"@, decimal(d.resolvents as nat));
    let t = t + json_item("dp_resolvents"@, decimal(d.resolvents as nat));
    lemma_next(t, "dp_peak_clauses"@, decimal(d.peak_clauses as nat));
    let t = t + json_item("dp_peak_clauses"@, decimal(d.peak_clauses as nat));
    assert(t == json_dp(d));
}

/// A text between quotation marks.
pub open spec fn in_quotes(t: Seq<char>) -> Seq<char> {
    seq!['"'] + t + seq!['"']
}

/// The status that a report for harnesses gives.
pub open spec fn status_of(o: Outcome) -> Seq<char> {
    match o {
        Outcome::Sat(_) => seq!['S', 'A', 'T'],
        Outcome::Unsat => seq!['U', 'N', 'S', 'A', 'T'],
        Outcome::Unknown(_) => seq!['U', 'N', 'K', 'N', 'O', 'W', 'N'],
    }
}

/// The start of the object, up to the status.
proof fn lemma_status_item(o: Outcome)
    ensures
        ({
            let t = "{\"status\":"@ + quoted(verdict_word(o));
            &&& t.len() == 1 + field("status"@, in_quotes(status_of(o))).len()
            &&& t[0] == '{'
            &&& item_at(t, "status"@, in_quotes(status_of(o)), 1)
        }),
{
    reveal_strlit("{\"status\":");
    reveal_strlit("status");
    reveal_strlit("\"");
    reveal_strlit("SAT");
    reveal_strlit("UNSAT");
    reveal_strlit("UNKNOWN");
    let word = verdict_word(o);
    assert(word =~= status_of(o));
    let t = "{\"status\":"@ + quoted(word);
    let f = field("status"@, in_quotes(word));
    assert(quoted(word) =~= in_quotes(word));
    assert(t =~= seq!['{'] + f);
    assert(t.subrange(1, 1 + f.len() as int) =~= f);
}

proof fn lemma_quoted(t: Seq<char>)
    ensures
        quoted(t) == in_quotes(t),
{
    reveal_strlit("\"");
    assert(quoted(t) =~= in_quotes(t));
}

/// What stands at a place of a text stands there when it goes on with a comma.
proof fn lemma_item_stays(a: Seq<char>, b: Seq<char>, key: Seq<char>, value: Seq<char>, i: int)
    requires
        item_at(a, key, value, i),
        goes_on(b),
    ensures
        item_at(a + b, key, value, i),
{
    let n = field(key, value).len() as int;
    assert((a + b).subrange(i, i + n) =~= a.subrange(i, i + n));
}

#[verifier::spinoff_prover]
#[verifier::rlimit(100)]
proof fn lemma_head_items(r: SolveResult, o: Options, fig: Figures)
    ensures
        json_head(r, o, fig).len() > 0,
        json_head(r, o, fig)[0] == '{',
        item_at(json_head(r, o, fig), "status"@, in_quotes(status_of(r.outcome)), 1),
        has_item(json_head(r, o, fig), "algorithm"@, in_quotes(r.stats.algorithm.spec_name())),
        has_item(json_head(r, o, fig), "bucket"@, in_quotes(o.bucket.spec_name())),
        has_item(json_head(r, o, fig), "heuristic"@, in_quotes(o.heuristic.spec_name())),
        has_item(json_head(r, o, fig), "cache"@, if o.no_cache { "false"@ } else { "true"@ }),
        has_item(json_head(r, o, fig), "elapsed_s"@, fig.seconds_fine@),
        has_item(json_head(r, o, fig), "input_vars"@, decimal(r.stats.input_vars as nat)),
        has_item(json_head(r, o, fig), "input_clauses"@, decimal(r.stats.input_clauses as nat)),
{
    let status = in_quotes(status_of(r.outcome));
    lemma_status_item(r.outcome);
    lemma_quoted(r.stats.algorithm.spec_name());
    lemma_quoted(o.bucket.spec_name());
    lemma_quoted(o.heuristic.spec_name());
    let t = "{\"status\":"@ + quoted(verdict_word(r.outcome));
    let v = in_quotes(r.stats.algorithm.spec_name());
    lemma_next(t, "algorithm"@, v);
    lemma_item("algorithm"@, v);
    lemma_item_stays(t, json_item("algorithm"@, v), "status"@, status, 1);
    let t = t + json_item("algorithm"@, v);
    assert(t[0] == '{');
    let v = in_quotes(o.bucket.spec_name());
    lemma_next(t, "bucket"@, v);
    lemma_item("bucket"@, v);
    lemma_item_stays(t, json_item("bucket"@, v), "status"@, status, 1);
    let t = t + json_item("bucket"@, v);
    assert(t[0] == '{');
    let v = in_quotes(o.heuristic.spec_name());
    lemma_next(t, "heuristic"@, v);
    lemma_item("heuristic"@, v);
    lemma_item_stays(t, json_item("heuristic"@, v), "status"@, status, 1);
    let t = t + json_item("heuristic"@, v);
    assert(t[0] == '{');
    let v = if o.no_cache { "false"@ } else { "true"@ };
    lemma_next(t, "cache"@, v);
    lemma_item("cache"@, v);
    lemma_item_stays(t, json_item("cache"@, v), "status"@, status, 1);
    let t = t + json_item("cache"@, v);
    assert(t[0] == '{');
    let v = fig.seconds_fine@;
    lemma_next(t, "elapsed_s"@, v);
    lemma_item("elapsed_s"@, v);
    lemma_item_stays(t, json_item("elapsed_s"@, v), "status"@, status, 1);
    let t = t + json_item("elapsed_s"@, v);
    assert(t[0] == '{');
    let v = decimal(r.stats.input_vars as nat);
    lemma_next(t, "input_vars"@, v);
    lemma_item("input_vars"@, v);
    lemma_item_stays(t, json_item("input_vars"@, v), "status"@, status, 1);
    let t = t + json_item("input_vars"@, v);
    assert(t[0] == '{');
    let v = decimal(r.stats.input_clauses as nat);
    lemma_next(t, "input_clauses"@, v);
    lemma_item("input_clauses"@, v);
    lemma_item_stays(t, json_item("input_clauses"@, v), "status"@, status, 1);
    let t = t + json_item("input_clauses"@, v);
    assert(t[0] == '{');
    assert(t == json_head(r, o, fig));
}

/// A field of any part of an object is a field of the object.
proof fn lemma_object(head: Seq<char>, pre: Seq<char>, search: Seq<char>, dp: Seq<char>, status: Seq<char>)
    requires
        goes_on(pre),
        goes_on(search),
        goes_on(dp),
        head.len() > 0,
        item_at(head, "status"@, status, 1),
    ensures
        ({
            let t = head + pre + search + dp + "}"@;
            &&& t[0] == head[0]
            &&& t.last() == '}'
            &&& field_at(t, "status"@, status, 1)
            &&& forall|k: Seq<char>, v: Seq<char>| has_item(head, k, v) ==> #[trigger] has_field(t, k, v)
            &&& forall|k: Seq<char>, v: Seq<char>| has_item(pre, k, v) ==> #[trigger] has_field(t, k, v)
            &&& forall|k: Seq<char>, v: Seq<char>| has_item(search, k, v) ==> #[trigger] has_field(t, k, v)
            &&& forall|k: Seq<char>, v: Seq<char>| has_item(dp, k, v) ==> #[trigger] has_field(t, k, v)
        }),
{
    lemma_appended(head, pre);
    lemma_appended(head + pre, search);
    lemma_appended(head + pre + search, dp);
    lemma_item_stays(head, pre, "status"@, status, 1);
    lemma_item_stays(head + pre, search, "status"@, status, 1);
    lemma_item_stays(head + pre + search, dp, "status"@, status, 1);
    lemma_closed(head + pre + search + dp, "status"@, status);
}

/// The closing brace ends the last field.
proof fn lemma_closed(body: Seq<char>, key: Seq<char>, value: Seq<char>)
    ensures
        (body + "}"@).last() == '}',
        body.len() > 0 ==> (body + "}"@)[0] == body[0],
        item_at(body, key, value, 1) ==> field_at(body + "}"@, key, value, 1),
        forall|k: Seq<char>, v: Seq<char>| has_item(body, k, v) ==> #[trigger] has_field(body + "}"@, k, v),
{
    reveal(has_item);
    reveal_strlit("}");
    let t = body + "}"@;
    assert forall|k: Seq<char>, v: Seq<char>, i: int| #[trigger] item_at(body, k, v, i) implies field_at(t, k, v, i) by {
        let n = field(k, v).len() as int;
        assert(t.subrange(i, i + n) =~= body.subrange(i, i + n));
    }
    assert forall|k: Seq<char>, v: Seq<char>| has_item(body, k, v) implies #[trigger] has_field(t, k, v) by {
        let i = choose|i: int| #[trigger] item_at(body, k, v, i);
        assert(field_at(t, k, v, i));
    }
}

/// The report for harnesses begins with the status: `SAT`, `UNSAT`, or `UNKNOWN` where the run gave up.
/// It is an object that has a field for everything that was measured, under its name and with its
/// value, and a switch for the memo that says whether it was on.
#[verifier::spinoff_prover]
#[verifier::rlimit(100)]
pub proof fn lemma_json_reads_back(r: SolveResult, o: Options, fig: Figures)
    ensures
        json_object(r, o, fig)[0] == '{',
        json_object(r, o, fig).last() == '}',
        field_at(json_object(r, o, fig), "status"@, in_quotes(status_of(r.outcome)), 1),
        has_field(json_object(r, o, fig), "algorithm"@, in_quotes(r.stats.algorithm.spec_name())),
        has_field(json_object(r, o, fig), "bucket"@, in_quotes(o.bucket.spec_name())),
        has_field(json_object(r, o, fig), "heuristic"@, in_quotes(o.heuristic.spec_name())),
        has_field(json_object(r, o, fig), "cache"@, if o.no_cache { "false"@ } else { "true"@ }),
        has_field(json_object(r, o, fig), "elapsed_s"@, fig.seconds_fine@),
        has_field(json_object(r, o, fig), "input_vars"@, decimal(r.stats.input_vars as nat)),
        has_field(json_object(r, o, fig), "input_clauses"@, decimal(r.stats.input_clauses as nat)),
        r.stats.preprocess matches Some(p) ==> {
            &&& has_field(json_object(r, o, fig), "pre_clauses_after"@, decimal(p.clauses_after as nat))
            &&& has_field(json_object(r, o, fig), "pre_vars_eliminated"@, decimal(p.vars_eliminated as nat))
        },
        r.stats.search matches Some(c) ==> {
            &&& has_field(json_object(r, o, fig), "nodes"@, decimal(c.nodes as nat))
            &&& has_field(json_object(r, o, fig), "decisions"@, decimal(c.decisions as nat))
            &&& has_field(json_object(r, o, fig), "conflicts"@, decimal(c.conflicts as nat))
            &&& has_field(json_object(r, o, fig), "propagations"@, decimal(c.propagations as nat))
            &&& has_field(json_object(r, o, fig), "components"@, decimal(c.components as nat))
            &&& has_field(json_object(r, o, fig), "max_depth"@, decimal(c.max_depth as nat))
            &&& has_field(json_object(r, o, fig), "cache_lookups"@, decimal(c.cache.lookups as nat))
            &&& has_field(json_object(r, o, fig), "cache_hits"@, decimal(c.cache.hits as nat))
            &&& has_field(json_object(r, o, fig), "cache_hit_rate"@, fig.hit_rate@)
            &&& has_field(json_object(r, o, fig), "cache_entries"@, decimal(c.table.entries as nat))
            &&& has_field(json_object(r, o, fig), "cache_evicted"@, decimal(c.cache.evicted as nat))
            &&& has_field(json_object(r, o, fig), "table_buckets"@, decimal(c.table.buckets as nat))
            &&& has_field(json_object(r, o, fig), "table_max_bucket"@, decimal(c.table.max_bucket as nat))
            &&& has_field(json_object(r, o, fig), "table_max_depth"@, decimal(c.table.max_depth as nat))
            &&& has_field(json_object(r, o, fig), "table_mean_depth"@, fig.mean_depth_fine@)
            &&& has_field(json_object(r, o, fig), "cache_bytes"@, decimal(c.cache_bytes as nat))
        },
        r.stats.dp matches Some(d) ==> {
            &&& has_field(json_object(r, o, fig), "dp_eliminated"@, decimal(d.eliminated as nat))
            &&& has_field(json_object(r, o, fig), "dp_resolvents"@, decimal(d.resolvents as nat))
            &&& has_field(json_object(r, o, fig), "dp_peak_clauses"@, decimal(d.peak_clauses as nat))
        },
{
    lemma_head_items(r, o, fig);
    let head = json_head(r, o, fig);
    let pre = match r.stats.preprocess {
        Some(p) => json_preprocess(p),
        None => Seq::empty(),
    };
    let search = match r.stats.search {
        Some(c) => json_search(c, fig),
        None => Seq::empty(),
    };
    let dp = match r.stats.dp {
        Some(d) => json_dp(d),
        None => Seq::empty(),
    };
    if let Some(p) = r.stats.preprocess {
        lemma_preprocess_items(p);
    }
    if let Some(c) = r.stats.search {
        lemma_search_items(c, fig);
    }
    if let Some(d) = r.stats.dp {
        lemma_dp_items(d);
    }
    lemma_object(head, pre, search, dp, in_quotes(status_of(r.outcome)));
    assert(json_object(r, o, fig) == head + pre + search + dp + "}"@);
}

/// Two reports begin with the same status only where the verdicts are of one kind, and the status
/// agrees with the status line of the solution.
#[verifier::spinoff_prover]
#[verifier::rlimit(100)]
pub proof fn lemma_status_tells_verdicts_apart(
    r: SolveResult,
    q: SolveResult,
    o: Options,
    fig: Figures,
    a: Seq<char>,
    b: Seq<char>,
)
    requires
        field_at(json_object(r, o, fig), "status"@, in_quotes(a), 1),
        field_at(json_object(q, o, fig), "status"@, in_quotes(b), 1),
        forall|i: int| 0 <= i < a.len() ==> #[trigger] a[i] != '"',
        forall|i: int| 0 <= i < b.len() ==> #[trigger] b[i] != '"',
    ensures
        a == b <==> (r.outcome is Sat == q.outcome is Sat && r.outcome is Unsat == q.outcome is Unsat),
        a == b <==> r.outcome.spec_status_line() == q.outcome.spec_status_line(),
        a == seq!['S', 'A', 'T'] <==> r.outcome is Sat,
        a == seq!['U', 'N', 'S', 'A', 'T'] <==> r.outcome is Unsat,
        a == seq!['U', 'N', 'K', 'N', 'O', 'W', 'N'] <==> r.outcome is Unknown,
{
    lemma_status_read(r, o, fig, a);
    lemma_status_read(q, o, fig, b);
    crate::solver::lemma_exit_codes_tell_verdicts_apart(r.outcome, q.outcome);
    lemma_statuses(r.outcome, q.outcome);
}

proof fn lemma_status_read(r: SolveResult, o: Options, fig: Figures, a: Seq<char>)
    requires
        field_at(json_object(r, o, fig), "status"@, in_quotes(a), 1),
        forall|i: int| 0 <= i < a.len() ==> #[trigger] a[i] != '"',
    ensures
        a == status_of(r.outcome),
{
    lemma_json_reads_back(r, o, fig);
    lemma_one_quoted(json_object(r, o, fig), "status"@, a, status_of(r.outcome));
}

proof fn lemma_statuses(a: Outcome, b: Outcome)
    ensures
        status_of(a) == status_of(b) <==> (a is Sat == b is Sat && a is Unsat == b is Unsat),
        status_of(a) == seq!['S', 'A', 'T'] <==> a is Sat,
        status_of(a) == seq!['U', 'N', 'S', 'A', 'T'] <==> a is Unsat,
        status_of(a) == seq!['U', 'N', 'K', 'N', 'O', 'W', 'N'] <==> a is Unknown,
{
    let (s, u, n) = (seq!['S', 'A', 'T'], seq!['U', 'N', 'S', 'A', 'T'], seq!['U', 'N', 'K', 'N', 'O', 'W', 'N']);
    assert(s.len() == 3 && u.len() == 5 && n.len() == 7);
}

/// A quoted text ends at the first quotation mark.
proof fn lemma_one_quoted(t: Seq<char>, key: Seq<char>, a: Seq<char>, b: Seq<char>)
    requires
        field_at(t, key, in_quotes(a), 1),
        field_at(t, key, in_quotes(b), 1),
        forall|i: int| 0 <= i < a.len() ==> #[trigger] a[i] != '"',
        forall|i: int| 0 <= i < b.len() ==> #[trigger] b[i] != '"',
    ensures
        a == b,
{
    let (f, g) = (field(key, in_quotes(a)), field(key, in_quotes(b)));
    let k: int = key.len() as int + 4;
    assert forall|i: int| 0 <= i < f.len() implies #[trigger] t[1 + i] == f[i] by {
        assert(t.subrange(1, 1 + f.len() as int)[i] == f[i]);
    }
    assert forall|i: int| 0 <= i < g.len() implies #[trigger] t[1 + i] == g[i] by {
        assert(t.subrange(1, 1 + g.len() as int)[i] == g[i]);
    }
    assert forall|i: int| 0 <= i < a.len() implies f[k + i] == #[trigger] a[i] by {}
    assert forall|i: int| 0 <= i < b.len() implies g[k + i] == #[trigger] b[i] by {}
    assert(f[k + a.len()] == '"');
    assert(g[k + b.len()] == '"');
    if a.len() < b.len() {
        assert(t[1 + k + a.len()] == f[k + a.len()]);
        assert(t[1 + k + a.len()] == g[k + a.len()]);
        assert(b[a.len() as int] != '"');
    }
    if b.len() < a.len() {
        assert(t[1 + k + b.len()] == g[k + b.len()]);
        assert(t[1 + k + b.len()] == f[k + b.len()]);
        assert(a[b.len() as int] != '"');
    }
    assert forall|i: int| 0 <= i < a.len() implies a[i] == b[i] by {
        assert(t[1 + k + i] == f[k + i]);
        assert(t[1 + k + i] == g[k + i]);
    }
    assert(a =~= b);
}

/// The text has the line.
#[verifier::opaque]
pub open spec fn has_line(t: Seq<char>, line: Seq<char>) -> bool {
    exists|i: int| #[trigger] line_at(t, line, i)
}

/// The line stands at place `i`, between line breaks or the start of the text.
pub open spec fn line_at(t: Seq<char>, line: Seq<char>, i: int) -> bool {
    let end = i + line.len();
    &&& part_at(t, line, i)
    &&& i == 0 || t[i - 1] == '\n'
    &&& end < t.len() && t[end] == '\n'
}

/// The text is made of whole lines.
pub open spec fn whole_lines(t: Seq<char>) -> bool {
    t.len() > 0 ==> t.last() == '\n'
}

proof fn lemma_line(line: Seq<char>)
    ensures
        has_line(line + "\n"@, line),
        whole_lines(line + "\n"@),
{
    reveal(has_line);
    reveal_strlit("\n");
    let t = line + "\n"@;
    assert(t.subrange(0, line.len() as int) =~= line);
    assert(line_at(t, line, 0));
}

proof fn lemma_tail(a: Seq<char>, tail: Seq<char>, ended: Seq<char>)
    requires
        ended == tail + "\n"@,
    ensures
        has_line(a + ended, a + tail),
        whole_lines(a + ended),
{
    lemma_line(a + tail);
    assert(a + ended =~= a + tail + "\n"@);
}

proof fn lemma_lines_added(a: Seq<char>, b: Seq<char>)
    requires
        whole_lines(a),
    ensures
        forall|l: Seq<char>| has_line(a, l) ==> #[trigger] has_line(a + b, l),
        forall|l: Seq<char>| has_line(b, l) ==> #[trigger] has_line(a + b, l),
        whole_lines(b) ==> whole_lines(a + b),
{
    reveal(has_line);
    let t = a + b;
    assert forall|l: Seq<char>| has_line(a, l) implies #[trigger] has_line(t, l) by {
        let i = choose|i: int| #[trigger] line_at(a, l, i);
        assert(t.subrange(i, i + l.len()) =~= a.subrange(i, i + l.len()));
        assert(line_at(t, l, i));
    }
    assert forall|l: Seq<char>| has_line(b, l) implies #[trigger] has_line(t, l) by {
        let i = choose|i: int| #[trigger] line_at(b, l, i);
        let j = a.len() + i;
        assert(t.subrange(j, j + l.len()) =~= b.subrange(i, i + l.len()));
        if i == 0 && j > 0 {
            assert(t[j - 1] == a.last());
        }
        assert(line_at(t, l, j));
    }
}

proof fn lemma_search_lines(c: SearchCounters, fig: Figures)
    ensures
        whole_lines(search_lines(c, fig)),
        has_line(search_lines(c, fig), "c search nodes         : "@ + decimal(c.nodes as nat)),
        has_line(search_lines(c, fig), "c decisions            : "@ + decimal(c.decisions as nat)),
        has_line(search_lines(c, fig), "c conflicts            : "@ + decimal(c.conflicts as nat)),
        has_line(search_lines(c, fig), "c propagations         : "@ + decimal(c.propagations as nat)),
        has_line(search_lines(c, fig), "c components           : "@ + decimal(c.components as nat)),
        has_line(search_lines(c, fig), "c pure literals        : "@ + decimal(c.pure_literals as nat)),
        has_line(search_lines(c, fig), "c learned clauses      : "@ + decimal(c.learned as nat) + " kept, "@ + decimal(c.discarded as nat) + " too long ("@ + decimal(c.learned_literals as nat) + " literals, "@ + fig.learned_mean@ + " mean)"@),
        has_line(search_lines(c, fig), "c backjumps            : "@ + decimal(c.backjumps as nat) + " ("@ + decimal(c.levels_skipped as nat) + " decision levels skipped)"@),
        has_line(search_lines(c, fig), "c max depth            : "@ + decimal(c.max_depth as nat)),
{
    reveal_strlit("\n");
    reveal_strlit(" mean)");
    reveal_strlit(" mean)\n");
    assert(" mean)\n"@ =~= " mean)"@ + "\n"@);
    reveal_strlit(" decision levels skipped)");
    reveal_strlit(" decision levels skipped)\n");
    assert(" decision levels skipped)\n"@ =~= " decision levels skipped)"@ + "\n"@);
    lemma_line("c search nodes         : "@ + decimal(c.nodes as nat));
    lemma_line("c decisions            : "@ + decimal(c.decisions as nat));
    lemma_line("c conflicts            : "@ + decimal(c.conflicts as nat));
    lemma_line("c propagations         : "@ + decimal(c.propagations as nat));
    lemma_line("c components           : "@ + decimal(c.components as nat));
    lemma_line("c pure literals        : "@ + decimal(c.pure_literals as nat));
    lemma_tail("c learned clauses      : "@ + decimal(c.learned as nat) + " kept, "@ + decimal(c.discarded as nat) + " too long ("@ + decimal(c.learned_literals as nat) + " literals, "@ + fig.learned_mean@, " mean)"@, " mean)\n"@);
    lemma_tail("c backjumps            : "@ + decimal(c.backjumps as nat) + " ("@ + decimal(c.levels_skipped as nat), " decision levels skipped)"@, " decision levels skipped)\n"@);
    lemma_line("c max depth            : "@ + decimal(c.max_depth as nat));
    let t = num_line("c search nodes         : "@, c.nodes as nat);
    let n = num_line("c decisions            : "@, c.decisions as nat);
    lemma_lines_added(t, n);
    let t = t + n;
    let n = num_line("c conflicts            : "@, c.conflicts as nat);
    lemma_lines_added(t, n);
    let t = t + n;
    let n = num_line("c propagations         : "@, c.propagations as nat);
    lemma_lines_added(t, n);
    let t = t + n;
    let n = num_line("c components           : "@, c.components as nat);
    lemma_lines_added(t, n);
    let t = t + n;
    let n = num_line("c pure literals        : "@, c.pure_literals as nat);
    lemma_lines_added(t, n);
    let t = t + n;
    let n = ("c learned clauses      : "@ + decimal(c.learned as nat) + " kept, "@ + decimal(c.discarded as nat) + " too long ("@ + decimal(c.learned_literals as nat) + " literals, "@ + fig.learned_mean@ + " mean)\n"@);
    lemma_lines_added(t, n);
    let t = t + n;
    let n = ("c backjumps            : "@ + decimal(c.backjumps as nat) + " ("@ + decimal(c.levels_skipped as nat) + " decision levels skipped)\n"@);
    lemma_lines_added(t, n);
    let t = t + n;
    let n = num_line("c max depth            : "@, c.max_depth as nat);
    lemma_lines_added(t, n);
    let t = t + n;
    assert(t == search_lines(c, fig));
}

proof fn lemma_memo_lines(c: SearchCounters, fig: Figures)
    ensures
        whole_lines(memo_lines(c, fig)),
        has_line(memo_lines(c, fig), "c memo                 : "@ + decimal(c.cache.lookups as nat) + " lookups, "@ + decimal(c.cache.hits as nat) + " hits ("@ + fig.hit_percent@ + "%), "@ + decimal(c.table.entries as nat) + " entries"@),
        has_line(memo_lines(c, fig), "c memo maintenance     : "@ + decimal(c.cache.inserts as nat) + " inserts, "@ + decimal(c.cache.evicted as nat) + " evicted, "@ + decimal(c.cache.sweeps as nat) + " sweeps, "@ + decimal(c.cache.resizes as nat) + " resizes"@),
        has_line(memo_lines(c, fig), "c memo table           : "@ + decimal(c.table.buckets as nat) + " buckets, "@ + decimal(c.table.occupied as nat) + " occupied, max bucket "@ + decimal(c.table.max_bucket as nat) + ", max depth "@ + decimal(c.table.max_depth as nat) + ", mean depth "@ + fig.mean_depth@),
        has_line(memo_lines(c, fig), "c memo memory          : "@ + fig.memory_mib@ + " MiB"@),
{
    reveal_strlit("\n");
    reveal_strlit(" entries");
    reveal_strlit(" entries\n");
    assert(" entries\n"@ =~= " entries"@ + "\n"@);
    reveal_strlit(" resizes");
    reveal_strlit(" resizes\n");
    assert(" resizes\n"@ =~= " resizes"@ + "\n"@);
    reveal_strlit(" MiB");
    reveal_strlit(" MiB\n");
    assert(" MiB\n"@ =~= " MiB"@ + "\n"@);
    lemma_tail("c memo                 : "@ + decimal(c.cache.lookups as nat) + " lookups, "@ + decimal(c.cache.hits as nat) + " hits ("@ + fig.hit_percent@ + "%), "@ + decimal(c.table.entries as nat), " entries"@, " entries\n"@);
    lemma_tail("c memo maintenance     : "@ + decimal(c.cache.inserts as nat) + " inserts, "@ + decimal(c.cache.evicted as nat) + " evicted, "@ + decimal(c.cache.sweeps as nat) + " sweeps, "@ + decimal(c.cache.resizes as nat), " resizes"@, " resizes\n"@);
    lemma_line("c memo table           : "@ + decimal(c.table.buckets as nat) + " buckets, "@ + decimal(c.table.occupied as nat) + " occupied, max bucket "@ + decimal(c.table.max_bucket as nat) + ", max depth "@ + decimal(c.table.max_depth as nat) + ", mean depth "@ + fig.mean_depth@);
    lemma_tail("c memo memory          : "@ + fig.memory_mib@, " MiB"@, " MiB\n"@);
    let t = ("c memo                 : "@ + decimal(c.cache.lookups as nat) + " lookups, "@ + decimal(c.cache.hits as nat) + " hits ("@ + fig.hit_percent@ + "%), "@ + decimal(c.table.entries as nat) + " entries\n"@);
    let n = ("c memo maintenance     : "@ + decimal(c.cache.inserts as nat) + " inserts, "@ + decimal(c.cache.evicted as nat) + " evicted, "@ + decimal(c.cache.sweeps as nat) + " sweeps, "@ + decimal(c.cache.resizes as nat) + " resizes\n"@);
    lemma_lines_added(t, n);
    let t = t + n;
    let n = ("c memo table           : "@ + decimal(c.table.buckets as nat) + " buckets, "@ + decimal(c.table.occupied as nat) + " occupied, max bucket "@ + decimal(c.table.max_bucket as nat) + ", max depth "@ + decimal(c.table.max_depth as nat) + ", mean depth "@ + fig.mean_depth@ + "\n"@);
    lemma_lines_added(t, n);
    let t = t + n;
    let n = ("c memo memory          : "@ + fig.memory_mib@ + " MiB\n"@);
    lemma_lines_added(t, n);
    let t = t + n;
    assert(t == memo_lines(c, fig));
}

proof fn lemma_dp_lines(d: DpStats)
    ensures
        whole_lines(dp_lines(d)),
        has_line(dp_lines(d), "c variables eliminated : "@ + decimal(d.eliminated as nat)),
        has_line(dp_lines(d), "c resolvents           : "@ + decimal(d.resolvents as nat)),
        has_line(dp_lines(d), "c peak clauses         : "@ + decimal(d.peak_clauses as nat)),
{
    reveal_strlit("\n");
    lemma_line("c variables eliminated : "@ + decimal(d.eliminated as nat));
    lemma_line("c resolvents           : "@ + decimal(d.resolvents as nat));
    lemma_line("c peak clauses         : "@ + decimal(d.peak_clauses as nat));
    let t = num_line("c variables eliminated : "@, d.eliminated as nat);
    let n = num_line("c resolvents           : "@, d.resolvents as nat);
    lemma_lines_added(t, n);
    let t = t + n;
    let n = num_line("c peak clauses         : "@, d.peak_clauses as nat);
    lemma_lines_added(t, n);
    let t = t + n;
    assert(t == dp_lines(d));
}

proof fn lemma_preprocess_lines(p: PreprocessStats)
    ensures
        whole_lines(preprocess_lines(p)),
        has_line(preprocess_lines(p), "c preprocessing        : "@ + decimal(p.clauses_before as nat) + " -> "@ + decimal(p.clauses_after as nat) + " clauses ("@ + decimal(p.duplicates_removed as nat) + " dup, "@ + decimal(p.units_fixed as nat) + " unit, "@ + decimal(p.pure_fixed as nat) + " pure, "@ + decimal(p.vars_eliminated as nat) + " eliminated)"@),
{
    reveal_strlit("\n");
    reveal_strlit(" eliminated)");
    reveal_strlit(" eliminated)\n");
    assert(" eliminated)\n"@ =~= " eliminated)"@ + "\n"@);
    lemma_tail("c preprocessing        : "@ + decimal(p.clauses_before as nat) + " -> "@ + decimal(p.clauses_after as nat) + " clauses ("@ + decimal(p.duplicates_removed as nat) + " dup, "@ + decimal(p.units_fixed as nat) + " unit, "@ + decimal(p.pure_fixed as nat) + " pure, "@ + decimal(p.vars_eliminated as nat), " eliminated)"@, " eliminated)\n"@);
    let t = ("c preprocessing        : "@ + decimal(p.clauses_before as nat) + " -> "@ + decimal(p.clauses_after as nat) + " clauses ("@ + decimal(p.duplicates_removed as nat) + " dup, "@ + decimal(p.units_fixed as nat) + " unit, "@ + decimal(p.pure_fixed as nat) + " pure, "@ + decimal(p.vars_eliminated as nat) + " eliminated)\n"@);
    assert(t == preprocess_lines(p));
}

proof fn lemma_head_lines(s: SolveStats)
    ensures
        whole_lines(head_lines(s)),
        has_line(head_lines(s), "c algorithm            : "@ + s.algorithm.spec_name()),
        s.bucket matches Some(b) ==> has_line(head_lines(s), "c bucket policy        : "@ + b.spec_name()),
        has_line(head_lines(s), "c input                : "@ + decimal(s.input_vars as nat) + " vars, "@ + decimal(s.input_clauses as nat) + " clauses"@),
{
    reveal_strlit("\n");
    reveal_strlit(" clauses");
    reveal_strlit(" clauses\n");
    assert(" clauses\n"@ =~= " clauses"@ + "\n"@);
    lemma_tail("c input                : "@ + decimal(s.input_vars as nat) + " vars, "@ + decimal(s.input_clauses as nat), " clauses"@, " clauses\n"@);
    let t = text_line("c algorithm            : "@, s.algorithm.spec_name());
    lemma_line("c algorithm            : "@ + s.algorithm.spec_name());
    let b = match s.bucket {
        Some(b) => text_line("c bucket policy        : "@, b.spec_name()),
        None => Seq::empty(),
    };
    if let Some(k) = s.bucket {
        lemma_line("c bucket policy        : "@ + k.spec_name());
    }
    lemma_lines_added(t, b);
    let n = ("c input                : "@ + decimal(s.input_vars as nat) + " vars, "@ + decimal(s.input_clauses as nat) + " clauses\n"@);
    lemma_lines_added(t + b, n);
    assert(t + b + n == head_lines(s));
}

/// The report for people has a line for everything that was measured, with its label and its value.
#[verifier::spinoff_prover]
#[verifier::rlimit(100)]
pub proof fn lemma_report_reads_back(s: SolveStats, fig: Figures)
    ensures
        has_line(stats_lines(s, fig), "c algorithm            : "@ + s.algorithm.spec_name()),
        s.bucket matches Some(b) ==> has_line(stats_lines(s, fig), "c bucket policy        : "@ + b.spec_name()),
        has_line(stats_lines(s, fig), "c input                : "@ + decimal(s.input_vars as nat) + " vars, "@ + decimal(s.input_clauses as nat) + " clauses"@),
        s.preprocess matches Some(p) ==> {
            &&& has_line(stats_lines(s, fig), "c preprocessing        : "@ + decimal(p.clauses_before as nat) + " -> "@ + decimal(p.clauses_after as nat) + " clauses ("@ + decimal(p.duplicates_removed as nat) + " dup, "@ + decimal(p.units_fixed as nat) + " unit, "@ + decimal(p.pure_fixed as nat) + " pure, "@ + decimal(p.vars_eliminated as nat) + " eliminated)"@)
        },
        s.search matches Some(c) ==> {
            &&& has_line(stats_lines(s, fig), "c search nodes         : "@ + decimal(c.nodes as nat))
            &&& has_line(stats_lines(s, fig), "c decisions            : "@ + decimal(c.decisions as nat))
            &&& has_line(stats_lines(s, fig), "c conflicts            : "@ + decimal(c.conflicts as nat))
            &&& has_line(stats_lines(s, fig), "c propagations         : "@ + decimal(c.propagations as nat))
            &&& has_line(stats_lines(s, fig), "c components           : "@ + decimal(c.components as nat))
            &&& has_line(stats_lines(s, fig), "c pure literals        : "@ + decimal(c.pure_literals as nat))
            &&& has_line(stats_lines(s, fig), "c learned clauses      : "@ + decimal(c.learned as nat) + " kept, "@ + decimal(c.discarded as nat) + " too long ("@ + decimal(c.learned_literals as nat) + " literals, "@ + fig.learned_mean@ + " mean)"@)
            &&& has_line(stats_lines(s, fig), "c backjumps            : "@ + decimal(c.backjumps as nat) + " ("@ + decimal(c.levels_skipped as nat) + " decision levels skipped)"@)
            &&& has_line(stats_lines(s, fig), "c max depth            : "@ + decimal(c.max_depth as nat))
            &&& has_line(stats_lines(s, fig), "c memo                 : "@ + decimal(c.cache.lookups as nat) + " lookups, "@ + decimal(c.cache.hits as nat) + " hits ("@ + fig.hit_percent@ + "%), "@ + decimal(c.table.entries as nat) + " entries"@)
            &&& has_line(stats_lines(s, fig), "c memo maintenance     : "@ + decimal(c.cache.inserts as nat) + " inserts, "@ + decimal(c.cache.evicted as nat) + " evicted, "@ + decimal(c.cache.sweeps as nat) + " sweeps, "@ + decimal(c.cache.resizes as nat) + " resizes"@)
            &&& has_line(stats_lines(s, fig), "c memo table           : "@ + decimal(c.table.buckets as nat) + " buckets, "@ + decimal(c.table.occupied as nat) + " occupied, max bucket "@ + decimal(c.table.max_bucket as nat) + ", max depth "@ + decimal(c.table.max_depth as nat) + ", mean depth "@ + fig.mean_depth@)
            &&& has_line(stats_lines(s, fig), "c memo memory          : "@ + fig.memory_mib@ + " MiB"@)
        },
        s.dp matches Some(d) ==> {
            &&& has_line(stats_lines(s, fig), "c variables eliminated : "@ + decimal(d.eliminated as nat))
            &&& has_line(stats_lines(s, fig), "c resolvents           : "@ + decimal(d.resolvents as nat))
            &&& has_line(stats_lines(s, fig), "c peak clauses         : "@ + decimal(d.peak_clauses as nat))
        },
        has_line(stats_lines(s, fig), "c cpu time             : "@ + fig.seconds@ + " s"@),
        whole_lines(stats_lines(s, fig)),
{
    let head = head_lines(s);
    lemma_head_lines(s);
    let pre = match s.preprocess {
        Some(p) => preprocess_lines(p),
        None => Seq::empty(),
    };
    let search = match s.search {
        Some(c) => search_lines(c, fig) + memo_lines(c, fig),
        None => Seq::empty(),
    };
    let dp = match s.dp {
        Some(d) => dp_lines(d),
        None => Seq::empty(),
    };
    if let Some(p) = s.preprocess {
        lemma_preprocess_lines(p);
    }
    if let Some(c) = s.search {
        lemma_search_lines(c, fig);
        lemma_memo_lines(c, fig);
        lemma_lines_added(search_lines(c, fig), memo_lines(c, fig));
    }
    if let Some(d) = s.dp {
        lemma_dp_lines(d);
    }
    let time = text_line("c cpu time             : "@, fig.seconds@ + " s"@);
    assert(time =~= "c cpu time             : "@ + fig.seconds@ + " s"@ + "\n"@);
    lemma_line("c cpu time             : "@ + fig.seconds@ + " s"@);
    lemma_lines_added(head, pre);
    lemma_lines_added(head + pre, search);
    lemma_lines_added(head + pre + search, dp);
    lemma_lines_added(head + pre + search + dp, time);
    assert(stats_lines(s, fig) == head + pre + search + dp + time);
}

/// The branching rule that goes by each of the names on the command line.
pub proof fn lemma_heuristics_are_named(h: Heuristic)
    ensures
        h.spec_name() == seq!['j', 'w'] <==> h == Heuristic::JeroslowWang,
        h.spec_name() == seq!['d', 'l', 'i', 's'] <==> h == Heuristic::Dlis,
        h.spec_name() == seq!['d', 'l', 'c', 's'] <==> h == Heuristic::Dlcs,
        h.spec_name() == seq!['m', 'o', 'm'] <==> h == Heuristic::Mom,
        h.spec_name() == seq!['s', 't', 'a', 't', 'i', 'c'] <==> h == Heuristic::Static,
{
    reveal_strlit("jw");
    assert("jw"@ =~= seq!['j', 'w']);
    reveal_strlit("dlis");
    assert("dlis"@ =~= seq!['d', 'l', 'i', 's']);
    reveal_strlit("dlcs");
    assert("dlcs"@ =~= seq!['d', 'l', 'c', 's']);
    reveal_strlit("mom");
    assert("mom"@ =~= seq!['m', 'o', 'm']);
    reveal_strlit("static");
    assert("static"@ =~= seq!['s', 't', 'a', 't', 'i', 'c']);
    assert(seq!['j', 'w'].len() != seq!['d', 'l', 'i', 's'].len());
    assert(seq!['j', 'w'].len() != seq!['d', 'l', 'c', 's'].len());
    assert(seq!['j', 'w'].len() != seq!['m', 'o', 'm'].len());
    assert(seq!['j', 'w'].len() != seq!['s', 't', 'a', 't', 'i', 'c'].len());
    assert(seq!['d', 'l', 'i', 's'][2] != seq!['d', 'l', 'c', 's'][2]);
    assert(seq!['d', 'l', 'i', 's'].len() != seq!['m', 'o', 'm'].len());
    assert(seq!['d', 'l', 'i', 's'].len() != seq!['s', 't', 'a', 't', 'i', 'c'].len());
    assert(seq!['d', 'l', 'c', 's'].len() != seq!['m', 'o', 'm'].len());
    assert(seq!['d', 'l', 'c', 's'].len() != seq!['s', 't', 'a', 't', 'i', 'c'].len());
    assert(seq!['m', 'o', 'm'].len() != seq!['s', 't', 'a', 't', 'i', 'c'].len());
}

/// The bucket policy that goes by each of the names on the command line.
pub proof fn lemma_buckets_are_named(b: BucketKind)
    ensures
        b.spec_name() == seq!['a', 'v', 'l'] <==> b == BucketKind::Avl,
        b.spec_name() == seq!['u', 'n', 'b', 'a', 'l', 'a', 'n', 'c', 'e', 'd'] <==> b == BucketKind::Unbalanced,
        b.spec_name() == seq!['s', 'p', 'l', 'a', 'y'] <==> b == BucketKind::Splay,
        b.spec_name() == seq!['c', 'h', 'a', 'i', 'n'] <==> b == BucketKind::Chain,
{
    reveal_strlit("avl");
    assert("avl"@ =~= seq!['a', 'v', 'l']);
    reveal_strlit("unbalanced");
    assert("unbalanced"@ =~= seq!['u', 'n', 'b', 'a', 'l', 'a', 'n', 'c', 'e', 'd']);
    reveal_strlit("splay");
    assert("splay"@ =~= seq!['s', 'p', 'l', 'a', 'y']);
    reveal_strlit("chain");
    assert("chain"@ =~= seq!['c', 'h', 'a', 'i', 'n']);
    assert(seq!['a', 'v', 'l'].len() != seq!['u', 'n', 'b', 'a', 'l', 'a', 'n', 'c', 'e', 'd'].len());
    assert(seq!['a', 'v', 'l'].len() != seq!['s', 'p', 'l', 'a', 'y'].len());
    assert(seq!['a', 'v', 'l'].len() != seq!['c', 'h', 'a', 'i', 'n'].len());
    assert(seq!['u', 'n', 'b', 'a', 'l', 'a', 'n', 'c', 'e', 'd'].len() != seq!['s', 'p', 'l', 'a', 'y'].len());
    assert(seq!['u', 'n', 'b', 'a', 'l', 'a', 'n', 'c', 'e', 'd'].len() != seq!['c', 'h', 'a', 'i', 'n'].len());
    assert(seq!['s', 'p', 'l', 'a', 'y'][0] != seq!['c', 'h', 'a', 'i', 'n'][0]);
}

/// The algorithm that goes by each of the names on the command line.
pub proof fn lemma_algorithms_are_named(a: Algorithm)
    ensures
        a.spec_name() == seq!['d', 'p', 'l', 'l', '-', 'm', 'e', 'm', 'o'] <==> a == Algorithm::DpllMemo,
        a.spec_name() == seq!['d', 'p', 'l', 'l'] <==> a == Algorithm::Dpll,
        a.spec_name() == seq!['d', 'p'] <==> a == Algorithm::DavisPutnam,
{
    reveal_strlit("dpll-memo");
    assert("dpll-memo"@ =~= seq!['d', 'p', 'l', 'l', '-', 'm', 'e', 'm', 'o']);
    reveal_strlit("dpll");
    assert("dpll"@ =~= seq!['d', 'p', 'l', 'l']);
    reveal_strlit("dp");
    assert("dp"@ =~= seq!['d', 'p']);
    assert(seq!['d', 'p', 'l', 'l', '-', 'm', 'e', 'm', 'o'].len() != seq!['d', 'p', 'l', 'l'].len());
    assert(seq!['d', 'p', 'l', 'l', '-', 'm', 'e', 'm', 'o'].len() != seq!['d', 'p'].len());
    assert(seq!['d', 'p', 'l', 'l'].len() != seq!['d', 'p'].len());
}

/// The exit code is the one of the SAT competition: ten for satisfiable, twenty for unsatisfiable, and
/// zero where the solver gave up. A harness can tell the verdict from it.
pub proof fn lemma_exit_codes_follow_the_convention(o: Outcome)
    ensures
        o is Sat <==> o.spec_exit_code() == 10,
        o is Unsat <==> o.spec_exit_code() == 20,
        o is Unknown <==> o.spec_exit_code() == 0,
{
}

/// The list of numbers that a model is written as, without the `v` and the zero, reads back as the
/// model.
pub proof fn lemma_model_text_reads_back(values: Seq<bool>)
    requires
        values.len() <= Var::MAX_INDEX + 1,
    ensures
        ({
            let words = words_of(spaced_text(model_literals(values)));
            &&& words.len() == values.len()
            &&& forall|i: int|
                0 <= i < values.len() ==> #[trigger] words[i] == signed(listed_number(values, i)) && numeral_value(words[i])
                    == listed_number(values, i)
        }),
{
    let c = model_literals(values);
    lemma_spaced_words(c);
    let words = words_of(spaced_text(c));
    assert forall|i: int| 0 <= i < values.len() implies #[trigger] words[i] == signed(listed_number(values, i))
        && numeral_value(words[i]) == listed_number(values, i) by {
        assert(c[i] == mk_lit(i, values[i]));
        lemma_numeral_reads_back(listed_number(values, i));
    }
}

proof fn lemma_spaced_words(c: Seq<Lit>)
    ensures
        words_of(spaced_text(c)) == Seq::new(c.len(), |i: int| signed(c[i].dimacs())),
    decreases c.len(),
{
    let all = Seq::new(c.len(), |i: int| signed(c[i].dimacs()));
    let none = Seq::<char>::empty();
    if c.len() == 0 {
        assert(words_of(none) =~= all);
    } else {
        let w = signed(c.last().dimacs());
        lemma_numeral_reads_back(c.last().dimacs());
        if c.len() == 1 {
            assert(none + w =~= spaced_text(c));
            lemma_scan_word(none, w);
            assert(words_of(spaced_text(c)) =~= all);
        } else {
            let p = c.drop_last();
            lemma_spaced_words(p);
            let t = spaced_text(p).push(' ');
            lemma_scan_separator(spaced_text(p), ' ');
            lemma_scan_word(t, w);
            assert(t + w =~= spaced_text(c));
            assert(words_of(spaced_text(c)) =~= all);
        }
    }
}

/// A message about a fault in a text starts with the number of its line, where it has one, and names what
/// is wrong: the word that is no number, or the literal and its variable.
#[verifier::spinoff_prover]
#[verifier::rlimit(100)]
pub proof fn lemma_messages_name_the_fault(e: DimacsError)
    ensures
        e matches DimacsError::BadHeader { line } ==> part_at(
            e.message(),
            seq!['l', 'i', 'n', 'e', ' '] + decimal(line as nat) + seq![':'],
            0,
        ),
        e matches DimacsError::BadInteger { line, token } ==> part_at(
            e.message(),
            seq!['l', 'i', 'n', 'e', ' '] + decimal(line as nat) + seq![':', ' ', '`'] + token@ + seq!['`'],
            0,
        ),
        e matches DimacsError::VarTooLarge { line, value, var } ==> part_at(
            e.message(),
            seq!['l', 'i', 'n', 'e', ' '] + decimal(line as nat) + seq![':'],
            0,
        ) && has_word(e.message(), signed(value as int)) && exists|i: int| #[trigger]
            part_at(e.message(), seq![' '] + decimal(var as nat) + seq![','], i),
{
    reveal_strlit("line ");
    reveal_strlit(": expected the header to read `p cnf <vars> <clauses>`");
    reveal_strlit(": `");
    reveal_strlit("` is not an integer");
    reveal_strlit(": literal ");
    reveal_strlit(" refers to variable ");
    reveal_strlit(", above the supported maximum");
    let m = e.message();
    match e {
        DimacsError::BadHeader { line } => {
            let p = seq!['l', 'i', 'n', 'e', ' '] + decimal(line as nat) + seq![':'];
            assert(m.subrange(0, p.len() as int) =~= p);
        },
        DimacsError::BadInteger { line, token } => {
            let p = seq!['l', 'i', 'n', 'e', ' '] + decimal(line as nat) + seq![':', ' ', '`'] + token@ + seq!['`'];
            assert(m.subrange(0, p.len() as int) =~= p);
        },
        DimacsError::VarTooLarge { line, value, var } => {
            let p = seq!['l', 'i', 'n', 'e', ' '] + decimal(line as nat) + seq![':'];
            assert(m.subrange(0, p.len() as int) =~= p);
            let a = "line "@ + decimal(line as nat) + ": literal "@;
            let w = signed(value as int);
            let i = a.len() - 1;
            let q = seq![' '] + w + seq![' '];
            assert(m.subrange(i, i + q.len()) =~= q);
            assert(part_at(m, q, i));
            let b = a + w + " refers to variable "@;
            let j = b.len() - 1;
            let r = seq![' '] + decimal(var as nat) + seq![','];
            assert(m.subrange(j, j + r.len()) =~= r);
            assert(part_at(m, r, j));
        },
        _ => {},
    }
}

/// The word stands in the text, between blanks.
pub open spec fn has_word(t: Seq<char>, word: Seq<char>) -> bool {
    exists|i: int| #[trigger] part_at(t, seq![' '] + word + seq![' '], i)
}

/// A message about an unknown name holds the name, between backquotes, and says what it should have
/// been the name of.
pub proof fn lemma_unknown_names_are_shown(what: Seq<char>, name: Seq<char>)
    ensures
        exists|i: int| #[trigger] part_at(unknown_text(what, name), seq!['`'] + name + seq!['`'], i),
        exists|i: int| #[trigger] part_at(unknown_text(what, name), seq![' '] + what + seq![' '], i),
{
    reveal_strlit("unknown ");
    reveal_strlit(" `");
    reveal_strlit("`");
    let t = unknown_text(what, name);
    let a = seq![' '] + what + seq![' '];
    assert(t.subrange(7, 7 + a.len() as int) =~= a);
    assert(part_at(t, a, 7));
    let b = seq!['`'] + name + seq!['`'];
    let j = 9 + what.len() as int;
    assert(t.subrange(j, j + b.len()) =~= b);
    assert(part_at(t, b, j));
}

} // verus!
