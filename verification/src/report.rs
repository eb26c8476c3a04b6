//! Statistics of a solve, for people and for harnesses.
//!
//! Ratios and times are fractions, and the library computes with whole numbers only: whoever asks
//! for a report brings those [`Figures`] along, already written out.

use vstd::prelude::*;
use vstd::string::*;
use crate::config::Options;
use crate::dp::DpStats;
use crate::preprocess::PreprocessStats;
use crate::search::SearchCounters;
use crate::solver::{Outcome, SolveResult, SolveStats};
use crate::text::{append_decimal, decimal};

verus! {

/// The fractions of a report, written out.
#[derive(Clone, Debug)]
pub struct Figures {
    /// Share of lookups that the memo answered, in percent.
    pub hit_percent: String,
    /// Share of lookups that the memo answered, as a fraction of one.
    pub hit_rate: String,
    /// Mean depth of a memo entry within its bucket, for people.
    pub mean_depth: String,
    /// Mean depth of a memo entry within its bucket, for harnesses.
    pub mean_depth_fine: String,
    /// Mean length of a learned clause.
    pub learned_mean: String,
    /// Memory that the memo holds, in mebibytes.
    pub memory_mib: String,
    /// Seconds taken, for people.
    pub seconds: String,
    /// Seconds taken, for harnesses.
    pub seconds_fine: String,
}

/// A label, a number and a line break.
pub open spec fn num_line(label: Seq<char>, n: nat) -> Seq<char> {
    label + decimal(n) + "\n"@
}

/// A label, a text and a line break.
pub open spec fn text_line(label: Seq<char>, t: Seq<char>) -> Seq<char> {
    label + t + "\n"@
}

/// Line by line, what the preprocessor did.
pub open spec fn preprocess_lines(p: PreprocessStats) -> Seq<char> {
    "c preprocessing        : "@ + decimal(p.clauses_before as nat) + " -> "@ + decimal(p.clauses_after as nat)
        + " clauses ("@ + decimal(p.duplicates_removed as nat) + " dup, "@ + decimal(p.units_fixed as nat)
        + " unit, "@ + decimal(p.pure_fixed as nat) + " pure, "@ + decimal(p.vars_eliminated as nat)
        + " eliminated)\n"@
}

/// What the search did, up to the memo.
pub open spec fn search_lines(s: SearchCounters, fig: Figures) -> Seq<char> {
    num_line("c search nodes         : "@, s.nodes as nat) + num_line("c decisions            : "@, s.decisions as nat)
        + num_line("c conflicts            : "@, s.conflicts as nat) + num_line(
        "c propagations         : "@,
        s.propagations as nat,
    ) + num_line("c components           : "@, s.components as nat) + num_line(
        "c pure literals        : "@,
        s.pure_literals as nat,
    ) + ("c learned clauses      : "@ + decimal(s.learned as nat) + " kept, "@ + decimal(s.discarded as nat)
        + " too long ("@ + decimal(s.learned_literals as nat) + " literals, "@ + fig.learned_mean@ + " mean)\n"@) + (
    "c backjumps            : "@ + decimal(s.backjumps as nat) + " ("@ + decimal(s.levels_skipped as nat)
        + " decision levels skipped)\n"@) + num_line("c max depth            : "@, s.max_depth as nat)
}

/// What the memo did.
pub open spec fn memo_lines(s: SearchCounters, fig: Figures) -> Seq<char> {
    ("c memo                 : "@ + decimal(s.cache.lookups as nat) + " lookups, "@ + decimal(s.cache.hits as nat)
        + " hits ("@ + fig.hit_percent@ + "%), "@ + decimal(s.table.entries as nat) + " entries\n"@) + (
    "c memo maintenance     : "@ + decimal(s.cache.inserts as nat) + " inserts, "@ + decimal(s.cache.evicted as nat)
        + " evicted, "@ + decimal(s.cache.sweeps as nat) + " sweeps, "@ + decimal(s.cache.resizes as nat)
        + " resizes\n"@) + ("c memo table           : "@ + decimal(s.table.buckets as nat) + " buckets, "@ + decimal(
        s.table.occupied as nat,
    ) + " occupied, max bucket "@ + decimal(s.table.max_bucket as nat) + ", max depth "@ + decimal(
        s.table.max_depth as nat,
    ) + ", mean depth "@ + fig.mean_depth@ + "\n"@) + ("c memo memory          : "@ + fig.memory_mib@ + " MiB\n"@)
}

/// What the Davis–Putnam procedure did.
pub open spec fn dp_lines(d: DpStats) -> Seq<char> {
    num_line("c variables eliminated : "@, d.eliminated as nat) + num_line(
        "c resolvents           : "@,
        d.resolvents as nat,
    ) + num_line("c peak clauses         : "@, d.peak_clauses as nat)
}

/// What was run on what.
pub open spec fn head_lines(s: SolveStats) -> Seq<char> {
    let bucket = match s.bucket {
        Some(b) => text_line("c bucket policy        : "@, b.spec_name()),
        None => Seq::empty(),
    };
    text_line("c algorithm            : "@, s.algorithm.spec_name()) + bucket + ("c input                : "@ + decimal(
        s.input_vars as nat,
    ) + " vars, "@ + decimal(s.input_clauses as nat) + " clauses\n"@)
}

/// The report for people: comment lines on everything that was measured.
pub open spec fn stats_lines(s: SolveStats, fig: Figures) -> Seq<char> {
    let pre = match s.preprocess {
        Some(p) => preprocess_lines(p),
        None => Seq::empty(),
    };
    let search = match s.search {
        Some(c) => search_lines(c, fig) + memo_lines(c, fig),
        None => Seq::empty(),
    };
    let dp = match s.dp {
        Some(d) => dp_lines(d),
        None => Seq::empty(),
    };
    head_lines(s) + pre + search + dp + text_line("c cpu time             : "@, fig.seconds@ + " s"@)
}

/// A label, a number and a line break.
fn num_line_text(label: &str, n: u64) -> (s: String)
    ensures
        s@ == num_line(label@, n as nat),
{
    let mut s = label.to_owned();
    append_decimal(&mut s, n);
    s.append("\n");
    s
}

/// A label, a text and a line break.
fn text_line_text(label: &str, t: &str) -> (s: String)
    ensures
        s@ == text_line(label@, t@),
{
    let mut s = label.to_owned();
    s.append(t);
    s.append("\n");
    s
}

fn head_text(stats: &SolveStats) -> (s: String)
    ensures
        s@ == head_lines(*stats),
{
    let mut s = text_line_text("c algorithm            : ", stats.algorithm.name());
    match stats.bucket {
        Some(b) => {
            s.append(text_line_text("c bucket policy        : ", b.name()).as_str());
        },
        None => {
            assert(s@ =~= s@ + Seq::<char>::empty());
        },
    }
    let mut input = "c input                : ".to_owned();
    append_decimal(&mut input, stats.input_vars as u64);
    input.append(" vars, ");
    append_decimal(&mut input, stats.input_clauses as u64);
    input.append(" clauses\n");
    s.append(input.as_str());
    s
}

fn preprocess_text(p: &PreprocessStats) -> (s: String)
    ensures
        s@ == preprocess_lines(*p),
{
    let mut s = "c preprocessing        : ".to_owned();
    append_decimal(&mut s, p.clauses_before as u64);
    s.append(" -> ");
    append_decimal(&mut s, p.clauses_after as u64);
    s.append(" clauses (");
    append_decimal(&mut s, p.duplicates_removed as u64);
    s.append(" dup, ");
    append_decimal(&mut s, p.units_fixed as u64);
    s.append(" unit, ");
    append_decimal(&mut s, p.pure_fixed as u64);
    s.append(" pure, ");
    append_decimal(&mut s, p.vars_eliminated as u64);
    s.append(" eliminated)\n");
    s
}

fn learned_text(c: &SearchCounters, fig: &Figures) -> (s: String)
    ensures
        s@ == "c learned clauses      : "@ + decimal(c.learned as nat) + " kept, "@ + decimal(c.discarded as nat)
            + " too long ("@ + decimal(c.learned_literals as nat) + " literals, "@ + fig.learned_mean@ + " mean)\n"@,
{
    let mut s = "c learned clauses      : ".to_owned();
    append_decimal(&mut s, c.learned);
    s.append(" kept, ");
    append_decimal(&mut s, c.discarded);
    s.append(" too long (");
    append_decimal(&mut s, c.learned_literals);
    s.append(" literals, ");
    s.append(fig.learned_mean.as_str());
    s.append(" mean)\n");
    s
}

fn backjumps_text(c: &SearchCounters) -> (s: String)
    ensures
        s@ == "c backjumps            : "@ + decimal(c.backjumps as nat) + " ("@ + decimal(c.levels_skipped as nat)
            + " decision levels skipped)\n"@,
{
    let mut s = "c backjumps            : ".to_owned();
    append_decimal(&mut s, c.backjumps);
    s.append(" (");
    append_decimal(&mut s, c.levels_skipped);
    s.append(" decision levels skipped)\n");
    s
}

fn search_text(c: &SearchCounters, fig: &Figures) -> (s: String)
    ensures
        s@ == search_lines(*c, *fig),
{
    let mut s = num_line_text("c search nodes         : ", c.nodes);
    s.append(num_line_text("c decisions            : ", c.decisions).as_str());
    s.append(num_line_text("c conflicts            : ", c.conflicts).as_str());
    s.append(num_line_text("c propagations         : ", c.propagations).as_str());
    s.append(num_line_text("c components           : ", c.components).as_str());
    s.append(num_line_text("c pure literals        : ", c.pure_literals).as_str());
    s.append(learned_text(c, fig).as_str());
    s.append(backjumps_text(c).as_str());
    s.append(num_line_text("c max depth            : ", c.max_depth).as_str());
    s
}

fn memo_use_text(c: &SearchCounters, fig: &Figures) -> (s: String)
    ensures
        s@ == "c memo                 : "@ + decimal(c.cache.lookups as nat) + " lookups, "@ + decimal(
            c.cache.hits as nat,
        ) + " hits ("@ + fig.hit_percent@ + "%), "@ + decimal(c.table.entries as nat) + " entries\n"@,
{
    let mut s = "c memo                 : ".to_owned();
    append_decimal(&mut s, c.cache.lookups);
    s.append(" lookups, ");
    append_decimal(&mut s, c.cache.hits);
    s.append(" hits (");
    s.append(fig.hit_percent.as_str());
    s.append("%), ");
    append_decimal(&mut s, c.table.entries as u64);
    s.append(" entries\n");
    s
}

fn maintenance_text(c: &SearchCounters) -> (s: String)
    ensures
        s@ == "c memo maintenance     : "@ + decimal(c.cache.inserts as nat) + " inserts, "@ + decimal(
            c.cache.evicted as nat,
        ) + " evicted, "@ + decimal(c.cache.sweeps as nat) + " sweeps, "@ + decimal(c.cache.resizes as nat)
            + " resizes\n"@,
{
    let mut s = "c memo maintenance     : ".to_owned();
    append_decimal(&mut s, c.cache.inserts);
    s.append(" inserts, ");
    append_decimal(&mut s, c.cache.evicted);
    s.append(" evicted, ");
    append_decimal(&mut s, c.cache.sweeps);
    s.append(" sweeps, ");
    append_decimal(&mut s, c.cache.resizes);
    s.append(" resizes\n");
    s
}

fn table_text(c: &SearchCounters, fig: &Figures) -> (s: String)
    ensures
        s@ == "c memo table           : "@ + decimal(c.table.buckets as nat) + " buckets, "@ + decimal(
            c.table.occupied as nat,
        ) + " occupied, max bucket "@ + decimal(c.table.max_bucket as nat) + ", max depth "@ + decimal(
            c.table.max_depth as nat,
        ) + ", mean depth "@ + fig.mean_depth@ + "\n"@,
{
    let mut s = "c memo table           : ".to_owned();
    append_decimal(&mut s, c.table.buckets as u64);
    s.append(" buckets, ");
    append_decimal(&mut s, c.table.occupied as u64);
    s.append(" occupied, max bucket ");
    append_decimal(&mut s, c.table.max_bucket as u64);
    s.append(", max depth ");
    append_decimal(&mut s, c.table.max_depth as u64);
    s.append(", mean depth ");
    s.append(fig.mean_depth.as_str());
    s.append("\n");
    s
}

fn memo_text(c: &SearchCounters, fig: &Figures) -> (s: String)
    ensures
        s@ == memo_lines(*c, *fig),
{
    let mut s = memo_use_text(c, fig);
    s.append(maintenance_text(c).as_str());
    s.append(table_text(c, fig).as_str());
    let mut memory = "c memo memory          : ".to_owned();
    memory.append(fig.memory_mib.as_str());
    memory.append(" MiB\n");
    s.append(memory.as_str());
    s
}

fn dp_text(d: &DpStats) -> (s: String)
    ensures
        s@ == dp_lines(*d),
{
    let mut s = num_line_text("c variables eliminated : ", d.eliminated as u64);
    s.append(num_line_text("c resolvents           : ", d.resolvents).as_str());
    s.append(num_line_text("c peak clauses         : ", d.peak_clauses as u64).as_str());
    s
}

/// Writes the report for people.
pub fn write_stats(stats: &SolveStats, fig: &Figures) -> (s: String)
    ensures
        s@ == stats_lines(*stats, *fig),
{
    let mut s = head_text(stats);
    match &stats.preprocess {
        Some(p) => {
            s.append(preprocess_text(p).as_str());
        },
        None => {
            assert(s@ =~= s@ + Seq::<char>::empty());
        },
    }
    match &stats.search {
        Some(c) => {
            let mut t = search_text(c, fig);
            t.append(memo_text(c, fig).as_str());
            s.append(t.as_str());
        },
        None => {
            assert(s@ =~= s@ + Seq::<char>::empty());
        },
    }
    match &stats.dp {
        Some(d) => {
            s.append(dp_text(d).as_str());
        },
        None => {
            assert(s@ =~= s@ + Seq::<char>::empty());
        },
    }
    let mut time = fig.seconds.clone();
    time.append(" s");
    s.append(text_line_text("c cpu time             : ", time.as_str()).as_str());
    s
}

/// A field of a JSON object, after a comma.
pub open spec fn json_item(key: Seq<char>, value: Seq<char>) -> Seq<char> {
    ",\""@ + key + "\":"@ + value
}

/// A field that holds a number.
pub open spec fn json_num(key: Seq<char>, n: nat) -> Seq<char> {
    json_item(key, decimal(n))
}

/// A text between quotation marks.
pub open spec fn quoted(t: Seq<char>) -> Seq<char> {
    "\""@ + t + "\""@
}

/// The verdict in one word.
pub open spec fn verdict_word(o: Outcome) -> Seq<char> {
    match o {
        Outcome::Sat(_) => "SAT"@,
        Outcome::Unsat => "UNSAT"@,
        Outcome::Unknown(_) => "UNKNOWN"@,
    }
}

/// What was run on what, how it ended and how long it took.
pub open spec fn json_head(r: SolveResult, o: Options, fig: Figures) -> Seq<char> {
    "{\"status\":"@ + quoted(verdict_word(r.outcome)) + json_item(
        "algorithm"@,
        quoted(r.stats.algorithm.spec_name()),
    ) + json_item("bucket"@, quoted(o.bucket.spec_name())) + json_item("heuristic"@, quoted(o.heuristic.spec_name()))
        + json_item(
        "cache"@,
        if o.no_cache {
            "false"@
        } else {
            "true"@
        },
    ) + json_item("elapsed_s"@, fig.seconds_fine@) + json_num("input_vars"@, r.stats.input_vars as nat) + json_num(
        "input_clauses"@,
        r.stats.input_clauses as nat,
    )
}

/// What the preprocessor did.
pub open spec fn json_preprocess(p: PreprocessStats) -> Seq<char> {
    json_num("pre_clauses_after"@, p.clauses_after as nat) + json_num("pre_vars_eliminated"@, p.vars_eliminated as nat)
}

/// What the search and the memo did.
pub open spec fn json_search(c: SearchCounters, fig: Figures) -> Seq<char> {
    json_num("nodes"@, c.nodes as nat) + json_num("decisions"@, c.decisions as nat) + json_num("conflicts"@, c.conflicts as nat) + json_num("propagations"@, c.propagations as nat) + json_num("components"@, c.components as nat) + json_num("max_depth"@, c.max_depth as nat) + json_num("cache_lookups"@, c.cache.lookups as nat) + json_num("cache_hits"@, c.cache.hits as nat) + json_item("cache_hit_rate"@, fig.hit_rate@) + json_num("cache_entries"@, c.table.entries as nat) + json_num("cache_evicted"@, c.cache.evicted as nat) + json_num("table_buckets"@, c.table.buckets as nat) + json_num("table_max_bucket"@, c.table.max_bucket as nat) + json_num("table_max_depth"@, c.table.max_depth as nat) + json_item("table_mean_depth"@, fig.mean_depth_fine@) + json_num("cache_bytes"@, c.cache_bytes as nat)
}

/// What the Davis–Putnam procedure did.
pub open spec fn json_dp(d: DpStats) -> Seq<char> {
    json_num("dp_eliminated"@, d.eliminated as nat) + json_num("dp_resolvents"@, d.resolvents as nat) + json_num("dp_peak_clauses"@, d.peak_clauses as nat)
}

/// The report for harnesses: one JSON object.
pub open spec fn json_object(r: SolveResult, o: Options, fig: Figures) -> Seq<char> {
    let pre = match r.stats.preprocess {
        Some(p) => json_preprocess(p),
        None => Seq::empty(),
    };
    let search = match r.stats.search {
        Some(c) => json_search(c, fig),
        None => Seq::empty(),
    };
    let dp = match r.stats.dp {
        Some(d) => json_dp(d),
        None => Seq::empty(),
    };
    json_head(r, o, fig) + pre + search + dp + "}"@
}

fn json_item_text(key: &str, value: &str) -> (s: String)
    ensures
        s@ == json_item(key@, value@),
{
    let mut s = ",\"".to_owned();
    s.append(key);
    s.append("\":");
    s.append(value);
    s
}

fn json_num_text(key: &str, n: u64) -> (s: String)
    ensures
        s@ == json_num(key@, n as nat),
{
    let mut value = String::new();
    append_decimal(&mut value, n);
    assert(value@ =~= decimal(n as nat));
    json_item_text(key, value.as_str())
}

fn quoted_text(t: &str) -> (s: String)
    ensures
        s@ == quoted(t@),
{
    let mut s = "\"".to_owned();
    s.append(t);
    s.append("\"");
    s
}

fn json_head_text(r: &SolveResult, o: &Options, fig: &Figures) -> (s: String)
    ensures
        s@ == json_head(*r, *o, *fig),
{
    let word = match &r.outcome {
        Outcome::Sat(_) => "SAT",
        Outcome::Unsat => "UNSAT",
        Outcome::Unknown(_) => "UNKNOWN",
    };
    let cache = if o.no_cache {
        "false"
    } else {
        "true"
    };
    let mut s = "{\"status\":".to_owned();
    s.append(quoted_text(word).as_str());
    s.append(json_item_text("algorithm", quoted_text(r.stats.algorithm.name()).as_str()).as_str());
    s.append(json_item_text("bucket", quoted_text(o.bucket.name()).as_str()).as_str());
    s.append(json_item_text("heuristic", quoted_text(o.heuristic.name()).as_str()).as_str());
    s.append(json_item_text("cache", cache).as_str());
    s.append(json_item_text("elapsed_s", fig.seconds_fine.as_str()).as_str());
    s.append(json_num_text("input_vars", r.stats.input_vars as u64).as_str());
    s.append(json_num_text("input_clauses", r.stats.input_clauses as u64).as_str());
    s
}

fn json_preprocess_text(p: &PreprocessStats) -> (s: String)
    ensures
        s@ == json_preprocess(*p),
{
    let mut s = json_num_text("pre_clauses_after", p.clauses_after as u64);
    s.append(json_num_text("pre_vars_eliminated", p.vars_eliminated as u64).as_str());
    s
}

fn json_search_text(c: &SearchCounters, fig: &Figures) -> (s: String)
    ensures
        s@ == json_search(*c, *fig),
{
    let mut s = json_num_text("nodes", c.nodes as u64);
    s.append(json_num_text("decisions", c.decisions as u64).as_str());
    s.append(json_num_text("conflicts", c.conflicts as u64).as_str());
    s.append(json_num_text("propagations", c.propagations as u64).as_str());
    s.append(json_num_text("components", c.components as u64).as_str());
    s.append(json_num_text("max_depth", c.max_depth as u64).as_str());
    s.append(json_num_text("cache_lookups", c.cache.lookups as u64).as_str());
    s.append(json_num_text("cache_hits", c.cache.hits as u64).as_str());
    s.append(json_item_text("cache_hit_rate", fig.hit_rate.as_str()).as_str());
    s.append(json_num_text("cache_entries", c.table.entries as u64).as_str());
    s.append(json_num_text("cache_evicted", c.cache.evicted as u64).as_str());
    s.append(json_num_text("table_buckets", c.table.buckets as u64).as_str());
    s.append(json_num_text("table_max_bucket", c.table.max_bucket as u64).as_str());
    s.append(json_num_text("table_max_depth", c.table.max_depth as u64).as_str());
    s.append(json_item_text("table_mean_depth", fig.mean_depth_fine.as_str()).as_str());
    s.append(json_num_text("cache_bytes", c.cache_bytes as u64).as_str());
    s
}

fn json_dp_text(d: &DpStats) -> (s: String)
    ensures
        s@ == json_dp(*d),
{
    let mut s = json_num_text("dp_eliminated", d.eliminated as u64);
    s.append(json_num_text("dp_resolvents", d.resolvents as u64).as_str());
    s.append(json_num_text("dp_peak_clauses", d.peak_clauses as u64).as_str());
    s
}

/// Renders the run as one JSON object.
pub fn json_stats(r: &SolveResult, o: &Options, fig: &Figures) -> (s: String)
    ensures
        s@ == json_object(*r, *o, *fig),
{
    let mut s = json_head_text(r, o, fig);
    match &r.stats.preprocess {
        Some(p) => {
            s.append(json_preprocess_text(p).as_str());
        },
        None => {
            assert(s@ =~= s@ + Seq::<char>::empty());
        },
    }
    match &r.stats.search {
        Some(c) => {
            s.append(json_search_text(c, fig).as_str());
        },
        None => {
            assert(s@ =~= s@ + Seq::<char>::empty());
        },
    }
    match &r.stats.dp {
        Some(d) => {
            s.append(json_dp_text(d).as_str());
        },
        None => {
            assert(s@ =~= s@ + Seq::<char>::empty());
        },
    }
    s.append("}");
    s
}

} // verus!
