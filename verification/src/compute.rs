//! Running an experiment's command and reading metrics from its output.
//!
//! Output is read in one of two formats: a JSON object on one line that
//! holds an `"f1"` key (the last such line wins), or else the benchmark
//! report format, read line by line with regular expressions. Numbers are
//! handed on as the text they were written in.

use vstd::prelude::*;
use crate::text::{
    chars_of, has_infix, lines_of, lowercase, split_lines, split_words, string_of, text_contains,
    to_lower, trim_chars, trimmed, words,
};
use crate::trial::lookup;

verus! {

// ---------------------------------------------------------------------------
// Subprocess backend
// ---------------------------------------------------------------------------

/// Executes experiments as local subprocesses.
pub struct SubprocessBackend;

/// Why a command could not be run.
#[derive(Debug, PartialEq, Eq)]
pub enum CommandError {
    /// The command has no words.
    Empty,
}

impl CommandError {
    /// The sentence that describes the error.
    pub fn message(&self) -> (r: String)
        ensures
            r@ == "Empty command"@,
    {
        "Empty command".to_owned()
    }
}

impl SubprocessBackend {
    /// The program to run and its arguments: the command's words (split at
    /// white space, no shell involved).
    pub fn command_line(&self, command: &str) -> (r: Result<(String, Vec<String>), CommandError>)
        ensures
            words(command@).len() == 0 <==> r is Err,
            r matches Ok((program, args)) ==> program@ == words(command@)[0]
                && args@.map_values(|a: String| a@) == words(command@).drop_first(),
    {
        let mut w = split_words(command);
        if w.len() == 0 {
            return Err(CommandError::Empty);
        }
        let ghost all = w@.map_values(|a: String| a@);
        let program = w.remove(0);
        assert(w@.map_values(|a: String| a@) =~= all.drop_first());
        Ok((program, w))
    }
}

// ---------------------------------------------------------------------------
// Outside parsers
// ---------------------------------------------------------------------------

/// The groups that `regex::Regex` captures on the first match of `pattern`
/// in `text` (group 0 is the whole match; a group that took no part is
/// `None`), or `None` when nothing matches or the pattern does not compile.
pub uninterp spec fn regex_captures(pattern: Seq<char>, text: Seq<char>) -> Option<Seq<Option<Seq<char>>>>;

/// The view of captured groups.
pub open spec fn groups_view(c: Option<Vec<Option<String>>>) -> Option<Seq<Option<Seq<char>>>> {
    match c {
        Some(g) => Some(
            g@.map_values(
                |m: Option<String>|
                    match m {
                        Some(s) => Some(s@),
                        None => None,
                    },
            ),
        ),
        None => None,
    }
}

/// `regex::Regex::new(pattern)` and then `Regex::captures(text)`: the
/// contract names the groups by `regex_captures` and claims nothing else.
#[verifier::external_body]
fn captures(pattern: &str, text: &str) -> (r: Option<Vec<Option<String>>>)
    ensures
        groups_view(r) == regex_captures(pattern@, text@),
{
    match regex::Regex::new(pattern) {
        Err(_) => None,
        Ok(re) => match re.captures(text) {
            None => None,
            Some(c) => Some(c.iter().map(|m| m.map(|m| m.as_str().to_owned())).collect()),
        },
    }
}

/// The entries of the JSON object that `text` holds, as
/// `serde_json::from_str::<serde_json::Map<String, Value>>` reads it, in the
/// map's order: each key with the text of its value when that is a number;
/// `None` when `text` is not a JSON object.
pub uninterp spec fn json_object_entries(text: Seq<char>) -> Option<Seq<(Seq<char>, Option<Seq<char>>)>>;

/// The view of JSON object entries.
pub open spec fn entries_view(e: Option<Vec<(String, Option<String>)>>) -> Option<
    Seq<(Seq<char>, Option<Seq<char>>)>,
> {
    match e {
        Some(v) => Some(
            v@.map_values(
                |p: (String, Option<String>)|
                    (
                        p.0@,
                        match p.1 {
                            Some(s) => Some(s@),
                            None => None,
                        },
                    ),
            ),
        ),
        None => None,
    }
}

/// `serde_json::from_str` into a `serde_json::Map`, each value that is a
/// number rendered with `Number::to_string`: the contract names the result
/// by `json_object_entries` and claims nothing else.
#[verifier::external_body]
fn json_entries(text: &str) -> (r: Option<Vec<(String, Option<String>)>>)
    ensures
        entries_view(r) == json_object_entries(text@),
{
    match serde_json::from_str::<serde_json::Map<String, serde_json::Value>>(text) {
        Err(_) => None,
        Ok(map) => Some(
            map.iter().map(|(k, v)| (k.clone(), match v {
                serde_json::Value::Number(n) => Some(n.to_string()),
                _ => None,
            })).collect(),
        ),
    }
}

// ---------------------------------------------------------------------------
// Numbers written as text
// ---------------------------------------------------------------------------

/// `c` is an ASCII decimal digit.
pub open spec fn is_ascii_digit(c: char) -> bool {
    '0' <= c && c <= '9'
}

/// `s` is a decimal number with an optional point: ASCII digits and at
/// most one `.`, with at least one digit (such text parses as an `f64`).
pub open spec fn decimal_text(s: Seq<char>) -> bool {
    &&& forall|i: int| 0 <= i < s.len() ==> is_ascii_digit(#[trigger] s[i]) || s[i] == '.'
    &&& exists|i: int| 0 <= i < s.len() && is_ascii_digit(#[trigger] s[i])
    &&& forall|i: int, j: int| #![trigger s[i], s[j]] 0 <= i < j < s.len() ==> !(s[i] == '.' && s[j] == '.')
}

fn is_decimal_text(s: &str) -> (r: bool)
    ensures
        r == decimal_text(s@),
{
    let v = chars_of(s);
    let mut seen_digit = false;
    let mut seen_point = false;
    let mut i: usize = 0;
    while i < v.len()
        invariant
            i <= v.len(),
            v@ == s@,
            forall|k: int| 0 <= k < i ==> is_ascii_digit(#[trigger] s@[k]) || s@[k] == '.',
            seen_digit == exists|k: int| 0 <= k < i && is_ascii_digit(#[trigger] s@[k]),
            seen_point == exists|k: int| 0 <= k < i && #[trigger] s@[k] == '.',
            forall|k: int, m: int| #![trigger s@[k], s@[m]] 0 <= k < m < i ==> !(s@[k] == '.' && s@[m] == '.'),
        decreases v.len() - i,
    {
        let c = v[i];
        if '0' <= c && c <= '9' {
            seen_digit = true;
        } else if c == '.' {
            if seen_point {
                proof {
                    let k = choose|k: int| 0 <= k < i && #[trigger] s@[k] == '.';
                    assert(s@[k] == '.' && s@[i as int] == '.');
                }
                return false;
            }
            seen_point = true;
        } else {
            return false;
        }
        i += 1;
    }
    seen_digit
}

/// The value of ASCII digits.
pub open spec fn digits_value(s: Seq<char>) -> nat
    decreases s.len(),
{
    if s.len() == 0 {
        0
    } else {
        digits_value(s.drop_last()) * 10 + (s.last() as nat - '0' as nat) as nat
    }
}

/// The text after an optional leading `+`.
pub open spec fn unsigned_digits(s: Seq<char>) -> Seq<char> {
    if s.len() > 0 && s[0] == '+' {
        s.drop_first()
    } else {
        s
    }
}

/// Every character is an ASCII digit.
pub open spec fn all_digits(d: Seq<char>) -> bool {
    forall|i: int| 0 <= i < d.len() ==> is_ascii_digit(#[trigger] d[i])
}

/// What `str::parse::<usize>` gives: an optional `+` and then at least one
/// ASCII digit, with a value that fits in `usize`.
pub open spec fn parsed_usize(s: Seq<char>) -> Option<nat> {
    let d = unsigned_digits(s);
    if d.len() > 0 && all_digits(d) && digits_value(d) <= usize::MAX {
        Some(digits_value(d))
    } else {
        None
    }
}

/// A count written as text, 0 when it does not parse.
pub open spec fn count_of(s: Seq<char>) -> nat {
    match parsed_usize(s) {
        Some(v) => v,
        None => 0,
    }
}

fn parse_count(s: &str) -> (r: usize)
    ensures
        r == count_of(s@),
{
    let v = chars_of(s);
    let start: usize = if v.len() > 0 && v[0] == '+' {
        1
    } else {
        0
    };
    let ghost d = unsigned_digits(s@);
    assert(d =~= s@.subrange(start as int, s@.len() as int));
    if start >= v.len() {
        return 0;
    }
    let mut value: usize = 0;
    let mut i: usize = start;
    while i < v.len()
        invariant
            start <= i <= v.len(),
            v@ == s@,
            d == s@.subrange(start as int, s@.len() as int),
            d == unsigned_digits(s@),
            forall|k: int| start <= k < i ==> is_ascii_digit(#[trigger] s@[k]),
            value == digits_value(s@.subrange(start as int, i as int)),
        decreases v.len() - i,
    {
        let c = v[i];
        if !('0' <= c && c <= '9') {
            assert(d[i - start] == c);
            assert(!is_ascii_digit(d[i - start]));
            assert(!all_digits(d));
            assert(parsed_usize(s@) is None);
            return 0;
        }
        let digit: usize = (c as u32 - '0' as u32) as usize;
        assert(s@.subrange(start as int, i + 1).drop_last() =~= s@.subrange(start as int, i as int));
        if value > (usize::MAX - digit) / 10 {
            proof {
                let t = s@.subrange(start as int, i + 1);
                assert(t.last() == c);
                assert(digits_value(t) == value * 10 + digit);
                assert(value * 10 + digit > usize::MAX) by (nonlinear_arith)
                    requires
                        value > (usize::MAX - digit) / 10,
                        digit <= 9,
                ;
                assert(d.subrange(0, (i + 1 - start) as int) =~= t);
                if all_digits(d) {
                    lemma_digits_value_prefix(d, (i + 1 - start) as int);
                }
                assert(parsed_usize(s@) is None);
            }
            return 0;
        }
        value = value * 10 + digit;
        i += 1;
    }
    assert(s@.subrange(start as int, v.len() as int) =~= d);
    value
}

/// A number's digits never weigh less than those of any of its prefixes.
proof fn lemma_digits_value_prefix(d: Seq<char>, n: int)
    requires
        0 <= n <= d.len(),
        forall|i: int| 0 <= i < d.len() ==> is_ascii_digit(#[trigger] d[i]),
    ensures
        digits_value(d) >= digits_value(d.subrange(0, n)),
    decreases d.len(),
{
    if n < d.len() {
        assert(d.drop_last() =~= d.subrange(0, d.len() - 1));
        lemma_digits_value_prefix(d.drop_last(), n);
        assert(d.drop_last().subrange(0, n) =~= d.subrange(0, n));
    } else {
        assert(d.subrange(0, n) =~= d);
    }
}


// ---------------------------------------------------------------------------
// The JSON format
// ---------------------------------------------------------------------------

/// A line that holds the metrics as JSON: trimmed, it starts with `{`,
/// mentions the key `"f1"` and is a JSON object.
pub open spec fn json_line(line: Seq<char>) -> bool {
    let t = trimmed(line);
    &&& t.len() > 0
    &&& t[0] == '{'
    &&& has_infix(t, "\"f1\""@)
    &&& json_object_entries(t) is Some
}

/// The position of the last line that holds the metrics as JSON.
pub open spec fn last_json_line(lines: Seq<Seq<char>>) -> Option<int>
    decreases lines.len(),
{
    if lines.len() == 0 {
        None
    } else if json_line(lines.last()) {
        Some(lines.len() - 1)
    } else {
        last_json_line(lines.drop_last())
    }
}

/// The entries whose value is a number, with the number's text.
pub open spec fn numeric_entries(entries: Seq<(Seq<char>, Option<Seq<char>>)>) -> Seq<(Seq<char>, Seq<char>)> {
    entries.filter(|e: (Seq<char>, Option<Seq<char>>)| e.1 is Some).map_values(
        |e: (Seq<char>, Option<Seq<char>>)| (e.0, e.1->0),
    )
}

/// The keys that are not metrics: the benchmark score and the counts.
pub open spec fn is_special_key(k: Seq<char>) -> bool {
    k == "bench_score"@ || k == "true_positives"@ || k == "false_positives"@ || k
        == "false_negatives"@
}

/// Metrics read from a JSON line, numbers as their text.
#[derive(Debug)]
pub struct JsonReport {
    /// Every numeric entry but the benchmark score and the counts.
    pub metrics: Vec<(String, String)>,
    pub bench_score: Option<String>,
    pub true_positives: Option<String>,
    pub false_positives: Option<String>,
    pub false_negatives: Option<String>,
}

/// The view of an optional string.
pub open spec fn text_opt(o: Option<String>) -> Option<Seq<char>> {
    match o {
        Some(s) => Some(s@),
        None => None,
    }
}

/// `r` is what the numeric `entries` of a JSON line give.
pub open spec fn json_report_of(r: JsonReport, entries: Seq<(Seq<char>, Option<Seq<char>>)>) -> bool {
    let nums = numeric_entries(entries);
    &&& r.metrics@.map_values(|p: (String, String)| (p.0@, p.1@)) == nums.filter(
        |e: (Seq<char>, Seq<char>)| !is_special_key(e.0),
    )
    &&& text_opt(r.bench_score) == lookup(nums, "bench_score"@)
    &&& text_opt(r.true_positives) == lookup(nums, "true_positives"@)
    &&& text_opt(r.false_positives) == lookup(nums, "false_positives"@)
    &&& text_opt(r.false_negatives) == lookup(nums, "false_negatives"@)
}

// ---------------------------------------------------------------------------
// The benchmark report format
// ---------------------------------------------------------------------------

/// The line with the overall benchmark score.
pub const BENCH_PATTERN: &'static str = "BENCH SCORE:\\s*([\\d.]+)";
/// A line with a dimension's score, weight and weighted score.
pub const DIMENSION_PATTERN: &'static str = "(\\w[\\w\\s&/]+?)\\s+([\\d.]+)\\s+[x\u{d7}]\\s+([\\d.]+)\\s+=\\s+([\\d.]+)";
/// The line with the match counts.
pub const MATCHES_PATTERN: &'static str = "Matches:\\s*(\\d+).*FPs:\\s*(\\d+).*Missed:\\s*(\\d+)";
/// The line with the make/miss accuracy.
pub const MAKE_MISS_PATTERN: &'static str = "Make/miss:.*?(\\d+)/(\\d+).*?([\\d.]+)%";

/// Group `k` of a capture, when it took part.
pub open spec fn group(c: Option<Seq<Option<Seq<char>>>>, k: int) -> Option<Seq<char>> {
    match c {
        Some(g) => if 0 <= k < g.len() {
            g[k]
        } else {
            None
        },
        None => None,
    }
}

/// The key of a dimension's name: trimmed, lower-cased, with spaces and
/// slashes turned into underscores.
pub open spec fn dimension_key(name: Seq<char>) -> Seq<char> {
    lowercase(trimmed(name)).map_values(
        |c: char|
            if c == ' ' || c == '/' {
                '_'
            } else {
                c
            },
    )
}

/// What a benchmark report says: the benchmark score, the dimension scores
/// (a later one for the same key wins), the match counts (true positives,
/// false positives, misses), the counts of the last match line with a true
/// positive (those give precision, recall and F1), and the make/miss
/// accuracy in percent.
pub type ReportView = (
    Option<Seq<char>>,
    Seq<(Seq<char>, Seq<char>)>,
    Option<(nat, nat, nat)>,
    Option<(nat, nat, nat)>,
    Option<Seq<char>>,
);

/// What one line adds to a report, given what the four patterns captured
/// on it (`bench`, `dimension`, `matches`, `make_miss`): a benchmark score
/// and a make/miss percentage that are decimal text replace the earlier
/// ones; a dimension with a decimal score is appended; a match line sets
/// the counts, and the rated counts when it has a true positive.
pub open spec fn update_report(
    st: ReportView,
    bench: Option<Seq<Option<Seq<char>>>>,
    dimension: Option<Seq<Option<Seq<char>>>>,
    matches: Option<Seq<Option<Seq<char>>>>,
    make_miss: Option<Seq<Option<Seq<char>>>>,
) -> ReportView {
    let b = group(bench, 1);
    let bench_score = if b is Some && decimal_text(b->0) {
        b
    } else {
        st.0
    };
    let dims = if group(dimension, 1) is Some && group(dimension, 2) is Some && decimal_text(
        group(dimension, 2)->0,
    ) {
        st.1.push((dimension_key(group(dimension, 1)->0), group(dimension, 2)->0))
    } else {
        st.1
    };
    let found = group(matches, 1) is Some && group(matches, 2) is Some && group(matches, 3) is Some;
    let c = (count_of(group(matches, 1)->0), count_of(group(matches, 2)->0), count_of(group(matches, 3)->0));
    let counts = if found {
        Some(c)
    } else {
        st.2
    };
    let rated = if found && c.0 > 0 {
        Some(c)
    } else {
        st.3
    };
    let p = group(make_miss, 3);
    let percent = if p is Some && decimal_text(p->0) {
        p
    } else {
        st.4
    };
    (bench_score, dims, counts, rated, percent)
}

/// What one trimmed line adds to a report.
pub open spec fn read_line(st: ReportView, line: Seq<char>) -> ReportView {
    update_report(
        st,
        regex_captures(BENCH_PATTERN@, line),
        regex_captures(DIMENSION_PATTERN@, line),
        regex_captures(MATCHES_PATTERN@, line),
        regex_captures(MAKE_MISS_PATTERN@, line),
    )
}

/// What the report in `lines` says, each line trimmed.
pub open spec fn read_report(lines: Seq<Seq<char>>) -> ReportView
    decreases lines.len(),
{
    if lines.len() == 0 {
        (None, seq![], None, None, None)
    } else {
        read_line(read_report(lines.drop_last()), trimmed(lines.last()))
    }
}

/// What a benchmark report says (see `ReportView`), numbers as their text.
#[derive(Debug)]
pub struct BenchReport {
    pub bench_score: Option<String>,
    pub dimension_scores: Vec<(String, String)>,
    pub counts: Option<(usize, usize, usize)>,
    pub rated_counts: Option<(usize, usize, usize)>,
    pub make_miss_percent: Option<String>,
}

/// The view of counts.
pub open spec fn counts_view(c: Option<(usize, usize, usize)>) -> Option<(nat, nat, nat)> {
    match c {
        Some(t) => Some((t.0 as nat, t.1 as nat, t.2 as nat)),
        None => None,
    }
}

/// The view of a benchmark report.
pub open spec fn report_view(r: BenchReport) -> ReportView {
    (
        text_opt(r.bench_score),
        r.dimension_scores@.map_values(|p: (String, String)| (p.0@, p.1@)),
        counts_view(r.counts),
        counts_view(r.rated_counts),
        text_opt(r.make_miss_percent),
    )
}

/// Metrics read from an experiment's output.
#[derive(Debug)]
pub enum ParsedOutput {
    Json(JsonReport),
    Report(BenchReport),
}

/// Extracts metrics from an experiment's output.
pub struct OutputParser;

fn dimension_key_of(name: &str) -> (r: String)
    ensures
        r@ == dimension_key(name@),
{
    let t = trim_chars(&chars_of(name));
    let ts = string_of(&t);
    let low = to_lower(ts.as_str());
    let cs = chars_of(low.as_str());
    let mut out: Vec<char> = Vec::new();
    let mut i: usize = 0;
    while i < cs.len()
        invariant
            i <= cs.len(),
            cs@ == lowercase(trimmed(name@)),
            out@ == cs@.take(i as int).map_values(
                |c: char|
                    if c == ' ' || c == '/' {
                        '_'
                    } else {
                        c
                    },
            ),
        decreases cs.len() - i,
    {
        let c = cs[i];
        out.push(
            if c == ' ' || c == '/' {
                '_'
            } else {
                c
            },
        );
        assert(out@ =~= cs@.take(i + 1).map_values(
            |c: char|
                if c == ' ' || c == '/' {
                    '_'
                } else {
                    c
                },
        ));
        i += 1;
    }
    assert(cs@.take(cs.len() as int) =~= cs@);
    string_of(&out)
}

fn group_of(c: &Option<Vec<Option<String>>>, k: usize) -> (r: Option<String>)
    ensures
        text_opt(r) == group(groups_view(*c), k as int),
{
    match c {
        Some(g) => if k < g.len() {
            match &g[k] {
                Some(s) => Some(s.clone()),
                None => None,
            }
        } else {
            None
        },
        None => None,
    }
}

impl OutputParser {
    /// The metrics of the last line that holds them as JSON, if any.
    pub fn try_json(stdout: &str) -> (r: Option<JsonReport>)
        ensures
            match last_json_line(lines_of(stdout@)) {
                Some(k) => r matches Some(rep) && json_report_of(
                    rep,
                    json_object_entries(trimmed(lines_of(stdout@)[k]))->0,
                ),
                None => r is None,
            },
    {
        let lines = split_lines(&chars_of(stdout));
        let ghost ls = lines@.map_values(|l: Vec<char>| l@);
        let needle = chars_of("\"f1\"");
        let mut i: usize = lines.len();
        assert(ls.take(lines.len() as int) =~= ls);
        while i > 0
            invariant
                i <= lines.len(),
                ls == lines@.map_values(|l: Vec<char>| l@),
                ls == lines_of(stdout@),
                needle@ == "\"f1\""@,
                last_json_line(ls) == last_json_line(ls.take(i as int)),
            decreases i,
        {
            let t = trim_chars(&lines[i - 1]);
            assert(ls.take(i as int).last() == lines@[i - 1]@);
            assert(ls.take(i as int).drop_last() =~= ls.take(i - 1));
            if t.len() > 0 && t[0] == '{' && crate::text::contains_chars(&t, &needle) {
                let ts = string_of(&t);
                match json_entries(ts.as_str()) {
                    Some(entries) => {
                        assert(json_line(ls[i - 1]));
                        return Some(Self::json_report(&entries));
                    },
                    None => {},
                }
            }
            i -= 1;
        }
        None
    }

    /// Splits the entries of a JSON line into metrics, the benchmark score
    /// and the counts.
    pub fn json_report(entries: &Vec<(String, Option<String>)>) -> (r: JsonReport)
        ensures
            json_report_of(r, entries_view(Some(*entries))->0),
    {
        let ghost ev = entries_view(Some(*entries))->0;
        let mut nums: Vec<(String, String)> = Vec::new();
        let mut i: usize = 0;
        let ghost isnum = |e: (Seq<char>, Option<Seq<char>>)| e.1 is Some;
        let ghost val = |e: (Seq<char>, Option<Seq<char>>)| (e.0, e.1->0);
        assert(ev.take(0) =~= Seq::<(Seq<char>, Option<Seq<char>>)>::empty());
        while i < entries.len()
            invariant
                i <= entries.len(),
                ev == entries_view(Some(*entries))->0,
                isnum == (|e: (Seq<char>, Option<Seq<char>>)| e.1 is Some),
                val == (|e: (Seq<char>, Option<Seq<char>>)| (e.0, e.1->0)),
                nums@.map_values(|p: (String, String)| (p.0@, p.1@)) == ev.take(i as int).filter(
                    isnum,
                ).map_values(val),
            decreases entries.len() - i,
        {
            let ghost before = nums@.map_values(|p: (String, String)| (p.0@, p.1@));
            proof {
                assert(ev.take(i + 1) =~= ev.take(i as int).push(ev[i as int]));
                ev.take(i as int).lemma_filter_push(ev[i as int], isnum);
            }
            match &entries[i].1 {
                Some(v) => {
                    nums.push((entries[i].0.clone(), v.clone()));
                    assert(nums@.map_values(|p: (String, String)| (p.0@, p.1@)) =~= before.push(
                        val(ev[i as int]),
                    ));
                },
                None => {},
            }
            assert(ev.take(i + 1).filter(isnum).map_values(val) =~= if isnum(ev[i as int]) {
                ev.take(i as int).filter(isnum).map_values(val).push(val(ev[i as int]))
            } else {
                ev.take(i as int).filter(isnum).map_values(val)
            });
            i += 1;
        }
        assert(ev.take(entries.len() as int) =~= ev);
        let ghost nv = numeric_entries(ev);
        let ghost plain = |e: (Seq<char>, Seq<char>)| !is_special_key(e.0);
        let mut metrics: Vec<(String, String)> = Vec::new();
        let mut bench_score: Option<String> = None;
        let mut tp: Option<String> = None;
        let mut fp: Option<String> = None;
        let mut fn_: Option<String> = None;
        let mut j: usize = 0;
        let bs = "bench_score".to_owned();
        let tps = "true_positives".to_owned();
        let fps = "false_positives".to_owned();
        let fns = "false_negatives".to_owned();
        assert(nv.take(0) =~= Seq::<(Seq<char>, Seq<char>)>::empty());
        while j < nums.len()
            invariant
                j <= nums.len(),
                nv == nums@.map_values(|p: (String, String)| (p.0@, p.1@)),
                plain == (|e: (Seq<char>, Seq<char>)| !is_special_key(e.0)),
                bs@ == "bench_score"@,
                tps@ == "true_positives"@,
                fps@ == "false_positives"@,
                fns@ == "false_negatives"@,
                metrics@.map_values(|p: (String, String)| (p.0@, p.1@)) == nv.take(j as int).filter(plain),
                text_opt(bench_score) == lookup(nv.take(j as int), "bench_score"@),
                text_opt(tp) == lookup(nv.take(j as int), "true_positives"@),
                text_opt(fp) == lookup(nv.take(j as int), "false_positives"@),
                text_opt(fn_) == lookup(nv.take(j as int), "false_negatives"@),
            decreases nums.len() - j,
        {
            let ghost before = metrics@.map_values(|p: (String, String)| (p.0@, p.1@));
            proof {
                reveal_strlit("bench_score");
                reveal_strlit("true_positives");
                reveal_strlit("false_positives");
                reveal_strlit("false_negatives");
                assert("bench_score"@.len() != "true_positives"@.len());
                assert("bench_score"@.len() != "false_positives"@.len());
                assert("bench_score"@.len() != "false_negatives"@.len());
                assert("true_positives"@.len() != "false_positives"@.len());
                assert("true_positives"@.len() != "false_negatives"@.len());
                assert("false_positives"@[6] != "false_negatives"@[6]);
                assert(nv.take(j + 1) =~= nv.take(j as int).push(nv[j as int]));
                nv.take(j as int).lemma_filter_push(nv[j as int], plain);
                lemma_lookup_push(nv.take(j as int), nv[j as int], "bench_score"@);
                lemma_lookup_push(nv.take(j as int), nv[j as int], "true_positives"@);
                lemma_lookup_push(nv.take(j as int), nv[j as int], "false_positives"@);
                lemma_lookup_push(nv.take(j as int), nv[j as int], "false_negatives"@);
            }
            assert(nv[j as int] == (nums@[j as int].0@, nums@[j as int].1@));
            let k = &nums[j].0;
            if *k == bs {
                if bench_score.is_none() {
                    bench_score = Some(nums[j].1.clone());
                }
            } else if *k == tps {
                if tp.is_none() {
                    tp = Some(nums[j].1.clone());
                }
            } else if *k == fps {
                if fp.is_none() {
                    fp = Some(nums[j].1.clone());
                }
            } else if *k == fns {
                if fn_.is_none() {
                    fn_ = Some(nums[j].1.clone());
                }
            } else {
                metrics.push((nums[j].0.clone(), nums[j].1.clone()));
                assert(metrics@.map_values(|p: (String, String)| (p.0@, p.1@)) =~= before.push(
                    nv[j as int],
                ));
            }
            j += 1;
        }
        assert(nv.take(nums.len() as int) =~= nv);
        JsonReport { metrics, bench_score, true_positives: tp, false_positives: fp, false_negatives: fn_ }
    }
}

impl OutputParser {
    /// Adds one line of the benchmark report to `rep`, given what the four
    /// patterns captured on the line (see `update_report`).
    pub fn read_report_line(
        rep: BenchReport,
        bench: &Option<Vec<Option<String>>>,
        dimension: &Option<Vec<Option<String>>>,
        matches: &Option<Vec<Option<String>>>,
        make_miss: &Option<Vec<Option<String>>>,
    ) -> (r: BenchReport)
        ensures
            report_view(r) == update_report(
                report_view(rep),
                groups_view(*bench),
                groups_view(*dimension),
                groups_view(*matches),
                groups_view(*make_miss),
            ),
    {
        let ghost st = report_view(rep);
        let mut rep = rep;
        let b = group_of(bench, 1);
        match b {
            Some(text) => if is_decimal_text(text.as_str()) {
                rep.bench_score = Some(text);
            },
            None => {},
        }
        let name = group_of(dimension, 1);
        let score = group_of(dimension, 2);
        match (name, score) {
            (Some(n), Some(sc)) => if is_decimal_text(sc.as_str()) {
                let ghost before = rep.dimension_scores@.map_values(|p: (String, String)| (p.0@, p.1@));
                let key = dimension_key_of(n.as_str());
                rep.dimension_scores.push((key, sc));
                assert(rep.dimension_scores@.map_values(|p: (String, String)| (p.0@, p.1@)) =~= before.push(
                    (dimension_key(n@), sc@),
                ));
            },
            _ => {},
        }
        let g1 = group_of(matches, 1);
        let g2 = group_of(matches, 2);
        let g3 = group_of(matches, 3);
        match (g1, g2, g3) {
            (Some(a), Some(b), Some(c)) => {
                let counts = (parse_count(a.as_str()), parse_count(b.as_str()), parse_count(c.as_str()));
                rep.counts = Some(counts);
                if counts.0 > 0 {
                    rep.rated_counts = Some(counts);
                }
            },
            _ => {},
        }
        let p = group_of(make_miss, 3);
        match p {
            Some(text) => if is_decimal_text(text.as_str()) {
                rep.make_miss_percent = Some(text);
            },
            None => {},
        }
        assert(report_view(rep) =~~= update_report(
            st,
            groups_view(*bench),
            groups_view(*dimension),
            groups_view(*matches),
            groups_view(*make_miss),
        ));
        rep
    }

    /// Reads the benchmark report format, line by line.
    pub fn parse_bench_format(stdout: &str, stderr: &str) -> (r: BenchReport)
        ensures
            report_view(r) == read_report(lines_of(stdout@)),
    {
        let lines = split_lines(&chars_of(stdout));
        let ghost ls = lines@.map_values(|l: Vec<char>| l@);
        let mut rep = BenchReport {
            bench_score: None,
            dimension_scores: Vec::new(),
            counts: None,
            rated_counts: None,
            make_miss_percent: None,
        };
        let mut i: usize = 0;
        assert(report_view(rep) =~~= read_report(ls.take(0)));
        while i < lines.len()
            invariant
                i <= lines.len(),
                ls == lines@.map_values(|l: Vec<char>| l@),
                ls == lines_of(stdout@),
                report_view(rep) == read_report(ls.take(i as int)),
            decreases lines.len() - i,
        {
            let ghost st = report_view(rep);
            let t = trim_chars(&lines[i]);
            let line = string_of(&t);
            assert(ls.take(i + 1).drop_last() =~= ls.take(i as int));
            assert(ls.take(i + 1).last() == lines@[i as int]@);
            let ghost next = read_line(st, line@);
            rep = Self::read_report_line(
                rep,
                &captures(BENCH_PATTERN, line.as_str()),
                &captures(DIMENSION_PATTERN, line.as_str()),
                &captures(MATCHES_PATTERN, line.as_str()),
                &captures(MAKE_MISS_PATTERN, line.as_str()),
            );
            assert(report_view(rep) =~~= next);
            i += 1;
        }
        assert(ls.take(lines.len() as int) =~= ls);
        rep
    }

    /// Reads the metrics of an experiment's output: the last JSON line that
    /// holds them, or else the benchmark report format.
    pub fn parse(stdout: &str, stderr: &str) -> (r: ParsedOutput)
        ensures
            match last_json_line(lines_of(stdout@)) {
                Some(k) => r matches ParsedOutput::Json(rep) && json_report_of(
                    rep,
                    json_object_entries(trimmed(lines_of(stdout@)[k]))->0,
                ),
                None => r matches ParsedOutput::Report(rep) && report_view(rep) == read_report(
                    lines_of(stdout@),
                ),
            },
    {
        match Self::try_json(stdout) {
            Some(rep) => ParsedOutput::Json(rep),
            None => ParsedOutput::Report(Self::parse_bench_format(stdout, stderr)),
        }
    }
}

/// Looking a key up after one more entry: the earlier entries still come first.
proof fn lemma_lookup_push(s: Seq<(Seq<char>, Seq<char>)>, e: (Seq<char>, Seq<char>), key: Seq<char>)
    ensures
        lookup(s.push(e), key) == match lookup(s, key) {
            Some(v) => Some(v),
            None => if e.0 == key {
                Some(e.1)
            } else {
                None
            },
        },
    decreases s.len(),
{
    if s.len() > 0 {
        assert(s.push(e)[0] == s[0]);
        assert(s.push(e).drop_first() =~= s.drop_first().push(e));
        lemma_lookup_push(s.drop_first(), e, key);
    } else {
        assert(s.push(e)[0] == e);
        assert(s.push(e).drop_first() =~= s);
    }
}


/// The line that holds the metrics is the last line that, trimmed, starts
/// with `{`, mentions `"f1"` in quotes and reads as a JSON object; a line
/// that lacks any of these (a JSON log line without `"f1"`, say) is never
/// taken, and when no line has all of them there is no metrics line.
pub proof fn lemma_metrics_line_is_last_f1_object(lines: Seq<Seq<char>>)
    ensures
        match last_json_line(lines) {
            Some(k) => {
                &&& 0 <= k < lines.len()
                &&& trimmed(lines[k]).len() > 0
                &&& trimmed(lines[k])[0] == '{'
                &&& has_infix(trimmed(lines[k]), "\"f1\""@)
                &&& json_object_entries(trimmed(lines[k])) is Some
                &&& forall|j: int|
                    k < j < lines.len() ==> !(trimmed(#[trigger] lines[j]).len() > 0 && trimmed(lines[j])[0] == '{'
                        && has_infix(trimmed(lines[j]), "\"f1\""@) && json_object_entries(trimmed(lines[j])) is Some)
            },
            None => forall|j: int|
                0 <= j < lines.len() ==> !(trimmed(#[trigger] lines[j]).len() > 0 && trimmed(lines[j])[0] == '{'
                    && has_infix(trimmed(lines[j]), "\"f1\""@) && json_object_entries(trimmed(lines[j])) is Some),
        },
    decreases lines.len(),
{
    if lines.len() > 0 {
        let last = lines.len() - 1;
        if !json_line(lines.last()) {
            lemma_metrics_line_is_last_f1_object(lines.drop_last());
            assert forall|j: int| 0 <= j < last implies #[trigger] lines[j] == lines.drop_last()[j] by {}
            assert(lines[last] == lines.last());
        }
    }
}

} // verus!
