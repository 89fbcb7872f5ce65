//! Classification of failed experiment runs from their output: each known
//! error pattern is looked for, case-insensitively, in the combined standard
//! error and standard output, and the first one found decides the error code,
//! whether a retry makes sense and how long to wait before it.

use vstd::prelude::*;
use crate::text::{chars_of, contains_chars, extend_str, has_infix, lines_of, lowercase, prefix_of_len, split_lines, string_of, to_lower};

verus! {

/// The kind of a classified error.
#[derive(Debug, PartialEq, Eq)]
pub enum ErrorCode {
    GpuOom,
    QuotaExceeded,
    Timeout,
    ResourceNotFound,
    MissingDependency,
    AuthError,
    Custom(String),
}

impl Clone for ErrorCode {
    fn clone(&self) -> (r: Self)
        ensures
            r == *self,
    {
        match self {
            ErrorCode::GpuOom => ErrorCode::GpuOom,
            ErrorCode::QuotaExceeded => ErrorCode::QuotaExceeded,
            ErrorCode::Timeout => ErrorCode::Timeout,
            ErrorCode::ResourceNotFound => ErrorCode::ResourceNotFound,
            ErrorCode::MissingDependency => ErrorCode::MissingDependency,
            ErrorCode::AuthError => ErrorCode::AuthError,
            ErrorCode::Custom(s) => ErrorCode::Custom(s.clone()),
        }
    }
}

/// A classified error.
#[derive(Debug)]
pub struct ErrorInfo {
    pub code: ErrorCode,
    /// The first output line that holds the pattern, cut to 200 characters.
    pub message: String,
    pub retryable: bool,
    pub retry_after_secs: u64,
}

/// A pattern to look for, and what it means when found.
pub struct ErrorPattern {
    pub pattern: String,
    pub code: ErrorCode,
    pub retryable: bool,
    pub retry_after_secs: u64,
}

/// The error patterns, tried in order.
pub struct ErrorClassifier {
    patterns: Vec<ErrorPattern>,
}

/// The text searched: standard error, a line feed, standard output.
pub open spec fn combined_output(stderr: Seq<char>, stdout: Seq<char>) -> Seq<char> {
    stderr + "\n"@ + stdout
}

/// `pattern` occurs in `text`, both lower-cased.
pub open spec fn mentions(text: Seq<char>, pattern: Seq<char>) -> bool {
    has_infix(lowercase(text), lowercase(pattern))
}

/// The first of `lines` that mentions `pattern`, or the empty text.
pub open spec fn first_line_mentioning(lines: Seq<Seq<char>>, pattern: Seq<char>) -> Seq<char>
    decreases lines.len(),
{
    if lines.len() == 0 {
        seq![]
    } else if mentions(lines[0], pattern) {
        lines[0]
    } else {
        first_line_mentioning(lines.drop_first(), pattern)
    }
}

/// The message recorded for `pattern` found in `text`: the first line of
/// `text` that mentions it, cut to its first 200 characters.
pub open spec fn excerpt(text: Seq<char>, pattern: Seq<char>) -> Seq<char> {
    prefix_of_len(first_line_mentioning(lines_of(text), pattern), 200)
}

/// What is known of an `ErrorInfo`: code, message text, retry flag and delay.
pub open spec fn info_view(i: ErrorInfo) -> (ErrorCode, Seq<char>, bool, u64) {
    (i.code, i.message@, i.retryable, i.retry_after_secs)
}

/// The classification of `text` by `patterns`: the first pattern that the
/// text mentions decides it; none when no pattern is mentioned.
pub open spec fn classification(patterns: Seq<ErrorPattern>, text: Seq<char>) -> Option<
    (ErrorCode, Seq<char>, bool, u64),
>
    decreases patterns.len(),
{
    if patterns.len() == 0 {
        None
    } else if mentions(text, patterns[0].pattern@) {
        Some(
            (
                patterns[0].code,
                excerpt(text, patterns[0].pattern@),
                patterns[0].retryable,
                patterns[0].retry_after_secs,
            ),
        )
    } else {
        classification(patterns.drop_first(), text)
    }
}

/// The built-in patterns: GPU out of memory, quota, timeout, missing
/// resource, missing module.
pub open spec fn builtin_patterns(p: Seq<ErrorPattern>) -> bool {
    &&& p.len() == 5
    &&& p[0].pattern@ == "CUDA out of memory"@ && p[0].code == ErrorCode::GpuOom && p[0].retryable
        && p[0].retry_after_secs == 60
    &&& p[1].pattern@ == "quota"@ && p[1].code == ErrorCode::QuotaExceeded && p[1].retryable
        && p[1].retry_after_secs == 300
    &&& p[2].pattern@ == "TimeoutError"@ && p[2].code == ErrorCode::Timeout && p[2].retryable
        && p[2].retry_after_secs == 0
    &&& p[3].pattern@ == "not found"@ && p[3].code == ErrorCode::ResourceNotFound
        && !p[3].retryable && p[3].retry_after_secs == 0
    &&& p[4].pattern@ == "ModuleNotFoundError"@ && p[4].code == ErrorCode::MissingDependency
        && !p[4].retryable && p[4].retry_after_secs == 0
}

fn pattern(text: &str, code: ErrorCode, retryable: bool, retry_after_secs: u64) -> (r:
    ErrorPattern)
    ensures
        r.pattern@ == text@,
        r.code == code,
        r.retryable == retryable,
        r.retry_after_secs == retry_after_secs,
{
    ErrorPattern { pattern: text.to_owned(), code, retryable, retry_after_secs }
}

/// The first `n` characters of `s` (all of them when it has fewer).
pub fn take_chars(s: &Vec<char>, n: usize) -> (r: Vec<char>)
    ensures
        r@ == prefix_of_len(s@, n as nat),
{
    let mut r: Vec<char> = Vec::new();
    let mut i: usize = 0;
    while i < s.len() && i < n
        invariant
            i <= s.len(),
            i <= n,
            r@ == s@.take(i as int),
        decreases s.len() - i,
    {
        r.push(s[i]);
        i += 1;
        assert(r@ =~= s@.take(i as int));
    }
    assert(s.len() <= n ==> s@.take(s.len() as int) =~= s@);
    r
}

/// Decides `mentions(text@, pattern@)`.
pub fn text_mentions(text: &str, pattern: &str) -> (r: bool)
    ensures
        r == mentions(text@, pattern@),
{
    let lt = to_lower(text);
    let lp = to_lower(pattern);
    let a = chars_of(lt.as_str());
    let b = chars_of(lp.as_str());
    contains_chars(&a, &b)
}

/// The message recorded for `pattern` found in `text`.
pub fn excerpt_of(text: &Vec<char>, pattern: &str) -> (r: String)
    ensures
        r@ == excerpt(text@, pattern@),
{
    let lines = split_lines(text);
    let ghost lv = lines@.map_values(|l: Vec<char>| l@);
    let mut i: usize = 0;
    assert(lv.skip(0) =~= lv);
    while i < lines.len()
        invariant
            i <= lines.len(),
            lv == lines@.map_values(|l: Vec<char>| l@),
            lv == lines_of(text@),
            first_line_mentioning(lv, pattern@) == first_line_mentioning(lv.skip(i as int), pattern@),
        decreases lines.len() - i,
    {
        let line = string_of(&lines[i]);
        assert(lv.skip(i as int)[0] == line@);
        if text_mentions(line.as_str(), pattern) {
            let cut = take_chars(&lines[i], 200);
            return string_of(&cut);
        }
        assert(lv.skip(i as int).drop_first() =~= lv.skip(i + 1));
        i += 1;
    }
    let empty: Vec<char> = Vec::new();
    assert(lv.skip(i as int) =~= Seq::<Seq<char>>::empty());
    assert(prefix_of_len(Seq::<char>::empty(), 200) =~= empty@);
    string_of(&empty)
}

impl ErrorClassifier {
    /// The patterns, in the order they are tried.
    pub closed spec fn spec_patterns(&self) -> Seq<ErrorPattern> {
        self.patterns@
    }

    /// A classifier with the built-in patterns.
    pub fn new() -> (r: Self)
        ensures
            builtin_patterns(r.spec_patterns()),
    {
        let mut patterns: Vec<ErrorPattern> = Vec::new();
        patterns.push(pattern("CUDA out of memory", ErrorCode::GpuOom, true, 60));
        patterns.push(pattern("quota", ErrorCode::QuotaExceeded, true, 300));
        patterns.push(pattern("TimeoutError", ErrorCode::Timeout, true, 0));
        patterns.push(pattern("not found", ErrorCode::ResourceNotFound, false, 0));
        patterns.push(pattern("ModuleNotFoundError", ErrorCode::MissingDependency, false, 0));
        ErrorClassifier { patterns }
    }

    /// Adds a pattern, tried after all the others.
    pub fn add_pattern(&mut self, pattern: ErrorPattern)
        ensures
            final(self).spec_patterns() == old(self).spec_patterns().push(pattern),
    {
        self.patterns.push(pattern);
    }

    /// Classifies a run by its standard error and standard output.
    pub fn classify(&self, stderr: &str, stdout: &str) -> (r: Option<ErrorInfo>)
        ensures
            match r {
                Some(info) => classification(
                    self.spec_patterns(),
                    combined_output(stderr@, stdout@),
                ) == Some(info_view(info)),
                None => classification(self.spec_patterns(), combined_output(stderr@, stdout@))
                    is None,
            },
    {
        let mut text: Vec<char> = Vec::new();
        extend_str(&mut text, stderr);
        extend_str(&mut text, "\n");
        extend_str(&mut text, stdout);
        let combined = string_of(&text);
        let ghost ps = self.patterns@;
        let mut i: usize = 0;
        assert(ps.skip(0) =~= ps);
        while i < self.patterns.len()
            invariant
                i <= self.patterns.len(),
                ps == self.patterns@,
                text@ == combined_output(stderr@, stdout@),
                combined@ == text@,
                classification(ps, text@) == classification(ps.skip(i as int), text@),
            decreases self.patterns.len() - i,
        {
            let pat = &self.patterns[i];
            assert(ps.skip(i as int)[0] == *pat);
            if text_mentions(combined.as_str(), pat.pattern.as_str()) {
                let message = excerpt_of(&text, pat.pattern.as_str());
                return Some(
                    ErrorInfo {
                        code: pat.code.clone(),
                        message,
                        retryable: pat.retryable,
                        retry_after_secs: pat.retry_after_secs,
                    },
                );
            }
            assert(ps.skip(i as int).drop_first() =~= ps.skip(i + 1));
            i += 1;
        }
        assert(ps.skip(i as int) =~= Seq::<ErrorPattern>::empty());
        None
    }
}

impl Default for ErrorClassifier {
    fn default() -> (r: Self)
        ensures
            builtin_patterns(r.spec_patterns()),
    {
        Self::new()
    }
}


/// The first matching pattern decides: appending a pattern never changes a
/// text that the earlier patterns already classify, and classifies the
/// others by the new pattern alone.
pub proof fn lemma_classification_append(patterns: Seq<ErrorPattern>, extra: ErrorPattern, text: Seq<char>)
    ensures
        classification(patterns.push(extra), text) == match classification(patterns, text) {
            Some(c) => Some(c),
            None => classification(seq![extra], text),
        },
    decreases patterns.len(),
{
    if patterns.len() == 0 {
        assert(patterns.push(extra) =~= seq![extra]);
    } else {
        assert(patterns.push(extra)[0] == patterns[0]);
        assert(patterns.push(extra).drop_first() =~= patterns.drop_first().push(extra));
        lemma_classification_append(patterns.drop_first(), extra, text);
    }
}

/// A classification's message is at most 200 characters long.
pub proof fn lemma_message_bounded(patterns: Seq<ErrorPattern>, text: Seq<char>)
    ensures
        classification(patterns, text) matches Some(c) ==> c.1.len() <= 200,
    decreases patterns.len(),
{
    if patterns.len() > 0 {
        lemma_message_bounded(patterns.drop_first(), text);
    }
}

} // verus!
