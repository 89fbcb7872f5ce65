//! Terminal styling of command-line output: ANSI colours and bold text from
//! `owo-colors`, section headers and target indicators.

use owo_colors::OwoColorize;
use vstd::prelude::*;
use crate::text::extend_str;
use crate::text::string_of;

verus! {

/// `s` in green: the ANSI foreground code 32, then `s`, then the code that
/// restores the default foreground colour.
pub open spec fn green_text(s: Seq<char>) -> Seq<char> {
    "\x1b[32m"@ + s + "\x1b[39m"@
}

/// `s` in red (ANSI foreground code 31).
pub open spec fn red_text(s: Seq<char>) -> Seq<char> {
    "\x1b[31m"@ + s + "\x1b[39m"@
}

/// `s` in yellow (ANSI foreground code 33).
pub open spec fn yellow_text(s: Seq<char>) -> Seq<char> {
    "\x1b[33m"@ + s + "\x1b[39m"@
}

/// `s` in bold: the ANSI bold code, then `s`, then the reset code.
pub open spec fn bold_text(s: Seq<char>) -> Seq<char> {
    "\x1b[1m"@ + s + "\x1b[0m"@
}

/// `OwoColorize::green`, displayed: the source writes `\x1b[32m`, the text
/// and `\x1b[39m`, whatever the terminal supports.
#[verifier::external_body]
fn paint_green(s: &str) -> (r: String)
    ensures
        r@ == green_text(s@),
{
    s.green().to_string()
}

/// `OwoColorize::red`, displayed: `\x1b[31m`, the text, `\x1b[39m`.
#[verifier::external_body]
fn paint_red(s: &str) -> (r: String)
    ensures
        r@ == red_text(s@),
{
    s.red().to_string()
}

/// `OwoColorize::yellow`, displayed: `\x1b[33m`, the text, `\x1b[39m`.
#[verifier::external_body]
fn paint_yellow(s: &str) -> (r: String)
    ensures
        r@ == yellow_text(s@),
{
    s.yellow().to_string()
}

/// `OwoColorize::bold`, displayed: `\x1b[1m`, the text, `\x1b[0m`.
#[verifier::external_body]
fn paint_bold(s: &str) -> (r: String)
    ensures
        r@ == bold_text(s@),
{
    s.bold().to_string()
}

/// A target status indicator: bold green `MET` or bold red `MISS`.
pub fn target_status(met: bool) -> (r: String)
    ensures
        r@ == (if met {
            bold_text(green_text("MET"@))
        } else {
            bold_text(red_text("MISS"@))
        }),
{
    if met {
        let g = paint_green("MET");
        paint_bold(g.as_str())
    } else {
        let red = paint_red("MISS");
        paint_bold(red.as_str())
    }
}

/// A line of sixty `=` characters.
pub open spec fn separator_line() -> Seq<char> {
    Seq::new(60, |i: int| '=')
}

/// A section header: a separator line, the title in bold indented by two
/// spaces, and another separator line.
pub open spec fn section_text(title: Seq<char>) -> Seq<char> {
    separator_line() + "\n  "@ + bold_text(title) + "\n"@ + separator_line()
}

/// Formats a section header around `title`.
pub fn section(title: &str) -> (r: String)
    ensures
        r@ == section_text(title@),
{
    let mut sep: Vec<char> = Vec::new();
    let mut i: usize = 0;
    while i < 60
        invariant
            i <= 60,
            sep@ == Seq::new(i as nat, |j: int| '='),
        decreases 60 - i,
    {
        sep.push('=');
        i += 1;
        assert(sep@ =~= Seq::new(i as nat, |j: int| '='));
    }
    let mut out: Vec<char> = sep.clone();
    extend_str(&mut out, "\n  ");
    let b = paint_bold(title);
    extend_str(&mut out, b.as_str());
    extend_str(&mut out, "\n");
    let sep_s = string_of(&sep);
    extend_str(&mut out, sep_s.as_str());
    string_of(&out)
}

/// A warning message, in yellow.
pub fn warn(msg: &str) -> (r: String)
    ensures
        r@ == yellow_text(msg@),
{
    paint_yellow(msg)
}

} // verus!
