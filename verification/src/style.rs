//! Emphasis on a terminal.

use crate::text;
use owo_colors::OwoColorize;
use vstd::prelude::*;

verus! {

/// A text between the escape sequences that switch a color on and off.
pub open spec fn colored(code: Seq<char>, s: Seq<char>) -> Seq<char> {
    "\x1b["@ + code + "m"@ + s + "\x1b[39m"@
}

/// A text in green.
pub open spec fn in_green(s: Seq<char>) -> Seq<char> {
    colored("32"@, s)
}

/// A text in red.
pub open spec fn in_red(s: Seq<char>) -> Seq<char> {
    colored("31"@, s)
}

/// A text in yellow.
pub open spec fn in_yellow(s: Seq<char>) -> Seq<char> {
    colored("33"@, s)
}

/// A text in bold type. The sequence at the end resets everything.
pub open spec fn in_bold(s: Seq<char>) -> Seq<char> {
    "\x1b[1m"@ + s + "\x1b[0m"@
}

/// `OwoColorize::green` of owo-colors, shown: the text behind `ESC [32m` and in
/// front of `ESC [39m`.
#[verifier::external_body]
pub(crate) fn green(s: &str) -> (colored: String)
    ensures
        colored@ == in_green(s@),
{
    s.green().to_string()
}

/// `OwoColorize::red` of owo-colors, shown: the text behind `ESC [31m` and in
/// front of `ESC [39m`.
#[verifier::external_body]
pub(crate) fn red(s: &str) -> (colored: String)
    ensures
        colored@ == in_red(s@),
{
    s.red().to_string()
}

/// `OwoColorize::yellow` of owo-colors, shown: the text behind `ESC [33m` and in
/// front of `ESC [39m`.
#[verifier::external_body]
pub(crate) fn yellow(s: &str) -> (colored: String)
    ensures
        colored@ == in_yellow(s@),
{
    s.yellow().to_string()
}

/// `OwoColorize::bold` of owo-colors, shown: the text behind `ESC [1m` and in
/// front of `ESC [0m`.
#[verifier::external_body]
pub(crate) fn bold(s: &str) -> (bold: String)
    ensures
        bold@ == in_bold(s@),
{
    s.bold().to_string()
}

/// An emphasized text holds the text, and what that holds.
pub proof fn law_emphasis_keeps_the_text(s: Seq<char>, part: Seq<char>)
    requires
        text::holds_text(s, part),
    ensures
        text::holds_text(in_green(s), part),
        text::holds_text(in_red(s), part),
        text::holds_text(in_yellow(s), part),
        text::holds_text(in_bold(s), part),
{
    text::lemma_holds_within("\x1b["@ + "32"@ + "m"@, s, "\x1b[39m"@, part);
    text::lemma_holds_within("\x1b["@ + "31"@ + "m"@, s, "\x1b[39m"@, part);
    text::lemma_holds_within("\x1b["@ + "33"@ + "m"@, s, "\x1b[39m"@, part);
    text::lemma_holds_within("\x1b[1m"@, s, "\x1b[0m"@, part);
}

} // verus!
