use vstd::prelude::*;
use colored::Colorize;

verus! {

/// How a piece of report text is emphasised on a terminal.
#[derive(Clone, Copy, Debug, PartialEq, Eq, Structural)]
pub enum Tone {
    Plain,
    Underline,
    Dim,
    Warning,
    Error,
    Marker,
}

/// Relies on colored's `underline` and its `Display`; what it writes depends on
/// colored's process-wide setting, so nothing is promised of it.
#[verifier::external_body]
fn underlined(s: &str) -> String {
    s.underline().to_string()
}

/// Relies on colored's `dimmed` and its `Display`; what it writes depends on
/// colored's process-wide setting, so nothing is promised of it.
#[verifier::external_body]
fn dimmed(s: &str) -> String {
    s.dimmed().to_string()
}

/// Relies on colored's `yellow` and its `Display`; what it writes depends on
/// colored's process-wide setting, so nothing is promised of it.
#[verifier::external_body]
fn yellow(s: &str) -> String {
    s.yellow().to_string()
}

/// Relies on colored's `red` and its `Display`; what it writes depends on
/// colored's process-wide setting, so nothing is promised of it.
#[verifier::external_body]
fn red(s: &str) -> String {
    s.red().to_string()
}

/// Relies on colored's `red`, `bold` and its `Display`; what it writes depends
/// on colored's process-wide setting, so nothing is promised of it.
#[verifier::external_body]
fn red_bold(s: &str) -> String {
    s.red().bold().to_string()
}

/// Styles a piece of text. Without the terminal capability, or in the plain
/// tone, the text comes back as it is, with no control sequence added.
pub fn paint(text: &str, tone: Tone, colorize: bool) -> (r: String)
    ensures
        !colorize || tone == Tone::Plain ==> r@ == text@,
{
    if !colorize {
        return text.to_owned();
    }
    match tone {
        Tone::Plain => text.to_owned(),
        Tone::Underline => underlined(text),
        Tone::Dim => dimmed(text),
        Tone::Warning => yellow(text),
        Tone::Error => red(text),
        Tone::Marker => red_bold(text),
    }
}

} // verus!
