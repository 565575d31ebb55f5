//! The escape sequences of the `anstyle` crate that package lines are
//! coloured with.
//!
//! Nothing here is proved: each contract gives the text that the source of
//! `anstyle` shows for the style.

use vstd::prelude::*;

verus! {

/// `Style::new().bold()` of `anstyle`, rendered by its `Display`: the escape
/// sequence that switches bold on.
#[verifier::external_body]
pub(crate) fn bold() -> (code: String)
    ensures
        code@ == "\x1b[1m"@,
{
    format!("{}", anstyle::Style::new().bold())
}

/// `Style::new().bold().fg_color(..)` of `anstyle` with `AnsiColor::Green`,
/// rendered by its `Display`: the escape sequence for bold, then the one for
/// a green foreground.
#[verifier::external_body]
pub(crate) fn bold_green() -> (code: String)
    ensures
        code@ == "\x1b[1m\x1b[32m"@,
{
    format!(
        "{}",
        anstyle::Style::new().bold().fg_color(Some(anstyle::AnsiColor::Green.into()))
    )
}

/// `Reset` of `anstyle`, rendered by its `Display`: the escape sequence that
/// switches all styling off.
#[verifier::external_body]
pub(crate) fn reset() -> (code: String)
    ensures
        code@ == "\x1b[0m"@,
{
    format!("{}", anstyle::Reset)
}

} // verus!
