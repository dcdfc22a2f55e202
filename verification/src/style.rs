//! Terminal styling: exact SGR escape bracketing, with the painting itself
//! done by `ansi_term`.

use vstd::prelude::*;

verus! {

/// The SGR sequence that resets all styling: `ESC [ 0 m`.
pub open spec fn sgr_reset() -> Seq<char> {
    seq!['\u{1b}', '[', '0', 'm']
}

/// Text bracketed by the bold-green SGR sequence `ESC [ 1 ; 3 2 m` and a reset.
pub open spec fn green_bold_of(s: Seq<char>) -> Seq<char> {
    seq!['\u{1b}', '[', '1', ';', '3', '2', 'm'] + s + sgr_reset()
}

/// Text bracketed by the bold-red SGR sequence `ESC [ 1 ; 3 1 m` and a reset.
pub open spec fn red_bold_of(s: Seq<char>) -> Seq<char> {
    seq!['\u{1b}', '[', '1', ';', '3', '1', 'm'] + s + sgr_reset()
}

/// Text bracketed by the underlined-white SGR sequence `ESC [ 4 ; 3 7 m` and a reset.
pub open spec fn white_underline_of(s: Seq<char>) -> Seq<char> {
    seq!['\u{1b}', '[', '4', ';', '3', '7', 'm'] + s + sgr_reset()
}

/// Text bracketed by the white SGR sequence `ESC [ 3 7 m` and a reset.
pub open spec fn white_of(s: Seq<char>) -> Seq<char> {
    seq!['\u{1b}', '[', '3', '7', 'm'] + s + sgr_reset()
}

/// Relies on `ansi_term::Colour::bold` and `Style::paint`: a bold style with a
/// green foreground writes the prefix `ESC[1;32m` (bold code first, then the
/// foreground code 32), the text, and the suffix `ESC[0m`.
#[verifier::external_body]
pub(crate) fn paint_green_bold(s: &str) -> (r: String)
    ensures
        r@ == green_bold_of(s@),
{
    ansi_term::Colour::Green.bold().paint(s).to_string()
}

/// Relies on `ansi_term::Colour::bold` and `Style::paint`: a bold style with a
/// red foreground writes the prefix `ESC[1;31m`, the text, and `ESC[0m`.
#[verifier::external_body]
pub(crate) fn paint_red_bold(s: &str) -> (r: String)
    ensures
        r@ == red_bold_of(s@),
{
    ansi_term::Colour::Red.bold().paint(s).to_string()
}

/// Relies on `ansi_term::Colour::underline` and `Style::paint`: an underlined
/// style with a white foreground writes the prefix `ESC[4;37m` (underline code
/// 4 first, then the foreground code 37), the text, and `ESC[0m`.
#[verifier::external_body]
pub(crate) fn paint_white_underline(s: &str) -> (r: String)
    ensures
        r@ == white_underline_of(s@),
{
    ansi_term::Colour::White.underline().paint(s).to_string()
}

/// Relies on `ansi_term::Colour::paint`: a plain white foreground writes the
/// prefix `ESC[37m`, the text, and the suffix `ESC[0m`.
#[verifier::external_body]
pub(crate) fn paint_white(s: &str) -> (r: String)
    ensures
        r@ == white_of(s@),
{
    ansi_term::Colour::White.paint(s).to_string()
}

} // verus!
