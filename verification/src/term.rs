//! The escape sequences that the display is made of.
//!
//! The sequences come from the `termion` crate. Every function of this
//! module hands out one of them as a string and states which characters it
//! holds; those statements are taken on trust.

use crate::text::decimal;
use vstd::prelude::*;

verus! {

/// Introduces a control sequence.
pub const CSI: &'static str = "\u{1b}[";

/// Clears the line that the cursor is on.
pub const CLEAR_LINE: &'static str = "\u{1b}[2K";

/// Clears everything after the cursor.
pub const CLEAR_AFTER: &'static str = "\u{1b}[J";

/// Red text.
pub const FG_RED: &'static str = "\u{1b}[38;5;1m";

/// Blue text.
pub const FG_BLUE: &'static str = "\u{1b}[38;5;4m";

/// Light green text.
pub const FG_LIGHT_GREEN: &'static str = "\u{1b}[38;5;10m";

/// Text in the default colour.
pub const FG_RESET: &'static str = "\u{1b}[39m";

/// The default background.
pub const BG_RESET: &'static str = "\u{1b}[49m";

/// The sequence that moves the cursor to column `x` of row `y`.
pub open spec fn goto_sequence(x: u16, y: u16) -> Seq<char> {
    CSI@ + decimal(y as nat) + ";"@ + decimal(x as nat) + "H"@
}

/// The sequence that scrolls the display up by `n` rows.
pub open spec fn scroll_sequence(n: u16) -> Seq<char> {
    CSI@ + decimal(n as nat) + "S"@
}

/// The sequence that sets the background to the colour with the given
/// parts of red, green and blue.
pub open spec fn background_sequence(r: u8, g: u8, b: u8) -> Seq<char> {
    CSI@ + "48;2;"@ + decimal(r as nat) + ";"@ + decimal(g as nat) + ";"@ + decimal(b as nat)
        + "m"@
}

/// What `termion::clear::CurrentLine` displays: the control sequence `2K`.
#[verifier::external_body]
pub(crate) fn clear_line() -> (s: String)
    ensures
        s@ == CLEAR_LINE@,
{
    format!("{}", termion::clear::CurrentLine)
}

/// What `termion::clear::AfterCursor` displays: the control sequence `J`.
#[verifier::external_body]
pub(crate) fn clear_after() -> (s: String)
    ensures
        s@ == CLEAR_AFTER@,
{
    format!("{}", termion::clear::AfterCursor)
}

/// What `termion::cursor::Goto(x, y)` displays: the row, a semicolon and
/// the column, both in decimal, between the introducer and `H`. The crate
/// refuses the position (0, 0) in builds that check assertions.
#[verifier::external_body]
pub(crate) fn goto(x: u16, y: u16) -> (s: String)
    requires
        x != 0 || y != 0,
    ensures
        s@ == goto_sequence(x, y),
{
    format!("{}", termion::cursor::Goto(x, y))
}

/// What `termion::scroll::Up(n)` displays: `n` in decimal between the
/// introducer and `S`.
#[verifier::external_body]
pub(crate) fn scroll_up(n: u16) -> (s: String)
    ensures
        s@ == scroll_sequence(n),
{
    format!("{}", termion::scroll::Up(n))
}

/// What `termion::color::Fg(termion::color::Red)` displays: the control
/// sequence that selects colour 1 of the palette for the text.
#[verifier::external_body]
pub(crate) fn fg_red() -> (s: String)
    ensures
        s@ == FG_RED@,
{
    format!("{}", termion::color::Fg(termion::color::Red))
}

/// What `termion::color::Fg(termion::color::Blue)` displays: the control
/// sequence that selects colour 4 of the palette for the text.
#[verifier::external_body]
pub(crate) fn fg_blue() -> (s: String)
    ensures
        s@ == FG_BLUE@,
{
    format!("{}", termion::color::Fg(termion::color::Blue))
}

/// What `termion::color::Fg(termion::color::LightGreen)` displays: the
/// control sequence that selects colour 10 of the palette for the text.
#[verifier::external_body]
pub(crate) fn fg_light_green() -> (s: String)
    ensures
        s@ == FG_LIGHT_GREEN@,
{
    format!("{}", termion::color::Fg(termion::color::LightGreen))
}

/// What `termion::color::Fg(termion::color::Reset)` displays: the control
/// sequence `39m`.
#[verifier::external_body]
pub(crate) fn fg_reset() -> (s: String)
    ensures
        s@ == FG_RESET@,
{
    format!("{}", termion::color::Fg(termion::color::Reset))
}

/// What `termion::color::Bg(termion::color::Reset)` displays: the control
/// sequence `49m`.
#[verifier::external_body]
pub(crate) fn bg_reset() -> (s: String)
    ensures
        s@ == BG_RESET@,
{
    format!("{}", termion::color::Bg(termion::color::Reset))
}

/// What `termion::color::Bg(termion::color::Rgb(r, g, b))` displays: the
/// three parts in decimal, separated by semicolons, between `48;2;` and
/// `m`.
#[verifier::external_body]
pub(crate) fn bg_rgb(r: u8, g: u8, b: u8) -> (s: String)
    ensures
        s@ == background_sequence(r, g, b),
{
    format!("{}", termion::color::Bg(termion::color::Rgb(r, g, b)))
}

} // verus!
