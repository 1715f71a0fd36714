//! The codes that steer the terminal: what is taken as given of the `termion` crate, and of how
//! the standard library writes a value as text.

use vstd::prelude::*;

verus! {

/// The decimal digit for a number below ten.
pub open spec fn digit(n: nat) -> char {
    ((48 + n) as u8) as char
}

/// A number in decimal digits.
pub open spec fn decimal(n: nat) -> Seq<char>
    decreases n,
{
    if n < 10 {
        seq![digit(n)]
    } else {
        decimal(n / 10).push(digit(n % 10))
    }
}

/// The code that puts the cursor at a column and a row, both counted from one.
pub open spec fn goto_code(column: u16, row: u16) -> Seq<char> {
    "\x1b["@ + decimal(row as nat) + ";"@ + decimal(column as nat) + "H"@
}

/// The code that makes what follows appear in a colour.
pub open spec fn fg_code(color: u8) -> Seq<char> {
    "\x1b[38;5;"@ + decimal(color as nat) + "m"@
}

/// The code that makes what follows appear on a colour.
pub open spec fn bg_code(color: u8) -> Seq<char> {
    "\x1b[48;5;"@ + decimal(color as nat) + "m"@
}

/// The code of `termion::cursor::Goto`: it names the row, then the column. The place with both
/// numbers zero is refused by an assertion in it.
#[verifier::external_body]
pub(crate) fn goto(column: u16, row: u16) -> (code: String)
    requires
        column != 0 || row != 0,
    ensures
        code@ == goto_code(column, row),
{
    format!("{}", termion::cursor::Goto(column, row))
}

/// The code of `termion::color::Fg` for a `termion::color::AnsiValue`.
#[verifier::external_body]
pub(crate) fn fg(color: u8) -> (code: String)
    ensures
        code@ == fg_code(color),
{
    format!("{}", termion::color::Fg(termion::color::AnsiValue(color)))
}

/// The code of `termion::color::Bg` for a `termion::color::AnsiValue`.
#[verifier::external_body]
pub(crate) fn bg(color: u8) -> (code: String)
    ensures
        code@ == bg_code(color),
{
    format!("{}", termion::color::Bg(termion::color::AnsiValue(color)))
}

/// The code of `termion::color::Fg` for `termion::color::Reset`.
#[verifier::external_body]
pub(crate) fn fg_reset() -> (code: String)
    ensures
        code@ == "\x1b[39m"@,
{
    format!("{}", termion::color::Fg(termion::color::Reset))
}

/// The code of `termion::color::Bg` for `termion::color::Reset`.
#[verifier::external_body]
pub(crate) fn bg_reset() -> (code: String)
    ensures
        code@ == "\x1b[49m"@,
{
    format!("{}", termion::color::Bg(termion::color::Reset))
}

/// The code of `termion::clear::All`.
#[verifier::external_body]
pub(crate) fn clear_all() -> (code: String)
    ensures
        code@ == "\x1b[2J"@,
{
    format!("{}", termion::clear::All)
}

/// The code of `termion::cursor::Show`.
#[verifier::external_body]
pub(crate) fn show_cursor() -> (code: String)
    ensures
        code@ == "\x1b[?25h"@,
{
    format!("{}", termion::cursor::Show)
}

/// `char::to_string`: the string that holds one character.
#[verifier::external_body]
pub(crate) fn char_text(ch: char) -> (text: String)
    ensures
        text@ == seq![ch],
{
    ch.to_string()
}

/// `usize::to_string`: the number in decimal digits.
#[verifier::external_body]
pub(crate) fn number_text(n: usize) -> (text: String)
    ensures
        text@ == decimal(n as nat),
{
    n.to_string()
}

} // verus!
