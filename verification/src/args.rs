//! The settings of a session, and the reading of those that are numbers.

use crate::text::{append_decimal, chars_of, decimal};
use vstd::prelude::*;

verus! {

/// The number of children above which a directory starts closed, if none
/// is given.
pub const DEFAULT_N_COLLAPSE: usize = 10;

/// The height of the window, if none is given.
pub const DEFAULT_N_LINES: usize = 20;

/// The least height of the window.
pub const MIN_N_LINES: usize = 3;

/// The command that lists the files if the fast file finder is there.
pub const FAST_FINDER: &'static str = "fd";

/// The command that lists the files if it is not.
pub const PLAIN_FINDER: &'static str = "find";

/// The settings of a session.
#[derive(Debug)]
pub struct Args {
    /// The command that lists the files.
    pub cmd: String,
    /// Directories with more children than this start closed.
    pub n_collapse: usize,
    /// The height of the window.
    pub n_lines: usize,
}

/// Why a setting was refused.
#[derive(Debug, PartialEq, Eq)]
pub enum ArgError {
    /// The value of option `arg` is less than `min`.
    BelowMinimum { arg: String, min: usize },
    /// The value of option `arg` is not a number that the machine can hold.
    Invalid { arg: String, value: String },
}

/// The mathematical value of an `ArgError`.
pub enum ArgErrorView {
    BelowMinimum { arg: Seq<char>, min: usize },
    Invalid { arg: Seq<char>, value: Seq<char> },
}

impl View for ArgError {
    type V = ArgErrorView;

    open spec fn view(&self) -> ArgErrorView {
        match self {
            ArgError::BelowMinimum { arg, min } => ArgErrorView::BelowMinimum {
                arg: arg@,
                min: *min,
            },
            ArgError::Invalid { arg, value } => ArgErrorView::Invalid { arg: arg@, value: value@ },
        }
    }
}

/// `c` is one of the digits `0` to `9`.
pub open spec fn is_digit(c: char) -> bool {
    '0' <= c <= '9'
}

/// The number that a digit stands for.
pub open spec fn digit_value(c: char) -> nat {
    (c as u32 - 0x30) as nat
}

/// The number that a sequence of digits is the decimal numeral of.
pub open spec fn numeral_value(digits: Seq<char>) -> nat
    decreases digits.len(),
{
    if digits.len() == 0 {
        0
    } else {
        numeral_value(digits.drop_last()) * 10 + digit_value(digits.last())
    }
}

/// `text` without the plus sign in front of it, if there is one.
pub open spec fn unsigned(text: Seq<char>) -> Seq<char> {
    if text.len() > 0 && text[0] == '+' {
        text.skip(1)
    } else {
        text
    }
}

/// `text` is a numeral: an optional plus sign and then digits, at least
/// one, and nothing else.
pub open spec fn is_numeral(text: Seq<char>) -> bool {
    let digits = unsigned(text);
    digits.len() > 0 && forall|i: int| 0 <= i < digits.len() ==> is_digit(#[trigger] digits[i])
}

/// The number that `text` stands for, if it is a numeral of a number that
/// the machine can hold.
pub open spec fn parsed(text: Seq<char>) -> Option<usize> {
    if is_numeral(text) && numeral_value(unsigned(text)) <= usize::MAX {
        Some(numeral_value(unsigned(text)) as usize)
    } else {
        None
    }
}

/// The message for a value of option `arg` that is less than `min`.
pub open spec fn below_minimum_message(arg: Seq<char>, min: usize) -> Seq<char> {
    "option '--"@ + arg + "' must be >="@ + decimal(min as nat)
}

/// The message for a value of option `arg` that is no number.
pub open spec fn invalid_message(arg: Seq<char>, value: Seq<char>) -> Seq<char> {
    "invalid value for option '--"@ + arg + "': "@ + value
}

impl ArgErrorView {
    /// The text of the error.
    pub open spec fn text(self) -> Seq<char> {
        match self {
            ArgErrorView::BelowMinimum { arg, min } => below_minimum_message(arg, min),
            ArgErrorView::Invalid { arg, value } => invalid_message(arg, value),
        }
    }
}

impl ArgError {
    /// The message that tells the user what is wrong.
    pub fn message(&self) -> (s: String)
        ensures
            s@ == self@.text(),
    {
        let mut s = String::new();
        match self {
            ArgError::BelowMinimum { arg, min } => {
                s.append("option '--");
                s.append(arg.as_str());
                s.append("' must be >=");
                append_decimal(&mut s, *min);
                assert(s@ =~= below_minimum_message(arg@, *min));
            },
            ArgError::Invalid { arg, value } => {
                s.append("invalid value for option '--");
                s.append(arg.as_str());
                s.append("': ");
                s.append(value.as_str());
                assert(s@ =~= invalid_message(arg@, value@));
            },
        }
        s
    }
}

/// The value of a numeral is at least the value of each of its beginnings.
pub proof fn lemma_numeral_grows(digits: Seq<char>, k: int)
    requires
        0 <= k <= digits.len(),
    ensures
        numeral_value(digits.take(k)) <= numeral_value(digits),
    decreases digits.len() - k,
{
    if k < digits.len() {
        lemma_numeral_grows(digits, k + 1);
        assert(digits.take(k + 1).drop_last() =~= digits.take(k));
    } else {
        assert(digits.take(k) =~= digits);
    }
}

/// The number that `text` stands for.
pub fn parse_number(text: &str) -> (n: Option<usize>)
    ensures
        n == parsed(text@),
{
    let chars = chars_of(text);
    let start: usize = if chars.len() > 0 && chars[0] == '+' {
        1
    } else {
        0
    };
    let ghost digits = unsigned(chars@);
    assert(digits =~= chars@.skip(start as int));
    if start == chars.len() {
        return None;
    }
    let mut value: usize = 0;
    let mut i: usize = start;
    while i < chars.len()
        invariant
            start <= i <= chars.len(),
            start <= 1,
            digits == chars@.skip(start as int),
            digits == unsigned(text@),
            forall|j: int| 0 <= j < i - start ==> is_digit(#[trigger] digits[j]),
            value == numeral_value(digits.take(i - start)),
        decreases chars.len() - i,
    {
        let c = chars[i];
        assert(digits[i - start] == c);
        assert(digits.take(i - start + 1).drop_last() =~= digits.take(i - start));
        if !('0' <= c && c <= '9') {
            assert(!is_digit(digits[i - start]));
            return None;
        }
        let d: usize = (c as u32 - 0x30) as usize;
        assert(digits.take(i - start + 1).last() == c);
        assert(numeral_value(digits.take(i - start + 1)) == value * 10 + d);
        let next = match value.checked_mul(10) {
            Some(tens) => tens.checked_add(d),
            None => None,
        };
        match next {
            Some(v) => {
                value = v;
            },
            None => {
                proof {
                    lemma_numeral_grows(digits, i - start + 1);
                }
                return None;
            },
        }
        i += 1;
    }
    assert(digits.take(i - start) =~= digits);
    Some(value)
}

/// What `parse_usize` makes of the value of option `arg`, if one is given:
/// the number it stands for, if that is at least `min`, and else the error
/// that says what is wrong with it.
pub open spec fn checked_value(given: Option<Seq<char>>, arg: Seq<char>, min: usize) -> Result<
    Option<usize>,
    ArgErrorView,
> {
    match given {
        None => Ok(None),
        Some(value) => match parsed(value) {
            Some(v) => if v < min {
                Err(ArgErrorView::BelowMinimum { arg, min })
            } else {
                Ok(Some(v))
            },
            None => Err(ArgErrorView::Invalid { arg, value }),
        },
    }
}

/// The view of what `parse_usize` returns.
pub open spec fn outcome_view(r: Result<Option<usize>, ArgError>) -> Result<
    Option<usize>,
    ArgErrorView,
> {
    match r {
        Ok(v) => Ok(v),
        Err(e) => Err(e@),
    }
}

/// The text of an option that may not have been given.
pub open spec fn given_text(given: Option<&str>) -> Option<Seq<char>> {
    match given {
        Some(value) => Some(value@),
        None => None,
    }
}

/// The number that the value of option `arg` stands for, if a value is
/// given. A value that is no number, or a number less than `min`, is an
/// error.
pub fn parse_usize(given: Option<&str>, arg: &str, min: usize) -> (r: Result<
    Option<usize>,
    ArgError,
>)
    ensures
        outcome_view(r) == checked_value(given_text(given), arg@, min),
{
    if let Some(value) = given {
        if let Some(v) = parse_number(value) {
            if v < min {
                return Err(ArgError::BelowMinimum { arg: arg.to_owned(), min });
            }
            Ok(Some(v))
        } else {
            Err(ArgError::Invalid { arg: arg.to_owned(), value: value.to_owned() })
        }
    } else {
        Ok(None)
    }
}

/// The command that lists the files if none is given: the fast file
/// finder if it is there, and else the plain one.
pub fn default_cmd(fast_finder_found: bool) -> (cmd: &'static str)
    ensures
        cmd@ == if fast_finder_found {
            FAST_FINDER@
        } else {
            PLAIN_FINDER@
        },
{
    if fast_finder_found {
        FAST_FINDER
    } else {
        PLAIN_FINDER
    }
}

/// The name of the option for the number of children above which a
/// directory starts closed.
pub const N_COLLAPSE: &'static str = "n_collapse";

/// The name of the option for the height of the window.
pub const N_LINES: &'static str = "n_lines";

/// The settings that the given values make, or the first of their errors.
pub open spec fn collected(
    cmd: Option<Seq<char>>,
    n_collapse: Option<Seq<char>>,
    n_lines: Option<Seq<char>>,
    fast_finder_found: bool,
) -> Result<(Seq<char>, usize, usize), ArgErrorView> {
    match checked_value(n_collapse, N_COLLAPSE@, 0) {
        Err(e) => Err(e),
        Ok(collapse) => match checked_value(n_lines, N_LINES@, MIN_N_LINES) {
            Err(e) => Err(e),
            Ok(lines) => Ok(
                (
                    match cmd {
                        Some(c) => c,
                        None => if fast_finder_found {
                            FAST_FINDER@
                        } else {
                            PLAIN_FINDER@
                        },
                    },
                    match collapse {
                        Some(v) => v,
                        None => DEFAULT_N_COLLAPSE,
                    },
                    match lines {
                        Some(v) => v,
                        None => DEFAULT_N_LINES,
                    },
                ),
            ),
        },
    }
}

/// The settings that the options of the command line give, where `cmd`,
/// `n_collapse` and `n_lines` are the values of the options of those names,
/// as far as they were given, and `fast_finder_found` tells whether the
/// fast file finder is there.
pub fn collect(
    cmd: Option<&str>,
    n_collapse: Option<&str>,
    n_lines: Option<&str>,
    fast_finder_found: bool,
) -> (r: Result<Args, ArgError>)
    ensures
        match collected(
            given_text(cmd),
            given_text(n_collapse),
            given_text(n_lines),
            fast_finder_found,
        ) {
            Ok((c, collapse, lines)) => r matches Ok(args) && args.cmd@ == c && args.n_collapse
                == collapse && args.n_lines == lines,
            Err(e) => r matches Err(err) && err@ == e,
        },
{
    let collapse = match parse_usize(n_collapse, N_COLLAPSE, 0) {
        Ok(v) => v,
        Err(e) => {
            return Err(e);
        },
    };
    let lines = match parse_usize(n_lines, N_LINES, MIN_N_LINES) {
        Ok(v) => v,
        Err(e) => {
            return Err(e);
        },
    };
    let cmd = match cmd {
        Some(c) => c.to_owned(),
        None => default_cmd(fast_finder_found).to_owned(),
    };
    Ok(
        Args {
            cmd,
            n_collapse: match collapse {
                Some(v) => v,
                None => DEFAULT_N_COLLAPSE,
            },
            n_lines: match lines {
                Some(v) => v,
                None => DEFAULT_N_LINES,
            },
        },
    )
}

} // verus!
