//! Building the texts of messages.

use vstd::prelude::*;
use vstd::string::*;

verus! {

/// `String::push` appends the character to the end of the string.
pub assume_specification[ String::push ](s: &mut String, ch: char)
    ensures
        final(s)@ == old(s)@.push(ch),
;

/// The character of a decimal digit.
pub open spec fn digit_char(d: nat) -> char {
    if d == 0 {
        '0'
    } else if d == 1 {
        '1'
    } else if d == 2 {
        '2'
    } else if d == 3 {
        '3'
    } else if d == 4 {
        '4'
    } else if d == 5 {
        '5'
    } else if d == 6 {
        '6'
    } else if d == 7 {
        '7'
    } else if d == 8 {
        '8'
    } else {
        '9'
    }
}

/// The number in decimal digits, without leading zeros.
pub open spec fn decimal(n: nat) -> Seq<char>
    decreases n,
{
    if n < 10 {
        seq![digit_char(n)]
    } else {
        decimal(n / 10).push(digit_char(n % 10))
    }
}

fn digit(d: u64) -> (r: char)
    requires
        d < 10,
    ensures
        r == digit_char(d as nat),
{
    if d == 0 {
        '0'
    } else if d == 1 {
        '1'
    } else if d == 2 {
        '2'
    } else if d == 3 {
        '3'
    } else if d == 4 {
        '4'
    } else if d == 5 {
        '5'
    } else if d == 6 {
        '6'
    } else if d == 7 {
        '7'
    } else if d == 8 {
        '8'
    } else {
        '9'
    }
}

/// Appends the number in decimal digits to the text.
pub fn push_decimal(text: &mut String, n: u64)
    ensures
        final(text)@ == old(text)@ + decimal(n as nat),
    decreases n,
{
    if n >= 10 {
        push_decimal(text, n / 10);
    }
    text.push(digit(n % 10));
}

/// What is reported of a static error on the line `line`, at the text `at`,
/// or at the end of the file if there is no such text.
pub open spec fn static_report(line: u64, at: Option<Seq<char>>, message: Seq<char>) -> Seq<char> {
    "[Line: "@ + decimal(line as nat) + "] at "@ + match at {
        Some(text) => "'"@ + text + "' "@,
        None => "end "@,
    } + message
}

/// Builds the report of a static error.
pub fn report_static(line: u64, at: Option<&str>, message: &str) -> (r: String)
    ensures
        r@ == static_report(
            line,
            match at {
                Some(text) => Some(text@),
                None => None,
            },
            message@,
        ),
{
    let mut text = "[Line: ".to_owned();
    push_decimal(&mut text, line);
    text.append("] at ");
    match at {
        Some(lexeme) => {
            text.append("'");
            text.append(lexeme);
            text.append("' ");
            assert(text@ =~= "[Line: "@ + decimal(line as nat) + "] at "@ + ("'"@ + lexeme@ + "' "@));
        },
        None => {
            text.append("end ");
        },
    }
    text.append(message);
    text
}

} // verus!
