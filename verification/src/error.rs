use vstd::prelude::*;

use crate::text::{push_str, string_from_chars};

verus! {

/// A region of the input: byte offsets `start..end`, and the line and column
/// (both counted from 1, columns in characters) where it begins.
#[derive(Debug, Clone, Copy, PartialEq, Eq, Structural)]
pub struct Span {
    pub start: usize,
    pub end: usize,
    pub line: usize,
    pub column: usize,
}

/// The decimal digits of `n`.
pub open spec fn decimal(n: nat) -> Seq<char>
    decreases n,
{
    if n < 10 {
        seq![digit_char(n)]
    } else {
        decimal(n / 10) + seq![digit_char(n % 10)]
    }
}

/// The character of the digit `d`.
pub open spec fn digit_char(d: nat) -> char {
    (('0' as u32) + d) as char
}

/// Appends the decimal digits of `n` to `out`.
pub fn push_decimal(out: &mut Vec<char>, n: usize)
    ensures
        final(out)@ == old(out)@ + decimal(n as nat),
    decreases n,
{
    if n >= 10 {
        push_decimal(out, n / 10);
    }
    let d = (n % 10) as u32;
    let c = char_from_digit(d);
    out.push(c);
    proof {
        if n < 10 {
            assert(n % 10 == n);
        }
    }
}

fn char_from_digit(d: u32) -> (c: char)
    requires
        d < 10,
    ensures
        c == digit_char(d as nat),
{
    if d == 0 {
        '0'
    } else if d == 1 {
        '1'
    } else if d == 2 {
        '2'
    } else if d == 3 {
        '3'
    } else if d == 4 {
        '4'
    } else if d == 5 {
        '5'
    } else if d == 6 {
        '6'
    } else if d == 7 {
        '7'
    } else if d == 8 {
        '8'
    } else {
        '9'
    }
}

/// How a span reads: `line L, column C (bytes S..E)`.
pub open spec fn span_text(s: Span) -> Seq<char> {
    "line "@ + decimal(s.line as nat) + ", column "@ + decimal(s.column as nat) + " (bytes "@
        + decimal(s.start as nat) + ".."@ + decimal(s.end as nat) + ")"@
}

impl Span {
    /// The span as text, as it is shown to users.
    pub fn describe(&self) -> (t: String)
        ensures
            t@ == span_text(*self),
    {
        let mut v: Vec<char> = Vec::new();
        push_str(&mut v, "line ");
        push_decimal(&mut v, self.line);
        push_str(&mut v, ", column ");
        push_decimal(&mut v, self.column);
        push_str(&mut v, " (bytes ");
        push_decimal(&mut v, self.start);
        push_str(&mut v, "..");
        push_decimal(&mut v, self.end);
        push_str(&mut v, ")");
        string_from_chars(&v)
    }

    pub fn new(start: usize, end: usize, line: usize, column: usize) -> (s: Self)
        ensures
            s == (Span { start, end, line, column }),
    {
        Span { start, end, line, column }
    }
}

#[verifier::external_type_specification]
#[verifier::external_body]
pub struct ExIoError(std::io::Error);

/// Everything that can go wrong while formatting.
#[derive(Debug)]
pub enum FormatError {
    /// The input is not a well-formed configuration.
    Parse { line: usize, column: usize, message: String },
    /// Reading or writing a file failed.
    Io(std::io::Error),
    /// The options are unusable.
    Config(String),
}

/// A parse failure as the specifications describe it.
pub struct ParseFailure {
    pub line: int,
    pub column: int,
    pub message: Seq<char>,
}

/// Whether `e` is the parse error `f`.
pub open spec fn is_parse_failure(e: FormatError, f: ParseFailure) -> bool {
    match e {
        FormatError::Parse { line, column, message } => {
            &&& line as int == f.line
            &&& column as int == f.column
            &&& message@ == f.message
        },
        _ => false,
    }
}

impl FormatError {
    pub fn parse(line: usize, column: usize, message: String) -> (e: Self)
        ensures
            is_parse_failure(e, ParseFailure { line: line as int, column: column as int, message: message@ }),
    {
        FormatError::Parse { line, column, message }
    }
}

} // verus!
