use vstd::prelude::*;

use crate::config::{BraceStyle, Config, IndentStyle};
use crate::error::{is_parse_failure, FormatError, ParseFailure};
use crate::lexer::addressable;
use crate::text::str_eq;
use crate::{format_spec, format_str};

verus! {

/// The options that the browser front end passes by name.
pub open spec fn web_config(
    indent_style: Seq<char>,
    indent_width: u8,
    brace_style: Seq<char>,
    max_blank_lines: u8,
    trailing_newline: bool,
    preserve_inline_comments: bool,
) -> Config {
    Config {
        indent_style: if indent_style == "tabs"@ {
            IndentStyle::Tabs
        } else {
            IndentStyle::Spaces
        },
        indent_width,
        brace_style: if brace_style == "next_line"@ {
            BraceStyle::NextLine
        } else {
            BraceStyle::SameLine
        },
        max_blank_lines,
        trailing_newline,
        preserve_inline_comments,
    }
}

/// Formats `input` with options given as plain values: `indent_style` is
/// `"tabs"` for tabs (spaces otherwise), `brace_style` is `"next_line"` for
/// braces on their own line (same line otherwise).
pub fn format(
    input: &str,
    indent_style: &str,
    indent_width: u8,
    brace_style: &str,
    max_blank_lines: u8,
    trailing_newline: bool,
    preserve_inline_comments: bool,
) -> (r: Result<String, FormatError>)
    requires
        addressable(input@),
    ensures
        ({
            let cfg = web_config(
                indent_style@,
                indent_width,
                brace_style@,
                max_blank_lines,
                trailing_newline,
                preserve_inline_comments,
            );
            match r {
                Ok(out) => format_spec(input@, cfg) == Ok::<Seq<char>, ParseFailure>(out@),
                Err(e) => format_spec(input@, cfg) matches Err(f) && is_parse_failure(e, f),
            }
        }),
{
    let config = Config {
        indent_style: if str_eq(indent_style, "tabs") {
            IndentStyle::Tabs
        } else {
            IndentStyle::Spaces
        },
        indent_width,
        brace_style: if str_eq(brace_style, "next_line") {
            BraceStyle::NextLine
        } else {
            BraceStyle::SameLine
        },
        max_blank_lines,
        trailing_newline,
        preserve_inline_comments,
    };
    format_str(input, &config)
}

} // verus!
