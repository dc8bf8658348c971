use vstd::prelude::*;

use crate::config::{BraceStyle, CliOverrides, Config, IndentStyle};
use crate::error::{is_parse_failure, FormatError};
use crate::lexer::addressable;
use crate::text::{normalized, push_str, str_eq, string_from_chars};
use crate::{format_spec, format_str, normalize_line_endings};

verus! {

/// The command line, as the library sees it.
#[derive(Debug)]
pub struct Cli {
    /// Path to the configuration to format; standard input when absent or `-`.
    pub file: Option<String>,
    /// Write the formatted output back to the file.
    pub write: bool,
    /// Only check whether the input is formatted.
    pub check: bool,
    /// Path to an options file.
    pub config: Option<String>,
    pub tabs: bool,
    pub spaces: bool,
    pub indent_width: Option<u8>,
    pub brace_style: Option<BraceStyleArg>,
    pub max_blank_lines: Option<u8>,
    pub trailing_newline: bool,
    pub no_trailing_newline: bool,
    pub preserve_inline_comments: bool,
    pub no_preserve_inline_comments: bool,
    pub generate_completions: Option<ShellArg>,
}

#[derive(Debug, Clone, Copy, PartialEq, Eq, Structural)]
pub enum BraceStyleArg {
    SameLine,
    NextLine,
}

#[derive(Debug, Clone, Copy, PartialEq, Eq, Structural)]
pub enum ShellArg {
    Bash,
    Fish,
    Zsh,
}

/// The brace style that a command-line value names.
pub open spec fn brace_style_of(a: BraceStyleArg) -> BraceStyle {
    match a {
        BraceStyleArg::SameLine => BraceStyle::SameLine,
        BraceStyleArg::NextLine => BraceStyle::NextLine,
    }
}

impl From<BraceStyleArg> for BraceStyle {
    fn from(value: BraceStyleArg) -> (s: BraceStyle) {
        match value {
            BraceStyleArg::SameLine => BraceStyle::SameLine,
            BraceStyleArg::NextLine => BraceStyle::NextLine,
        }
    }
}

impl vstd::std_specs::convert::FromSpecImpl<BraceStyleArg> for BraceStyle {
    open spec fn obeys_from_spec() -> bool {
        true
    }

    open spec fn from_spec(v: BraceStyleArg) -> BraceStyle {
        brace_style_of(v)
    }
}

/// The value a pair of opposite flags gives: set by exactly one of them, else none.
pub open spec fn flag_pair(yes: bool, no: bool) -> Option<bool> {
    if yes && !no {
        Some(true)
    } else if !yes && no {
        Some(false)
    } else {
        None
    }
}

/// What remains to be done once the input has been formatted.
#[derive(Debug)]
pub enum Action {
    /// Nothing: the input was already formatted.
    Done,
    /// Write `text` to the file at `path`.
    Write { path: String, text: String },
    /// Print `text` on standard output.
    Print(String),
}

pub open spec fn not_formatted_message() -> Seq<char> {
    "file is not formatted according to current options"@
}

pub open spec fn write_needs_path_message() -> Seq<char> {
    "--write requires a file path"@
}

pub open spec fn write_to_stdin_message() -> Seq<char> {
    "cannot write to stdin; omit --write to print to stdout"@
}

/// Whether `e` is an options error with the given message.
pub open spec fn is_config_error(e: FormatError, message: Seq<char>) -> bool {
    e matches FormatError::Config(m) && m@ == message
}

fn config_error(message: &str) -> (e: FormatError)
    ensures
        is_config_error(e, message@),
{
    let mut m: Vec<char> = Vec::new();
    push_str(&mut m, message);
    FormatError::Config(string_from_chars(&m))
}

impl Cli {
    pub fn cli_overrides(&self) -> (o: CliOverrides)
        ensures
            o.indent_style == (if self.tabs {
                Some(IndentStyle::Tabs)
            } else if self.spaces {
                Some(IndentStyle::Spaces)
            } else {
                None
            }),
            o.indent_width == self.indent_width,
            o.brace_style == (match self.brace_style {
                Some(a) => Some(brace_style_of(a)),
                None => None,
            }),
            o.max_blank_lines == self.max_blank_lines,
            o.trailing_newline == flag_pair(self.trailing_newline, self.no_trailing_newline),
            o.preserve_inline_comments == flag_pair(
                self.preserve_inline_comments,
                self.no_preserve_inline_comments,
            ),
            self.trailing_newline && !self.no_trailing_newline ==> o.trailing_newline == Some(true),
            !self.trailing_newline && self.no_trailing_newline ==> o.trailing_newline == Some(false),
            self.trailing_newline == self.no_trailing_newline ==> o.trailing_newline is None,
            self.preserve_inline_comments && !self.no_preserve_inline_comments
                ==> o.preserve_inline_comments == Some(true),
            !self.preserve_inline_comments && self.no_preserve_inline_comments
                ==> o.preserve_inline_comments == Some(false),
            self.preserve_inline_comments == self.no_preserve_inline_comments
                ==> o.preserve_inline_comments is None,
    {
        let indent_style = if self.tabs {
            Some(IndentStyle::Tabs)
        } else if self.spaces {
            Some(IndentStyle::Spaces)
        } else {
            None
        };
        let brace_style = match self.brace_style {
            Some(a) => Some(BraceStyle::from(a)),
            None => None,
        };
        CliOverrides {
            indent_style,
            indent_width: self.indent_width,
            brace_style,
            max_blank_lines: self.max_blank_lines,
            trailing_newline: match (self.trailing_newline, self.no_trailing_newline) {
                (true, false) => Some(true),
                (false, true) => Some(false),
                _ => None,
            },
            preserve_inline_comments: match (
                self.preserve_inline_comments,
                self.no_preserve_inline_comments,
            ) {
                (true, false) => Some(true),
                (false, true) => Some(false),
                _ => None,
            },
        }
    }

    /// Formats `input` with `config` and decides what the command does with the
    /// result: in check mode succeed only when the input (line endings aside) is
    /// already formatted; in write mode write back to a named file; else print.
    pub fn decide(&self, input: &str, config: &Config) -> (r: Result<Action, FormatError>)
        requires
            addressable(input@),
        ensures
            match format_spec(input@, *config) {
                Err(f) => r matches Err(e) && is_parse_failure(e, f),
                Ok(out) => if self.check {
                    if out == normalized(input@) {
                        r matches Ok(Action::Done)
                    } else {
                        r matches Err(e) && is_config_error(e, not_formatted_message())
                    }
                } else if self.write {
                    match self.file {
                        None => r matches Err(e) && is_config_error(e, write_needs_path_message()),
                        Some(p) => if p@ == "-"@ {
                            r matches Err(e) && is_config_error(e, write_to_stdin_message())
                        } else {
                            r matches Ok(Action::Write { path, text }) && path@ == p@ && text@
                                == out
                        },
                    }
                } else {
                    r matches Ok(Action::Print(text)) && text@ == out
                },
            },
    {
        let formatted = match format_str(input, config) {
            Ok(f) => f,
            Err(e) => {
                return Err(e);
            },
        };
        if self.check {
            let normalized_input = normalize_line_endings(input);
            if str_eq(formatted.as_str(), normalized_input.as_str()) {
                return Ok(Action::Done);
            }
            return Err(config_error("file is not formatted according to current options"));
        }
        if self.write {
            match &self.file {
                None => {
                    return Err(config_error("--write requires a file path"));
                },
                Some(path) => {
                    if str_eq(path.as_str(), "-") {
                        return Err(
                            config_error("cannot write to stdin; omit --write to print to stdout"),
                        );
                    }
                    return Ok(Action::Write { path: path.clone(), text: formatted });
                },
            }
        }
        Ok(Action::Print(formatted))
    }
}

} // verus!
