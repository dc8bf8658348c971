use vstd::prelude::*;

use crate::text::string_from_chars;

verus! {

/// The name of the configuration file that is looked for next to the input.
pub const CONFIG_FILE_NAME: &'static str = ".nginxfmt.toml";

#[derive(Debug, Clone, Copy, PartialEq, Eq, Structural)]
pub enum IndentStyle {
    Spaces,
    Tabs,
}

impl Default for IndentStyle {
    fn default() -> (s: Self)
        ensures
            s == IndentStyle::Spaces,
    {
        IndentStyle::Spaces
    }
}

#[derive(Debug, Clone, Copy, PartialEq, Eq, Structural)]
pub enum BraceStyle {
    SameLine,
    NextLine,
}

impl Default for BraceStyle {
    fn default() -> (s: Self)
        ensures
            s == BraceStyle::SameLine,
    {
        BraceStyle::SameLine
    }
}

/// The formatting options.
#[derive(Debug, Clone, Copy, PartialEq, Eq, Structural)]
pub struct Config {
    pub indent_style: IndentStyle,
    pub indent_width: u8,
    pub brace_style: BraceStyle,
    pub max_blank_lines: u8,
    pub trailing_newline: bool,
    pub preserve_inline_comments: bool,
}

/// The indentation width used when a configuration file does not give one.
pub fn default_indent_width() -> (w: u8)
    ensures
        w == 4,
{
    4
}

/// The number of blank lines kept when a configuration file does not say.
pub fn default_max_blank_lines() -> (n: u8)
    ensures
        n == 1,
{
    1
}

/// The value of a flag that a configuration file leaves out.
pub fn default_true() -> (b: bool)
    ensures
        b,
{
    true
}

/// The options a configuration starts from.
pub open spec fn default_config() -> Config {
    Config {
        indent_style: IndentStyle::Spaces,
        indent_width: 4,
        brace_style: BraceStyle::SameLine,
        max_blank_lines: 1,
        trailing_newline: true,
        preserve_inline_comments: true,
    }
}

impl Default for Config {
    fn default() -> (c: Self)
        ensures
            c == default_config(),
    {
        Config {
            indent_style: IndentStyle::Spaces,
            indent_width: 4,
            brace_style: BraceStyle::SameLine,
            max_blank_lines: 1,
            trailing_newline: true,
            preserve_inline_comments: true,
        }
    }
}

/// Options given on the command line; `None` leaves the configured value alone.
#[derive(Debug, Clone)]
pub struct CliOverrides {
    pub indent_style: Option<IndentStyle>,
    pub indent_width: Option<u8>,
    pub brace_style: Option<BraceStyle>,
    pub max_blank_lines: Option<u8>,
    pub trailing_newline: Option<bool>,
    pub preserve_inline_comments: Option<bool>,
}

impl Default for CliOverrides {
    fn default() -> (o: Self)
        ensures
            o.indent_style is None,
            o.indent_width is None,
            o.brace_style is None,
            o.max_blank_lines is None,
            o.trailing_newline is None,
            o.preserve_inline_comments is None,
    {
        CliOverrides {
            indent_style: None,
            indent_width: None,
            brace_style: None,
            max_blank_lines: None,
            trailing_newline: None,
            preserve_inline_comments: None,
        }
    }
}

/// The value an override leaves: its own where given, else the old one.
pub open spec fn overridden<T>(old: T, o: Option<T>) -> T {
    match o {
        Some(v) => v,
        None => old,
    }
}

/// `n` copies of `c`.
pub open spec fn repeated(c: char, n: nat) -> Seq<char> {
    Seq::new(n, |_i: int| c)
}

/// One level of indentation.
pub open spec fn indent_unit_spec(cfg: Config) -> Seq<char> {
    match cfg.indent_style {
        IndentStyle::Spaces => repeated(' ', cfg.indent_width as nat),
        IndentStyle::Tabs => seq!['\t'],
    }
}

/// The indentation at nesting depth `level`.
pub open spec fn indent_spec(cfg: Config, level: nat) -> Seq<char> {
    match cfg.indent_style {
        IndentStyle::Spaces => repeated(' ', (cfg.indent_width as nat * level) as nat),
        IndentStyle::Tabs => repeated('\t', level),
    }
}

/// Appends `n` copies of `c` to `out`.
pub fn push_repeated(out: &mut Vec<char>, c: char, n: usize)
    ensures
        final(out)@ == old(out)@ + repeated(c, n as nat),
{
    let mut i: usize = 0;
    while i < n
        invariant
            i <= n,
            out@ == old(out)@ + repeated(c, i as nat),
        decreases n - i,
    {
        out.push(c);
        i = i + 1;
        assert(repeated(c, i as nat) == repeated(c, (i - 1) as nat).push(c));
    }
}

impl Config {
    pub fn merge_cli_overrides(&mut self, overrides: &CliOverrides)
        ensures
            final(self).indent_style == overridden(old(self).indent_style, overrides.indent_style),
            final(self).indent_width == overridden(old(self).indent_width, overrides.indent_width),
            final(self).brace_style == overridden(old(self).brace_style, overrides.brace_style),
            final(self).max_blank_lines == overridden(
                old(self).max_blank_lines,
                overrides.max_blank_lines,
            ),
            final(self).trailing_newline == overridden(
                old(self).trailing_newline,
                overrides.trailing_newline,
            ),
            final(self).preserve_inline_comments == overridden(
                old(self).preserve_inline_comments,
                overrides.preserve_inline_comments,
            ),
    {
        if let Some(indent_style) = overrides.indent_style {
            self.indent_style = indent_style;
        }
        if let Some(indent_width) = overrides.indent_width {
            self.indent_width = indent_width;
        }
        if let Some(brace_style) = overrides.brace_style {
            self.brace_style = brace_style;
        }
        if let Some(max_blank_lines) = overrides.max_blank_lines {
            self.max_blank_lines = max_blank_lines;
        }
        if let Some(trailing_newline) = overrides.trailing_newline {
            self.trailing_newline = trailing_newline;
        }
        if let Some(preserve_inline_comments) = overrides.preserve_inline_comments {
            self.preserve_inline_comments = preserve_inline_comments;
        }
    }

    pub fn indent_unit(&self) -> (s: String)
        ensures
            s@ == indent_unit_spec(*self),
    {
        let mut v: Vec<char> = Vec::new();
        match self.indent_style {
            IndentStyle::Spaces => push_repeated(&mut v, ' ', self.indent_width as usize),
            IndentStyle::Tabs => v.push('\t'),
        }
        string_from_chars(&v)
    }

    /// Appends the indentation at nesting depth `level` to `out`.
    pub fn push_indent(&self, out: &mut Vec<char>, level: usize)
        ensures
            final(out)@ == old(out)@ + indent_spec(*self, level as nat),
    {
        let ghost start = out@;
        let mut d: usize = 0;
        while d < level
            invariant
                d <= level,
                out@ == start + indent_spec(*self, d as nat),
            decreases level - d,
        {
            match self.indent_style {
                IndentStyle::Spaces => {
                    push_repeated(out, ' ', self.indent_width as usize);
                    assert(indent_spec(*self, (d + 1) as nat) =~= indent_spec(*self, d as nat)
                        + repeated(' ', self.indent_width as nat)) by {
                        assert(self.indent_width as nat * (d + 1) as nat == self.indent_width as nat
                            * d as nat + self.indent_width as nat) by (nonlinear_arith);
                    }
                },
                IndentStyle::Tabs => {
                    out.push('\t');
                    assert(indent_spec(*self, (d + 1) as nat) =~= indent_spec(*self, d as nat).push(
                        '\t',
                    ));
                },
            }
            d = d + 1;
        }
    }

    pub fn indent_at(&self, level: usize) -> (s: String)
        requires
            self.indent_style == IndentStyle::Spaces ==> self.indent_width as int * level
                <= usize::MAX,
        ensures
            s@ == indent_spec(*self, level as nat),
    {
        let mut v: Vec<char> = Vec::new();
        self.push_indent(&mut v, level);
        string_from_chars(&v)
    }
}


/// What the search for the options file does at one directory, going up from
/// the input's directory towards the root.
#[derive(Debug, Clone, Copy, PartialEq, Eq, Structural)]
pub enum DiscoverStep {
    /// The options file is in this directory: read it, and stop.
    Load,
    /// Look in the parent directory next.
    GoUp,
    /// The root was reached without finding the file.
    NotFound,
}

/// The search stops at the first directory that holds the options file, and
/// gives up only at a directory with no parent.
pub fn discover_step(candidate_is_file: bool, has_parent: bool) -> (step: DiscoverStep)
    ensures
        step == (if candidate_is_file {
            DiscoverStep::Load
        } else if has_parent {
            DiscoverStep::GoUp
        } else {
            DiscoverStep::NotFound
        }),
{
    if candidate_is_file {
        DiscoverStep::Load
    } else if has_parent {
        DiscoverStep::GoUp
    } else {
        DiscoverStep::NotFound
    }
}

} // verus!
