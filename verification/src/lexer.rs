use vstd::prelude::*;
use vstd::utf8::*;

use crate::ast::is_lua_name;
use crate::error::{is_parse_failure, FormatError, ParseFailure, Span};
use crate::text::{is_whitespace, push_str, spec_is_whitespace, str_chars, string_from_chars, string_from_range};

verus! {

#[derive(Debug, Clone, Copy, PartialEq, Eq, Structural)]
pub enum TokenKind {
    Ident,
    String,
    LBrace,
    RBrace,
    Semicolon,
    Comment,
    Newline,
    /// The code between the braces of a Lua block, kept as it is written.
    LuaBody,
}

/// Where the lexer stands among statements: at the start of one, or after its
/// first word (`true` when that word names a Lua block).
#[derive(Debug, Clone, Copy, PartialEq, Eq, Structural)]
pub enum LexContext {
    Start,
    Words(bool),
}

/// How the scan of Lua code reads the next character: as code; after one `-`
/// of code; just after `--`; after `--[` and that many `=`; in a `--` comment
/// that ends with its line; after a `[` of code and that many `=`; in a string
/// quoted with the given character; just after a backslash in such a string; in
/// a long string or comment opened with that many `=`; or, in one, after a `]`
/// and the second count of `=`.
#[derive(Debug, Clone, Copy, PartialEq, Eq, Structural)]
pub enum LuaMode {
    Code,
    Dash,
    CommentStart,
    CommentBracket(usize),
    LineComment,
    Bracket(usize),
    Str(char),
    Escape(char),
    Long(usize),
    LongClose(usize, usize),
}

#[derive(Debug, Clone, PartialEq, Eq)]
pub struct Token {
    pub kind: TokenKind,
    pub text: String,
    pub span: Span,
}

/// A token as the specification sees it: its kind and the characters
/// `start..end` of the input that it covers.
pub struct Lexeme {
    pub kind: TokenKind,
    pub start: int,
    pub end: int,
}

// ---------------------------------------------------------------------------
// Positions in the input
// ---------------------------------------------------------------------------

/// The line (from 1) on which the character at index `i` stands.
pub open spec fn line_at(s: Seq<char>, i: int) -> int
    decreases i,
{
    if i <= 0 {
        1
    } else if s[i - 1] == '\n' {
        line_at(s, i - 1) + 1
    } else {
        line_at(s, i - 1)
    }
}

/// The column (from 1, in characters) at which the character at index `i` stands.
pub open spec fn column_at(s: Seq<char>, i: int) -> int
    decreases i,
{
    if i <= 0 {
        1
    } else if s[i - 1] == '\n' {
        1
    } else {
        column_at(s, i - 1) + 1
    }
}

/// The byte offset, in the UTF-8 encoding, of the character at index `i`.
pub open spec fn byte_at(s: Seq<char>, i: int) -> int {
    encode_utf8(s.take(i)).len() as int
}

/// A parse failure reported at character index `i`.
pub open spec fn failure_at(s: Seq<char>, i: int, message: Seq<char>) -> ParseFailure {
    ParseFailure { line: line_at(s, i), column: column_at(s, i), message }
}

// ---------------------------------------------------------------------------
// The token grammar
// ---------------------------------------------------------------------------

/// The characters that make up a bare word.
pub open spec fn spec_is_atom_char(c: char) -> bool {
    !(spec_is_whitespace(c) || c == ';' || c == '{' || c == '}' || c == '#')
}

/// The end of the bare word that continues at `i`.
pub open spec fn atom_end(s: Seq<char>, i: int) -> int
    decreases s.len() - i,
{
    if 0 <= i < s.len() && spec_is_atom_char(s[i]) {
        atom_end(s, i + 1)
    } else {
        i
    }
}

/// The end of the comment that continues at `i`: the next newline, or the end.
pub open spec fn comment_end(s: Seq<char>, i: int) -> int
    decreases s.len() - i,
{
    if 0 <= i < s.len() && s[i] != '\n' {
        comment_end(s, i + 1)
    } else {
        i
    }
}

/// How a quoted string that continues at `i` ends.
pub enum QuoteEnd {
    /// After its closing quote, at this index.
    Closed(int),
    /// A newline, or the end of the input, at this index before the closing quote.
    Unterminated(int),
    /// A backslash as the last character; the index is the end of the input.
    BadEscape(int),
}

/// Scans a string quoted with `q` from index `i` (just after the opening quote).
/// A backslash escapes the character after it.
pub open spec fn quote_scan(s: Seq<char>, i: int, q: char) -> QuoteEnd
    decreases s.len() - i,
{
    if i < 0 || i >= s.len() {
        QuoteEnd::Unterminated(i)
    } else if s[i] == '\\' {
        if i + 1 >= s.len() {
            QuoteEnd::BadEscape(i + 1)
        } else {
            quote_scan(s, i + 2, q)
        }
    } else if s[i] == q {
        QuoteEnd::Closed(i + 1)
    } else if s[i] == '\n' {
        QuoteEnd::Unterminated(i)
    } else {
        quote_scan(s, i + 1, q)
    }
}

pub open spec fn unexpected_char_message(c: char) -> Seq<char> {
    "unexpected character '"@ + seq![c] + "'"@
}

/// The token `t` in front of the tokens of `r`, or the failure of `r`.
pub open spec fn prepend(t: Lexeme, r: Result<Seq<Lexeme>, ParseFailure>) -> Result<
    Seq<Lexeme>,
    ParseFailure,
> {
    match r {
        Ok(ts) => Ok(seq![t] + ts),
        Err(e) => Err(e),
    }
}

/// The tokens `ts` in front of the tokens of `r`, or the failure of `r`.
pub open spec fn prepend_all(ts: Seq<Lexeme>, r: Result<Seq<Lexeme>, ParseFailure>) -> Result<
    Seq<Lexeme>,
    ParseFailure,
> {
    match r {
        Ok(rest) => Ok(ts + rest),
        Err(e) => Err(e),
    }
}

// ---------------------------------------------------------------------------
// Lua code
// ---------------------------------------------------------------------------

/// A character of Lua code: braces nest, quotes open strings, `-` may open a comment.
pub open spec fn lua_code_step(d: int, c: char) -> (LuaMode, int) {
    if c == '{' {
        (LuaMode::Code, d + 1)
    } else if c == '}' {
        (LuaMode::Code, d - 1)
    } else if c == '"' || c == '\'' {
        (LuaMode::Str(c), d)
    } else if c == '-' {
        (LuaMode::Dash, d)
    } else {
        (LuaMode::Code, d)
    }
}

/// The mode and brace depth after the character `c`. A newline ends a `--`
/// comment and, escaped or not, a quoted string; a long string or comment,
/// `[[ .. ]]` or `--[[ .. ]]` with any equal count of `=` between the brackets,
/// runs to its closing brackets.
pub open spec fn lua_next(m: LuaMode, d: int, c: char) -> (LuaMode, int) {
    match m {
        LuaMode::Code => if c == '[' {
            (LuaMode::Bracket(0), d)
        } else {
            lua_code_step(d, c)
        },
        LuaMode::Dash => if c == '-' {
            (LuaMode::CommentStart, d)
        } else if c == '[' {
            (LuaMode::Bracket(0), d)
        } else {
            lua_code_step(d, c)
        },
        LuaMode::CommentStart => if c == '[' {
            (LuaMode::CommentBracket(0), d)
        } else if c == '\n' {
            (LuaMode::Code, d)
        } else {
            (LuaMode::LineComment, d)
        },
        LuaMode::CommentBracket(k) => if c == '=' {
            (LuaMode::CommentBracket((k + 1) as usize), d)
        } else if c == '[' {
            (LuaMode::Long(k), d)
        } else if c == '\n' {
            (LuaMode::Code, d)
        } else {
            (LuaMode::LineComment, d)
        },
        LuaMode::LineComment => if c == '\n' {
            (LuaMode::Code, d)
        } else {
            (LuaMode::LineComment, d)
        },
        LuaMode::Bracket(k) => if c == '=' {
            (LuaMode::Bracket((k + 1) as usize), d)
        } else if c == '[' {
            (LuaMode::Long(k), d)
        } else {
            lua_code_step(d, c)
        },
        LuaMode::Str(q) => if c == '\\' {
            (LuaMode::Escape(q), d)
        } else if c == q || c == '\n' {
            (LuaMode::Code, d)
        } else {
            (LuaMode::Str(q), d)
        },
        LuaMode::Escape(q) => if c == '\n' {
            (LuaMode::Code, d)
        } else {
            (LuaMode::Str(q), d)
        },
        LuaMode::Long(k) => if c == ']' {
            (LuaMode::LongClose(k, 0), d)
        } else {
            (LuaMode::Long(k), d)
        },
        LuaMode::LongClose(k, j) => if c == '=' {
            (LuaMode::LongClose(k, (j + 1) as usize), d)
        } else if c == ']' {
            if j == k {
                (LuaMode::Code, d)
            } else {
                (LuaMode::LongClose(k, 0), d)
            }
        } else {
            (LuaMode::Long(k), d)
        },
    }
}

/// The modes in which a brace is a brace of the code.
pub open spec fn lua_code_like(m: LuaMode) -> bool {
    m is Code || m is Dash || m is Bracket
}

/// The counts of `=` in the mode are at most `n`.
pub open spec fn lua_levels_within(m: LuaMode, n: int) -> bool {
    match m {
        LuaMode::CommentBracket(k) => k <= n,
        LuaMode::Bracket(k) => k <= n,
        LuaMode::Long(k) => k <= n,
        LuaMode::LongClose(k, j) => k <= n && j <= n,
        _ => true,
    }
}

/// The index of the brace that closes Lua code read from `j` in mode `m` at
/// depth `d`: the first `}` of the code at depth one.
pub open spec fn lua_close(s: Seq<char>, j: int, m: LuaMode, d: int) -> Option<int>
    decreases s.len() - j,
{
    if j < 0 || j >= s.len() {
        None
    } else if lua_code_like(m) && s[j] == '}' && d == 1 {
        Some(j)
    } else {
        let n = lua_next(m, d, s[j]);
        lua_close(s, j + 1, n.0, n.1)
    }
}

/// Where the blanks (whitespace other than newlines) that start at `i` end.
pub open spec fn blank_end(s: Seq<char>, i: int) -> int
    decreases s.len() - i,
{
    if 0 <= i < s.len() && spec_is_whitespace(s[i]) && s[i] != '\n' {
        blank_end(s, i + 1)
    } else {
        i
    }
}

pub proof fn lemma_blank_end_bounds(s: Seq<char>, i: int)
    requires
        0 <= i <= s.len(),
    ensures
        i <= blank_end(s, i) <= s.len(),
        forall|k: int| i <= k < blank_end(s, i) ==> spec_is_whitespace(#[trigger] s[k]) && s[k] != '\n',
        blank_end(s, i) < s.len() ==> !(spec_is_whitespace(s[blank_end(s, i)]) && s[blank_end(s, i)] != '\n'),
    decreases s.len() - i,
{
    if i < s.len() && spec_is_whitespace(s[i]) && s[i] != '\n' {
        lemma_blank_end_bounds(s, i + 1);
    }
}

pub proof fn lemma_lua_close_bounds(s: Seq<char>, j: int, m: LuaMode, d: int)
    requires
        0 <= j,
    ensures
        lua_close(s, j, m, d) matches Some(e) ==> j <= e < s.len() && s[e] == '}',
    decreases s.len() - j,
{
    if j < s.len() && !(lua_code_like(m) && s[j] == '}' && d == 1) {
        let n = lua_next(m, d, s[j]);
        lemma_lua_close_bounds(s, j + 1, n.0, n.1);
    }
}

/// The body of a Lua block, `b..e`, as a token when it is not empty.
pub open spec fn lua_body_lexemes(b: int, e: int) -> Seq<Lexeme> {
    if b < e {
        seq![Lexeme { kind: TokenKind::LuaBody, start: b, end: e }]
    } else {
        seq![]
    }
}

/// The context after a word: the first word of a statement opens it.
pub open spec fn word_context(st: LexContext, lua: bool) -> LexContext {
    match st {
        LexContext::Start => LexContext::Words(lua),
        LexContext::Words(x) => LexContext::Words(x),
    }
}

/// The tokens of the Lua block whose `{` stands just before `i`: its body up to
/// the brace that closes it, that brace, and the tokens after it; or, where no
/// brace closes it, the body up to the end.
pub open spec fn lua_block_rest(s: Seq<char>, i: int, after: Result<Seq<Lexeme>, ParseFailure>)
    -> Result<Seq<Lexeme>, ParseFailure>
{
    let b = blank_end(s, i);
    match lua_close(s, b, LuaMode::Code, 1) {
        Some(e) => prepend_all(
            lua_body_lexemes(b, e),
            prepend(Lexeme { kind: TokenKind::RBrace, start: e, end: e + 1 }, after),
        ),
        None => Ok(lua_body_lexemes(b, s.len() as int)),
    }
}

/// Where lexing resumes after the Lua block whose `{` stands just before `i`.
pub open spec fn lua_resume(s: Seq<char>, i: int) -> int {
    match lua_close(s, blank_end(s, i), LuaMode::Code, 1) {
        Some(e) => e + 1,
        None => s.len() as int,
    }
}

/// The tokens of `s` from index `i` on, in context `st`; newlines are tokens,
/// other whitespace separates tokens, and the code of a Lua block is one token.
pub open spec fn lex_from(s: Seq<char>, i: int, st: LexContext) -> Result<Seq<Lexeme>, ParseFailure>
    decreases s.len() - i,
{
    if i < 0 || i >= s.len() {
        Ok(seq![])
    } else {
        let c = s[i];
        if c == '\n' {
            prepend(Lexeme { kind: TokenKind::Newline, start: i, end: i + 1 }, lex_from(s, i + 1, st))
        } else if spec_is_whitespace(c) {
            lex_from(s, i + 1, st)
        } else if c == '{' {
            if st == LexContext::Words(true) {
                proof {
                    lemma_blank_end_bounds(s, i + 1);
                    lemma_lua_close_bounds(s, blank_end(s, i + 1), LuaMode::Code, 1);
                }
                prepend(
                    Lexeme { kind: TokenKind::LBrace, start: i, end: i + 1 },
                    lua_block_rest(s, i + 1, lex_from(s, lua_resume(s, i + 1), LexContext::Start)),
                )
            } else {
                prepend(
                    Lexeme { kind: TokenKind::LBrace, start: i, end: i + 1 },
                    lex_from(s, i + 1, LexContext::Start),
                )
            }
        } else if c == '}' {
            prepend(
                Lexeme { kind: TokenKind::RBrace, start: i, end: i + 1 },
                lex_from(s, i + 1, LexContext::Start),
            )
        } else if c == ';' {
            prepend(
                Lexeme { kind: TokenKind::Semicolon, start: i, end: i + 1 },
                lex_from(s, i + 1, LexContext::Start),
            )
        } else if c == '\'' || c == '"' {
            match quote_scan(s, i + 1, c) {
                QuoteEnd::Closed(e) => {
                    proof {
                        lemma_quote_scan_bounds(s, i + 1, c);
                    }
                    prepend(
                        Lexeme { kind: TokenKind::String, start: i, end: e },
                        lex_from(s, e, word_context(st, false)),
                    )
                },
                QuoteEnd::Unterminated(p) => Err(
                    failure_at(s, p, "unterminated string literal"@),
                ),
                QuoteEnd::BadEscape(p) => Err(failure_at(s, p, "unterminated escape in string"@)),
            }
        } else if c == '#' {
            let e = comment_end(s, i);
            proof {
                lemma_comment_end_bounds(s, i);
            }
            prepend(Lexeme { kind: TokenKind::Comment, start: i, end: e }, lex_from(s, e, st))
        } else if spec_is_atom_char(c) {
            let e = atom_end(s, i);
            proof {
                lemma_atom_end_bounds(s, i);
            }
            prepend(
                Lexeme { kind: TokenKind::Ident, start: i, end: e },
                lex_from(s, e, word_context(st, is_lua_name(s.subrange(i, e)))),
            )
        } else {
            Err(failure_at(s, i, unexpected_char_message(c)))
        }
    }
}

/// Where the whitespace that starts at `i` ends.
pub open spec fn trivia_end(s: Seq<char>, i: int) -> int
    decreases s.len() - i,
{
    if 0 <= i < s.len() && spec_is_whitespace(s[i]) {
        trivia_end(s, i + 1)
    } else {
        i
    }
}

/// The newline tokens in the whitespace that starts at `i`.
pub open spec fn trivia_newlines(s: Seq<char>, i: int) -> Seq<Lexeme>
    decreases s.len() - i,
{
    if 0 <= i < s.len() && spec_is_whitespace(s[i]) {
        if s[i] == '\n' {
            seq![Lexeme { kind: TokenKind::Newline, start: i, end: i + 1 }] + trivia_newlines(
                s,
                i + 1,
            )
        } else {
            trivia_newlines(s, i + 1)
        }
    } else {
        seq![]
    }
}

/// Inputs whose UTF-8 encoding is shorter than the address space, so that every
/// byte offset, line and column fits in a `usize`.
pub open spec fn addressable(s: Seq<char>) -> bool {
    encode_utf8(s).len() < usize::MAX
}

/// The tokens of the whole input.
pub open spec fn lex(s: Seq<char>) -> Result<Seq<Lexeme>, ParseFailure> {
    lex_from(s, 0, LexContext::Start)
}

/// Whether the exec token `t` is the lexeme `l` of the input `s`.
pub open spec fn token_matches(t: Token, s: Seq<char>, l: Lexeme) -> bool {
    &&& t.kind == l.kind
    &&& t.text@ == s.subrange(l.start, l.end)
    &&& t.span.start == byte_at(s, l.start)
    &&& t.span.end == byte_at(s, l.end)
    &&& t.span.line == line_at(s, l.start)
    &&& t.span.column == column_at(s, l.start)
}

/// Whether the exec tokens are the lexemes, one for one.
pub open spec fn tokens_match(ts: Seq<Token>, s: Seq<char>, ls: Seq<Lexeme>) -> bool {
    &&& ts.len() == ls.len()
    &&& forall|k: int| 0 <= k < ts.len() ==> #[trigger] token_matches(ts[k], s, ls[k])
}

/// Whether `ts` are the tokens of `s` from index `i`, or `e` the failure there.
pub open spec fn lex_result_matches(
    r: Result<Vec<Token>, FormatError>,
    s: Seq<char>,
    i: int,
) -> bool {
    match r {
        Ok(ts) => lex_from(s, i, LexContext::Start) matches Ok(ls) && tokens_match(ts@, s, ls),
        Err(e) => lex_from(s, i, LexContext::Start) matches Err(f) && is_parse_failure(e, f),
    }
}

// ---------------------------------------------------------------------------
// Lemmas
// ---------------------------------------------------------------------------

pub proof fn lemma_quote_scan_bounds(s: Seq<char>, i: int, q: char)
    requires
        0 <= i <= s.len(),
    ensures
        quote_scan(s, i, q) matches QuoteEnd::Closed(e) ==> i < e <= s.len(),
        quote_scan(s, i, q) matches QuoteEnd::Unterminated(p) ==> i <= p <= s.len(),
        quote_scan(s, i, q) matches QuoteEnd::BadEscape(p) ==> p == s.len() && i < p,
    decreases s.len() - i,
{
    if 0 <= i < s.len() {
        if s[i] == '\\' {
            if i + 1 < s.len() {
                lemma_quote_scan_bounds(s, i + 2, q);
            }
        } else if s[i] != q && s[i] != '\n' {
            lemma_quote_scan_bounds(s, i + 1, q);
        }
    }
}

pub proof fn lemma_comment_end_bounds(s: Seq<char>, i: int)
    requires
        0 <= i <= s.len(),
    ensures
        i <= comment_end(s, i) <= s.len(),
        i < s.len() && s[i] != '\n' ==> i < comment_end(s, i),
        forall|k: int| i <= k < comment_end(s, i) ==> s[k] != '\n',
        comment_end(s, i) < s.len() ==> s[comment_end(s, i)] == '\n',
    decreases s.len() - i,
{
    if i < s.len() && s[i] != '\n' {
        lemma_comment_end_bounds(s, i + 1);
    }
}

pub proof fn lemma_atom_end_bounds(s: Seq<char>, i: int)
    requires
        0 <= i <= s.len(),
    ensures
        i <= atom_end(s, i) <= s.len(),
        i < s.len() && spec_is_atom_char(s[i]) ==> i < atom_end(s, i),
        forall|k: int| i <= k < atom_end(s, i) ==> spec_is_atom_char(#[trigger] s[k]),
        atom_end(s, i) < s.len() ==> !spec_is_atom_char(s[atom_end(s, i)]),
    decreases s.len() - i,
{
    if i < s.len() && spec_is_atom_char(s[i]) {
        lemma_atom_end_bounds(s, i + 1);
    }
}

pub proof fn lemma_encode_utf8_concat(a: Seq<char>, b: Seq<char>)
    ensures
        encode_utf8(a + b) == encode_utf8(a) + encode_utf8(b),
    decreases a.len(),
{
    if a.len() == 0 {
        assert(a + b == b);
        assert(encode_utf8(a) == Seq::<u8>::empty());
        assert(encode_utf8(a) + encode_utf8(b) == encode_utf8(b));
    } else {
        lemma_encode_utf8_concat(a.drop_first(), b);
        assert((a + b).drop_first() == a.drop_first() + b);
        assert((a + b)[0] == a[0]);
        assert(encode_utf8(a + b) == encode_scalar(a[0] as u32) + encode_utf8(a.drop_first() + b));
        assert(encode_scalar(a[0] as u32) + (encode_utf8(a.drop_first()) + encode_utf8(b))
            == (encode_scalar(a[0] as u32) + encode_utf8(a.drop_first())) + encode_utf8(b));
    }
}

/// The number of bytes that `c` takes in UTF-8.
pub open spec fn utf8_width(c: char) -> int {
    encode_utf8(seq![c]).len() as int
}

pub proof fn lemma_byte_at_step(s: Seq<char>, i: int)
    requires
        0 <= i < s.len(),
    ensures
        byte_at(s, i + 1) == byte_at(s, i) + utf8_width(s[i]),
{
    assert(s.take(i + 1) == s.take(i) + seq![s[i]]);
    lemma_encode_utf8_concat(s.take(i), seq![s[i]]);
}

pub proof fn lemma_byte_at_bound(s: Seq<char>, i: int)
    requires
        0 <= i <= s.len(),
    ensures
        0 <= byte_at(s, i) <= encode_utf8(s).len(),
{
    assert(s == s.take(i) + s.skip(i));
    lemma_encode_utf8_concat(s.take(i), s.skip(i));
}

pub proof fn lemma_positions_bound(s: Seq<char>, i: int)
    requires
        0 <= i <= s.len(),
    ensures
        1 <= line_at(s, i) <= i + 1,
        1 <= column_at(s, i) <= i + 1,
    decreases i,
{
    if i > 0 {
        lemma_positions_bound(s, i - 1);
    }
}

/// A token put in front of tokens is their first, and the rest are those tokens.
pub proof fn lemma_prepend_ok(t: Lexeme, r: Result<Seq<Lexeme>, ParseFailure>, ls: Seq<Lexeme>)
    requires
        prepend(t, r) == Ok::<Seq<Lexeme>, ParseFailure>(ls),
    ensures
        ls.len() > 0,
        ls[0] == t,
        r == Ok::<Seq<Lexeme>, ParseFailure>(ls.drop_first()),
{
    let rest = r->Ok_0;
    assert((seq![t] + rest).drop_first() =~= rest);
}

/// `prepend` then `prepend_all` is `prepend_all` of the longer prefix.
pub proof fn lemma_prepend_all_push(ls: Seq<Lexeme>, t: Lexeme, r: Result<Seq<Lexeme>, ParseFailure>)
    ensures
        prepend_all(ls, prepend(t, r)) == prepend_all(ls.push(t), r),
{
    if let Ok(rest) = r {
        assert(ls + (seq![t] + rest) == ls.push(t) + rest);
    }
}

pub proof fn lemma_prepend_all_empty(r: Result<Seq<Lexeme>, ParseFailure>)
    ensures
        prepend_all(Seq::<Lexeme>::empty(), r) == r,
{
    if let Ok(rest) = r {
        assert(Seq::<Lexeme>::empty() + rest == rest);
    }
}

pub proof fn lemma_trivia(s: Seq<char>, i: int, st: LexContext)
    requires
        0 <= i <= s.len(),
    ensures
        i <= trivia_end(s, i) <= s.len(),
        i < s.len() && spec_is_whitespace(s[i]) ==> i < trivia_end(s, i),
        trivia_end(s, i) < s.len() ==> !spec_is_whitespace(s[trivia_end(s, i)]),
        lex_from(s, i, st) == prepend_all(trivia_newlines(s, i), lex_from(s, trivia_end(s, i), st)),
    decreases s.len() - i,
{
    if i < s.len() && spec_is_whitespace(s[i]) {
        lemma_trivia(s, i + 1, st);
        if s[i] == '\n' {
            let nl = Lexeme { kind: TokenKind::Newline, start: i, end: i + 1 };
            let r = lex_from(s, trivia_end(s, i + 1), st);
            if let Ok(rest) = r {
                assert(seq![nl] + (trivia_newlines(s, i + 1) + rest) == (seq![nl]
                    + trivia_newlines(s, i + 1)) + rest);
            }
        }
    } else {
        lemma_prepend_all_empty(lex_from(s, i, st));
    }
}

pub proof fn lemma_encode_utf8_len(s: Seq<char>)
    ensures
        s.len() <= encode_utf8(s).len(),
    decreases s.len(),
{
    broadcast use vstd::utf8::char_is_scalar;
    if s.len() > 0 {
        lemma_encode_utf8_len(s.drop_first());
    }
}

pub proof fn lemma_tokens_match_append(
    a: Seq<Token>,
    b: Seq<Token>,
    s: Seq<char>,
    la: Seq<Lexeme>,
    lb: Seq<Lexeme>,
)
    requires
        tokens_match(a, s, la),
        tokens_match(b, s, lb),
    ensures
        tokens_match(a + b, s, la + lb),
{
    assert forall|k: int| 0 <= k < (a + b).len() implies #[trigger] token_matches(
        (a + b)[k],
        s,
        (la + lb)[k],
    ) by {
        if k < a.len() {
            assert(token_matches(a[k], s, la[k]));
        } else {
            assert(token_matches(b[k - a.len()], s, lb[k - a.len()]));
        }
    }
}

// ---------------------------------------------------------------------------
// Exec
// ---------------------------------------------------------------------------

#[verifier::when_used_as_spec(spec_is_atom_char)]
fn is_atom_char(ch: char) -> (b: bool)
    ensures
        b == spec_is_atom_char(ch),
{
    !(is_whitespace(ch) || ch == ';' || ch == '{' || ch == '}' || ch == '#')
}

/// The number of bytes of `c` in UTF-8.
fn char_width(c: char) -> (n: usize)
    ensures
        n == utf8_width(c),
        1 <= n <= 4,
{
    proof {
        broadcast use vstd::utf8::char_is_scalar;
        let e = seq![c];
        assert(e.drop_first() == Seq::<char>::empty());
        assert(encode_utf8(e) == encode_scalar(c as u32) + encode_utf8(e.drop_first()));
        assert(encode_utf8(Seq::<char>::empty()) == Seq::<u8>::empty());
        assert(encode_utf8(e) == encode_scalar(c as u32));
        assert(is_scalar(c as u32));
    }
    let u = c as u32;
    if u < 0x80 {
        1
    } else if u < 0x800 {
        2
    } else if u < 0x10000 {
        3
    } else {
        4
    }
}

/// The context after a word: the first word of a statement opens it.
fn next_context(st: LexContext, lua: bool) -> (r: LexContext)
    ensures
        r == word_context(st, lua),
{
    match st {
        LexContext::Start => LexContext::Words(lua),
        LexContext::Words(x) => LexContext::Words(x),
    }
}

/// One step of the scan of Lua code.
fn lua_next_exec(m: LuaMode, d: usize, c: char, n: Ghost<int>) -> (r: (LuaMode, usize))
    requires
        1 <= d < usize::MAX,
        c == '}' && lua_code_like(m) ==> d > 1,
        0 <= n@ < usize::MAX,
        lua_levels_within(m, n@),
    ensures
        r.0 == lua_next(m, d as int, c).0,
        r.1 as int == lua_next(m, d as int, c).1,
        lua_levels_within(r.0, n@ + 1),
{
    let code = match m {
        LuaMode::Code => c != '[',
        LuaMode::Dash => c != '-' && c != '[',
        LuaMode::Bracket(_) => c != '=' && c != '[',
        _ => false,
    };
    if code {
        if c == '{' {
            (LuaMode::Code, d + 1)
        } else if c == '}' {
            (LuaMode::Code, d - 1)
        } else if c == '"' || c == '\'' {
            (LuaMode::Str(c), d)
        } else if c == '-' {
            (LuaMode::Dash, d)
        } else {
            (LuaMode::Code, d)
        }
    } else {
        match m {
            LuaMode::Code => (LuaMode::Bracket(0), d),
            LuaMode::Dash => if c == '-' {
                (LuaMode::CommentStart, d)
            } else {
                (LuaMode::Bracket(0), d)
            },
            LuaMode::CommentStart => if c == '[' {
                (LuaMode::CommentBracket(0), d)
            } else if c == '\n' {
                (LuaMode::Code, d)
            } else {
                (LuaMode::LineComment, d)
            },
            LuaMode::CommentBracket(k) => if c == '=' {
                (LuaMode::CommentBracket(k + 1), d)
            } else if c == '[' {
                (LuaMode::Long(k), d)
            } else if c == '\n' {
                (LuaMode::Code, d)
            } else {
                (LuaMode::LineComment, d)
            },
            LuaMode::LineComment => if c == '\n' {
                (LuaMode::Code, d)
            } else {
                (LuaMode::LineComment, d)
            },
            LuaMode::Bracket(k) => if c == '=' {
                (LuaMode::Bracket(k + 1), d)
            } else {
                (LuaMode::Long(k), d)
            },
            LuaMode::Str(q) => if c == '\\' {
                (LuaMode::Escape(q), d)
            } else if c == q || c == '\n' {
                (LuaMode::Code, d)
            } else {
                (LuaMode::Str(q), d)
            },
            LuaMode::Escape(q) => if c == '\n' {
                (LuaMode::Code, d)
            } else {
                (LuaMode::Str(q), d)
            },
            LuaMode::Long(k) => if c == ']' {
                (LuaMode::LongClose(k, 0), d)
            } else {
                (LuaMode::Long(k), d)
            },
            LuaMode::LongClose(k, j) => if c == '=' {
                (LuaMode::LongClose(k, j + 1), d)
            } else if c == ']' {
                if j == k {
                    (LuaMode::Code, d)
                } else {
                    (LuaMode::LongClose(k, 0), d)
                }
            } else {
                (LuaMode::Long(k), d)
            },
        }
    }
}

pub struct Lexer<'a> {
    input: &'a str,
    chars: Vec<char>,
    index: usize,
    pos: usize,
    line: usize,
    column: usize,
}

impl<'a> Lexer<'a> {
    /// The characters being tokenized.
    pub closed spec fn source(&self) -> Seq<char> {
        self.chars@
    }

    /// The index of the next character to read.
    pub closed spec fn position(&self) -> int {
        self.index as int
    }

    /// The lexer's bookkeeping agrees with its index into the input.
    pub closed spec fn wf(&self) -> bool {
        &&& self.chars@ == self.input@
        &&& addressable(self.chars@)
        &&& self.index <= self.chars@.len()
        &&& self.pos == byte_at(self.chars@, self.index as int)
        &&& self.line == line_at(self.chars@, self.index as int)
        &&& self.column == column_at(self.chars@, self.index as int)
    }

    pub fn new(input: &'a str) -> (l: Self)
        requires
            addressable(input@),
        ensures
            l.wf(),
            l.source() == input@,
            l.position() == 0,
    {
        let chars = str_chars(input);
        assert(chars@.take(0) == Seq::<char>::empty());
        assert(encode_utf8(Seq::<char>::empty()) == Seq::<u8>::empty());
        Lexer { input, chars, index: 0, pos: 0, line: 1, column: 1 }
    }

    pub fn tokenize(self) -> (r: Result<Vec<Token>, FormatError>)
        requires
            self.wf(),
        ensures
            lex_result_matches(r, self.source(), self.position()),
    {
        match self.tokenize_indexed() {
            Ok((tokens, _starts)) => Ok(tokens),
            Err(e) => Err(e),
        }
    }

    /// Tokenizes, also returning the character index at which each token starts.
    pub(crate) fn tokenize_indexed(self) -> (r: Result<(Vec<Token>, Vec<usize>), FormatError>)
        requires
            self.wf(),
        ensures
            match r {
                Ok((ts, starts)) => lex_from(self.source(), self.position(), LexContext::Start) matches Ok(ls)
                    && tokens_match(ts@, self.source(), ls) && starts@.len() == ls.len()
                    && forall|k: int| 0 <= k < ls.len() ==> starts@[k] == #[trigger] ls[k].start,
                Err(e) => lex_from(self.source(), self.position(), LexContext::Start) matches Err(f)
                    && is_parse_failure(e, f),
            },
    {
        let mut lexer = self;
        let ghost s = lexer.chars@;
        let ghost p0 = lexer.index as int;
        let mut tokens: Vec<Token> = Vec::new();
        let mut starts: Vec<usize> = Vec::new();
        let mut ctx = LexContext::Start;
        let ghost mut done: Seq<Lexeme> = Seq::empty();
        proof {
            lemma_prepend_all_empty(lex_from(s, p0, LexContext::Start));
        }
        while !lexer.is_at_end()
            invariant
                lexer.wf(),
                lexer.chars@ == s,
                s == self.chars@,
                p0 == self.index,
                p0 <= lexer.index,
                lex_from(s, p0, LexContext::Start) == prepend_all(done, lex_from(s, lexer.index as int, ctx)),
                tokens_match(tokens@, s, done),
                starts@.len() == done.len(),
                forall|k: int| 0 <= k < done.len() ==> starts@[k] == #[trigger] done[k].start,
            decreases s.len() - lexer.index,
        {
            let ghost before = lexer.index as int;
            let ghost tokens_before = tokens@;
            let ghost starts_before = starts@;
            let _ = lexer.skip_trivia(&mut tokens, &mut starts);
            proof {
                let new_ls = trivia_newlines(s, before);
                let added = tokens@.skip(tokens_before.len() as int);
                assert(tokens@ == tokens_before + added);
                lemma_tokens_match_append(tokens_before, added, s, done, new_ls);
                lemma_trivia(s, before, ctx);
                if let Ok(rest) = lex_from(s, lexer.index as int, ctx) {
                    assert(done + (new_ls + rest) == (done + new_ls) + rest);
                }
                assert forall|k: int| 0 <= k < done.len() + new_ls.len() implies starts@[k]
                    == #[trigger] (done + new_ls)[k].start by {
                    if k >= done.len() {
                        assert(starts@[k] == starts@.skip(starts_before.len() as int)[k - done.len()]);
                    }
                }
                done = done + new_ls;
            }
            if !lexer.is_at_end() {
                let ch = lexer.peek_char();
                if ch == '{' && ctx == LexContext::Words(true) {
                    let ghost i = lexer.index as int;
                    let start = lexer.pos;
                    let start_index = lexer.index;
                    let line = lexer.line;
                    let column = lexer.column;
                    lexer.advance();
                    let text = string_from_range(&lexer.chars, start_index, lexer.index);
                    let token = Token {
                        kind: TokenKind::LBrace,
                        text,
                        span: Span::new(start, lexer.pos, line, column),
                    };
                    let ghost lb = Lexeme { kind: TokenKind::LBrace, start: i, end: i + 1 };
                    let ghost tb = tokens@;
                    tokens.push(token);
                    starts.push(start_index);
                    proof {
                        assert(tokens_match(seq![token], s, seq![lb]));
                        lemma_tokens_match_append(tb, seq![token], s, done, seq![lb]);
                        assert(tb + seq![token] == tokens@);
                        lemma_blank_end_bounds(s, i + 1);
                    }
                    lexer.skip_blanks();
                    let b_index = lexer.index;
                    let b_pos = lexer.pos;
                    let b_line = lexer.line;
                    let b_column = lexer.column;
                    let ghost bi = b_index as int;
                    proof {
                        lemma_lua_close_bounds(s, bi, LuaMode::Code, 1);
                    }
                    let closed = lexer.scan_lua_body();
                    let ghost body = lua_body_lexemes(bi, lexer.index as int);
                    let ghost tb2 = tokens@;
                    let ghost sb2 = starts@;
                    if b_index < lexer.index {
                        let btext = string_from_range(&lexer.chars, b_index, lexer.index);
                        let btoken = Token {
                            kind: TokenKind::LuaBody,
                            text: btext,
                            span: Span::new(b_pos, lexer.pos, b_line, b_column),
                        };
                        tokens.push(btoken);
                        starts.push(b_index);
                        proof {
                            assert(body == seq![Lexeme { kind: TokenKind::LuaBody, start: bi, end: lexer.index as int }]);
                            assert(tokens_match(seq![btoken], s, body));
                            lemma_tokens_match_append(tb2, seq![btoken], s, done.push(lb), body);
                            assert(tb2 + seq![btoken] == tokens@);
                        }
                    } else {
                        proof {
                            assert(body == Seq::<Lexeme>::empty());
                            assert(done.push(lb) + body == done.push(lb));
                            assert(tokens@ == tb2);
                        }
                    }
                    let ghost done2 = done.push(lb) + body;
                    proof {
                        assert(tokens_match(tokens@, s, done2));
                        assert forall|k: int| 0 <= k < done2.len() implies starts@[k] == #[trigger] done2[k].start by {
                            if k < done.len() {
                                assert(done2[k] == done[k]);
                            } else if k == done.len() {
                                assert(done2[k] == lb);
                            } else {
                                assert(done2[k] == body[0]);
                            }
                        }
                    }
                    if closed {
                        let ghost e = lexer.index as int;
                        let r_start = lexer.pos;
                        let r_index = lexer.index;
                        let r_line = lexer.line;
                        let r_column = lexer.column;
                        lexer.advance();
                        let rtext = string_from_range(&lexer.chars, r_index, lexer.index);
                        let rtoken = Token {
                            kind: TokenKind::RBrace,
                            text: rtext,
                            span: Span::new(r_start, lexer.pos, r_line, r_column),
                        };
                        let ghost rb = Lexeme { kind: TokenKind::RBrace, start: e, end: e + 1 };
                        let ghost tb3 = tokens@;
                        tokens.push(rtoken);
                        starts.push(r_index);
                        proof {
                            assert(tokens_match(seq![rtoken], s, seq![rb]));
                            lemma_tokens_match_append(tb3, seq![rtoken], s, done2, seq![rb]);
                            assert(tb3 + seq![rtoken] == tokens@);
                            let after = lex_from(s, e + 1, LexContext::Start);
                            assert(lex_from(s, i, ctx) == prepend(lb, prepend_all(body, prepend(rb, after))));
                            if let Ok(rest) = after {
                                assert(done + (seq![lb] + (body + (seq![rb] + rest))) == done2.push(rb) + rest);
                            }
                            assert forall|k: int| 0 <= k < done2.push(rb).len() implies starts@[k] == #[trigger] done2.push(rb)[k].start by {
                                if k < done2.len() {
                                    assert(done2.push(rb)[k] == done2[k]);
                                }
                            }
                            done = done2.push(rb);
                        }
                    } else {
                        proof {
                            assert(lex_from(s, i, ctx) == prepend(lb, Ok::<Seq<Lexeme>, ParseFailure>(body)));
                            assert(lex_from(s, lexer.index as int, LexContext::Start) == Ok::<Seq<Lexeme>, ParseFailure>(seq![]));
                            assert(done + (seq![lb] + body) == done2 + Seq::<Lexeme>::empty());
                            done = done2;
                        }
                    }
                    ctx = LexContext::Start;
                } else {
                    let start = lexer.pos;
                    let start_index = lexer.index;
                    let line = lexer.line;
                    let column = lexer.column;
                    let ghost i = lexer.index as int;
                    let (kind, text, next) = if ch == '{' {
                        lexer.advance();
                        (TokenKind::LBrace, string_from_range(&lexer.chars, start_index, lexer.index), LexContext::Start)
                    } else if ch == '}' {
                        lexer.advance();
                        (TokenKind::RBrace, string_from_range(&lexer.chars, start_index, lexer.index), LexContext::Start)
                    } else if ch == ';' {
                        lexer.advance();
                        (TokenKind::Semicolon, string_from_range(&lexer.chars, start_index, lexer.index), LexContext::Start)
                    } else if ch == '\'' || ch == '"' {
                        match lexer.read_quoted_string(ch) {
                            Ok((k, t)) => (k, t, next_context(ctx, false)),
                            Err(e) => {
                                return Err(e);
                            },
                        }
                    } else if ch == '#' {
                        let (k, t) = lexer.read_comment();
                        (k, t, ctx)
                    } else if is_atom_char(ch) {
                        let (k, t) = lexer.read_atom();
                        let lua = crate::ast::is_lua_block_name(t.as_str());
                        (k, t, next_context(ctx, lua))
                    } else {
                        let mut message: Vec<char> = Vec::new();
                        push_str(&mut message, "unexpected character '");
                        message.push(ch);
                        push_str(&mut message, "'");
                        proof {
                            assert(message@ == unexpected_char_message(ch));
                        }
                        return Err(FormatError::parse(line, column, string_from_chars(&message)));
                    };
                    proof {
                        lemma_quote_scan_bounds(s, i + 1, ch);
                        lemma_comment_end_bounds(s, i);
                        lemma_atom_end_bounds(s, i);
                    }
                    let end = lexer.pos;
                    let ghost lexeme = Lexeme { kind, start: i, end: lexer.index as int };
                    proof {
                        assert(lex_from(s, i, ctx) == prepend(lexeme, lex_from(s, lexer.index as int, next)));
                        lemma_prepend_all_push(done, lexeme, lex_from(s, lexer.index as int, next));
                    }
                    let ghost tokens_before2 = tokens@;
                    let token = Token { kind, text, span: Span::new(start, end, line, column) };
                    tokens.push(token);
                    starts.push(start_index);
                    proof {
                        assert(tokens_match(seq![token], s, seq![lexeme]));
                        lemma_tokens_match_append(tokens_before2, seq![token], s, done, seq![lexeme]);
                        assert(tokens_before2 + seq![token] == tokens@);
                        assert(done + seq![lexeme] == done.push(lexeme));
                        done = done.push(lexeme);
                    }
                    ctx = next;
                }
            }
        }
        proof {
            assert(done + Seq::<Lexeme>::empty() == done);
        }
        Ok((tokens, starts))
    }

    /// Skips blanks: whitespace other than newlines.
    fn skip_blanks(&mut self)
        requires
            old(self).wf(),
        ensures
            final(self).wf(),
            final(self).chars@ == old(self).chars@,
            final(self).index == blank_end(old(self).chars@, old(self).index as int),
    {
        let ghost s = self.chars@;
        while !self.is_at_end() && is_whitespace(self.peek_char()) && self.peek_char() != '\n'
            invariant
                self.wf(),
                self.chars@ == s,
                s == old(self).chars@,
                blank_end(s, old(self).index as int) == blank_end(s, self.index as int),
            decreases s.len() - self.index,
        {
            self.advance();
        }
    }

    /// Scans Lua code from the current character to the brace that closes it,
    /// stopping on that brace, or to the end when none does.
    fn scan_lua_body(&mut self) -> (closed: bool)
        requires
            old(self).wf(),
        ensures
            final(self).wf(),
            final(self).chars@ == old(self).chars@,
            match lua_close(old(self).chars@, old(self).index as int, LuaMode::Code, 1) {
                Some(e) => closed && final(self).index == e,
                None => !closed && final(self).index == old(self).chars@.len(),
            },
    {
        let ghost s = self.chars@;
        let ghost i0 = self.index as int;
        let mut mode = LuaMode::Code;
        let mut depth: usize = 1;
        proof {
            lemma_encode_utf8_len(s);
        }
        while !self.is_at_end()
            invariant
                self.wf(),
                self.chars@ == s,
                s == old(self).chars@,
                i0 == old(self).index,
                i0 <= self.index <= s.len(),
                s.len() < usize::MAX,
                1 <= depth <= self.index - i0 + 1,
                lua_levels_within(mode, self.index - i0),
                lua_close(s, i0, LuaMode::Code, 1) == lua_close(s, self.index as int, mode, depth as int),
            decreases s.len() - self.index,
        {
            let c = self.peek_char();
            let code_like = match mode {
                LuaMode::Code => true,
                LuaMode::Dash => true,
                LuaMode::Bracket(_) => true,
                _ => false,
            };
            if code_like && c == '}' && depth == 1 {
                return true;
            }
            let (m2, d2) = lua_next_exec(mode, depth, c, Ghost(self.index - i0));
            mode = m2;
            depth = d2;
            self.advance();
        }
        false
    }
    fn skip_trivia(&mut self, tokens: &mut Vec<Token>, starts: &mut Vec<usize>) -> (r: Result<
        (),
        FormatError,
    >)
        requires
            old(self).wf(),
        ensures
            r is Ok,
            final(self).wf(),
            final(self).chars@ == old(self).chars@,
            final(self).index == trivia_end(old(self).chars@, old(self).index as int),
            final(tokens)@.len() >= old(tokens)@.len(),
            final(tokens)@.take(old(tokens)@.len() as int) == old(tokens)@,
            tokens_match(
                final(tokens)@.skip(old(tokens)@.len() as int),
                old(self).chars@,
                trivia_newlines(old(self).chars@, old(self).index as int),
            ),
            final(starts)@.len() == old(starts)@.len() + trivia_newlines(
                old(self).chars@,
                old(self).index as int,
            ).len(),
            final(starts)@.take(old(starts)@.len() as int) == old(starts)@,
            forall|k: int|
                0 <= k < trivia_newlines(old(self).chars@, old(self).index as int).len()
                    ==> final(starts)@[old(starts)@.len() + k] == #[trigger] trivia_newlines(
                    old(self).chars@,
                    old(self).index as int,
                )[k].start,
    {
        let ghost s = self.chars@;
        let ghost i0 = self.index as int;
        let ghost t0 = tokens@;
        let ghost st0 = starts@;
        let ghost mut seen: Seq<Lexeme> = Seq::empty();
        assert(t0.skip(t0.len() as int) == Seq::<Token>::empty());
        loop
            invariant_except_break
                self.wf(),
                self.chars@ == s,
                s == old(self).chars@,
                i0 == old(self).index,
                t0 == old(tokens)@,
                st0 == old(starts)@,
                i0 <= self.index,
                trivia_newlines(s, i0) == seen + trivia_newlines(s, self.index as int),
                trivia_end(s, i0) == trivia_end(s, self.index as int),
                tokens@.len() == t0.len() + seen.len(),
                tokens@.take(t0.len() as int) == t0,
                tokens_match(tokens@.skip(t0.len() as int), s, seen),
                starts@.len() == st0.len() + seen.len(),
                starts@.take(st0.len() as int) == st0,
                forall|k: int| 0 <= k < seen.len() ==> starts@[st0.len() + k] == #[trigger] seen[k].start,
            ensures
                self.wf(),
                self.chars@ == s,
                self.index == trivia_end(s, i0),
                tokens@.len() == t0.len() + trivia_newlines(s, i0).len(),
                tokens@.take(t0.len() as int) == t0,
                tokens_match(tokens@.skip(t0.len() as int), s, trivia_newlines(s, i0)),
                starts@.len() == st0.len() + trivia_newlines(s, i0).len(),
                starts@.take(st0.len() as int) == st0,
                forall|k: int|
                    0 <= k < trivia_newlines(s, i0).len() ==> starts@[st0.len() + k]
                        == #[trigger] trivia_newlines(s, i0)[k].start,
            decreases s.len() - self.index,
        {
            if self.is_at_end() {
                assert(trivia_newlines(s, self.index as int) == Seq::<Lexeme>::empty());
                assert(seen + Seq::<Lexeme>::empty() == seen);
                return Ok(());
            }
            let ch = self.peek_char();
            if ch == '\n' {
                let start = self.pos;
                let start_index = self.index;
                let line = self.line;
                let column = self.column;
                self.advance();
                let text = string_from_range(&self.chars, start_index, self.index);
                let token = Token {
                    kind: TokenKind::Newline,
                    text,
                    span: Span::new(start, self.pos, line, column),
                };
                let ghost lexeme = Lexeme {
                    kind: TokenKind::Newline,
                    start: start_index as int,
                    end: start_index + 1,
                };
                let ghost old_tokens = tokens@;
                tokens.push(token);
                starts.push(start_index);
                proof {
                    assert(token_matches(token, s, lexeme));
                    assert(tokens@.skip(t0.len() as int) == old_tokens.skip(t0.len() as int)
                        + seq![token]);
                    lemma_tokens_match_append(
                        old_tokens.skip(t0.len() as int),
                        seq![token],
                        s,
                        seen,
                        seq![lexeme],
                    );
                    assert(trivia_newlines(s, start_index as int) == seq![lexeme]
                        + trivia_newlines(s, self.index as int));
                    assert(seen + (seq![lexeme] + trivia_newlines(s, self.index as int)) == (seen
                        + seq![lexeme]) + trivia_newlines(s, self.index as int));
                    seen = seen + seq![lexeme];
                    assert(tokens@.take(t0.len() as int) == t0);
                    assert(starts@.take(st0.len() as int) == st0);
                }
                continue;
            }
            if is_whitespace(ch) && ch != '\n' {
                self.advance();
                continue;
            }
            assert(trivia_newlines(s, self.index as int) == Seq::<Lexeme>::empty());
            assert(seen + Seq::<Lexeme>::empty() == seen);
            return Ok(());
        }
    }

    fn read_atom(&mut self) -> (r: (TokenKind, String))
        requires
            old(self).wf(),
            old(self).index < old(self).chars@.len(),
            spec_is_atom_char(old(self).chars@[old(self).index as int]),
        ensures
            final(self).wf(),
            final(self).chars@ == old(self).chars@,
            final(self).index == atom_end(old(self).chars@, old(self).index as int),
            r.0 == TokenKind::Ident,
            r.1@ == old(self).chars@.subrange(old(self).index as int, final(self).index as int),
    {
        let start = self.index;
        let ghost s = self.chars@;
        while !self.is_at_end() && is_atom_char(self.peek_char())
            invariant
                self.wf(),
                self.chars@ == s,
                start <= self.index,
                atom_end(s, start as int) == atom_end(s, self.index as int),
            decreases s.len() - self.index,
        {
            self.advance();
        }
        (TokenKind::Ident, string_from_range(&self.chars, start, self.index))
    }

    fn read_quoted_string(&mut self, quote: char) -> (r: Result<(TokenKind, String), FormatError>)
        requires
            old(self).wf(),
            old(self).index < old(self).chars@.len(),
            old(self).chars@[old(self).index as int] == quote,
            quote == '\'' || quote == '"',
        ensures
            final(self).wf(),
            final(self).chars@ == old(self).chars@,
            match quote_scan(old(self).chars@, old(self).index + 1, quote) {
                QuoteEnd::Closed(e) => r matches Ok((kind, text)) && kind == TokenKind::String
                    && final(self).index == e && text@ == old(self).chars@.subrange(
                    old(self).index as int,
                    e,
                ),
                QuoteEnd::Unterminated(p) => r matches Err(err) && is_parse_failure(
                    err,
                    failure_at(old(self).chars@, p, "unterminated string literal"@),
                ),
                QuoteEnd::BadEscape(p) => r matches Err(err) && is_parse_failure(
                    err,
                    failure_at(old(self).chars@, p, "unterminated escape in string"@),
                ),
            },
    {
        let ghost s = self.chars@;
        let start = self.index;
        self.advance();
        while !self.is_at_end()
            invariant
                self.wf(),
                self.chars@ == s,
                s == old(self).chars@,
                start == old(self).index,
                start < self.index,
                s[start as int] == quote,
                quote_scan(s, start + 1, quote) == quote_scan(s, self.index as int, quote),
            decreases s.len() - self.index,
        {
            let ch = self.peek_char();
            if ch == '\\' {
                self.advance();
                if self.is_at_end() {
                    let mut m: Vec<char> = Vec::new();
                    push_str(&mut m, "unterminated escape in string");
                    return Err(FormatError::parse(self.line, self.column, string_from_chars(&m)));
                }
                self.advance();
                continue;
            }
            if ch == quote {
                self.advance();
                return Ok((TokenKind::String, string_from_range(&self.chars, start, self.index)));
            }
            if ch == '\n' {
                let mut m: Vec<char> = Vec::new();
                push_str(&mut m, "unterminated string literal");
                return Err(FormatError::parse(self.line, self.column, string_from_chars(&m)));
            }
            self.advance();
        }
        let mut m: Vec<char> = Vec::new();
        push_str(&mut m, "unterminated string literal");
        Err(FormatError::parse(self.line, self.column, string_from_chars(&m)))
    }

    fn read_comment(&mut self) -> (r: (TokenKind, String))
        requires
            old(self).wf(),
        ensures
            final(self).wf(),
            final(self).chars@ == old(self).chars@,
            final(self).index == comment_end(old(self).chars@, old(self).index as int),
            r.0 == TokenKind::Comment,
            r.1@ == old(self).chars@.subrange(old(self).index as int, final(self).index as int),
    {
        let start = self.index;
        let ghost s = self.chars@;
        while !self.is_at_end() && self.peek_char() != '\n'
            invariant
                self.wf(),
                self.chars@ == s,
                start <= self.index,
                comment_end(s, start as int) == comment_end(s, self.index as int),
            decreases s.len() - self.index,
        {
            self.advance();
        }
        (TokenKind::Comment, string_from_range(&self.chars, start, self.index))
    }

    fn peek_char(&self) -> (c: char)
        requires
            self.wf(),
        ensures
            self.index < self.chars@.len() ==> c == self.chars@[self.index as int],
            self.index >= self.chars@.len() ==> c == '\0',
    {
        if self.index < self.chars.len() {
            self.chars[self.index]
        } else {
            '\0'
        }
    }

    fn advance(&mut self)
        requires
            old(self).wf(),
        ensures
            final(self).wf(),
            final(self).chars@ == old(self).chars@,
            final(self).index == if old(self).index < old(self).chars@.len() {
                old(self).index + 1
            } else {
                old(self).index as int
            },
    {
        if self.is_at_end() {
            return;
        }
        let ghost s = self.chars@;
        let ghost i = self.index as int;
        let ch = self.peek_char();
        proof {
            lemma_byte_at_step(s, i);
            lemma_byte_at_bound(s, i + 1);
            lemma_encode_utf8_len(s);
            lemma_positions_bound(s, i + 1);
        }
        self.pos = self.pos + char_width(ch);
        self.index = self.index + 1;
        if ch == '\n' {
            self.line = self.line + 1;
            self.column = 1;
        } else {
            self.column = self.column + 1;
        }
    }

    fn is_at_end(&self) -> (b: bool)
        ensures
            b == (self.index >= self.chars@.len()),
    {
        self.index >= self.chars.len()
    }
}

} // verus!
