use vstd::prelude::*;

use crate::ast::{
    is_lua_block_name, is_lua_name, lemma_nodes_view_push, node_view,
    nodes_view, Block, Directive, Node, NodeView, OpaqueBlock,
};
use crate::error::{is_parse_failure, FormatError, ParseFailure};
use crate::lexer::{
    addressable, failure_at, lex, lex_from, token_matches, tokens_match, LexContext, Lexeme, Lexer,
    LuaMode, Token, TokenKind,
};
use crate::formatter::view_height;
use crate::text::{
    spec_is_whitespace, joined, opt_string_view, push_joined, push_str, push_string, string_from_chars,
    string_from_range, strings_view,
};

verus! {

// ---------------------------------------------------------------------------
// The grammar over tokens
// ---------------------------------------------------------------------------

/// The characters of token `k`.
pub open spec fn token_text(s: Seq<char>, ls: Seq<Lexeme>, k: int) -> Seq<char> {
    s.subrange(ls[k].start, ls[k].end)
}

/// Whether there is a token `k` and it is of the given kind.
pub open spec fn kind_is(ls: Seq<Lexeme>, k: int, kind: TokenKind) -> bool {
    0 <= k < ls.len() && ls[k].kind == kind
}

/// A failure reported at token `k`, or at line 1, column 1 past the last token.
pub open spec fn failure_at_token(
    s: Seq<char>,
    ls: Seq<Lexeme>,
    k: int,
    message: Seq<char>,
) -> ParseFailure {
    if 0 <= k < ls.len() {
        failure_at(s, ls[k].start, message)
    } else {
        ParseFailure { line: 1, column: 1, message }
    }
}

/// The end of the run of words (bare or quoted) that starts at token `k`.
pub open spec fn words_end(ls: Seq<Lexeme>, k: int) -> int
    decreases ls.len() - k,
{
    if kind_is(ls, k, TokenKind::Ident) || kind_is(ls, k, TokenKind::String) {
        words_end(ls, k + 1)
    } else {
        k
    }
}

/// The end of the run of newline tokens that starts at token `k`.
pub open spec fn newlines_end(ls: Seq<Lexeme>, k: int) -> int
    decreases ls.len() - k,
{
    if kind_is(ls, k, TokenKind::Newline) {
        newlines_end(ls, k + 1)
    } else {
        k
    }
}

/// The texts of tokens `a..b`.
pub open spec fn texts(s: Seq<char>, ls: Seq<Lexeme>, a: int, b: int) -> Seq<Seq<char>> {
    Seq::new((b - a) as nat, |j: int| token_text(s, ls, a + j))
}

/// The comment at token `k`, if there is one.
pub open spec fn comment_at(s: Seq<char>, ls: Seq<Lexeme>, k: int) -> Option<Seq<char>> {
    if kind_is(ls, k, TokenKind::Comment) {
        Some(token_text(s, ls, k))
    } else {
        None
    }
}

/// The token after a comment at `k`, if there is one there.
pub open spec fn past_comment(ls: Seq<Lexeme>, k: int) -> int {
    if kind_is(ls, k, TokenKind::Comment) {
        k + 1
    } else {
        k
    }
}

pub open spec fn first_some(a: Option<Seq<char>>, b: Option<Seq<char>>) -> Option<Seq<char>> {
    match a {
        Some(x) => Some(x),
        None => b,
    }
}

/// Comment nodes for the given comments.
pub open spec fn comment_nodes(cs: Seq<Seq<char>>) -> Seq<NodeView> {
    Seq::new(cs.len(), |j: int| NodeView::Comment(cs[j]))
}

/// The closing brace that matches `depth` open braces, scanning from token `k`.
pub open spec fn opaque_end(ls: Seq<Lexeme>, k: int, depth: int) -> Option<int>
    decreases ls.len() - k,
{
    if k < 0 || k >= ls.len() {
        None
    } else if ls[k].kind == TokenKind::LBrace {
        opaque_end(ls, k + 1, depth + 1)
    } else if ls[k].kind == TokenKind::RBrace {
        if depth - 1 == 0 {
            Some(k)
        } else {
            opaque_end(ls, k + 1, depth - 1)
        }
    } else {
        opaque_end(ls, k + 1, depth)
    }
}

pub open spec fn unexpected_token_message(text: Seq<char>) -> Seq<char> {
    "unexpected token '"@ + text + "'"@
}

pub open spec fn expected_after_message(words: Seq<char>) -> Seq<char> {
    "expected ';' or '{' after '"@ + words + "'"@
}

/// The nodes from token `k` up to a closing brace or the end, after the nodes
/// `acc` and with the comments `pending` not yet attached to a statement;
/// the index returned is that of the closing brace or the end.
pub open spec fn parse_nodes_from(
    s: Seq<char>,
    ls: Seq<Lexeme>,
    k: int,
    pending: Seq<Seq<char>>,
    acc: Seq<NodeView>,
) -> Result<(Seq<NodeView>, int), ParseFailure>
    decreases ls.len() - k, 1int,
{
    if k < 0 || k >= ls.len() {
        Ok((acc + comment_nodes(pending), k))
    } else {
        match ls[k].kind {
            TokenKind::Comment => parse_nodes_from(
                s,
                ls,
                k + 1,
                pending.push(token_text(s, ls, k)),
                acc,
            ),
            TokenKind::Newline => parse_nodes_from(
                s,
                ls,
                k + 1,
                pending,
                if kind_is(ls, k + 1, TokenKind::Newline) {
                    acc.push(NodeView::BlankLine)
                } else {
                    acc
                },
            ),
            TokenKind::Ident => match parse_statement_at(s, ls, k, pending) {
                Ok((node, j)) => if k < j <= ls.len() {
                    parse_nodes_from(s, ls, j, seq![], acc.push(node))
                } else {
                    Err(failure_at_token(s, ls, k, seq![]))
                },
                Err(e) => Err(e),
            },
            TokenKind::RBrace => Ok((acc + comment_nodes(pending), k)),
            _ => Err(
                failure_at_token(s, ls, k, unexpected_token_message(token_text(s, ls, k))),
            ),
        }
    }
}

/// The statement at token `k`, with the comments `pending` before it, and the
/// index of the token after it.
pub open spec fn parse_statement_at(
    s: Seq<char>,
    ls: Seq<Lexeme>,
    k: int,
    pending: Seq<Seq<char>>,
) -> Result<(NodeView, int), ParseFailure>
    decreases ls.len() - k, 0int,
{
    if !kind_is(ls, k, TokenKind::Ident) {
        Err(failure_at_token(s, ls, k, "expected identifier"@))
    } else {
        let w = words_end(ls, k + 1);
        let parts = texts(s, ls, k, w);
        let n = newlines_end(ls, w);
        let inline = comment_at(s, ls, n);
        let a = past_comment(ls, n);
        if kind_is(ls, a, TokenKind::Semicolon) {
            Ok(
                (
                    NodeView::Directive {
                        leading: pending,
                        name: parts[0],
                        args: parts.drop_first(),
                        inline: first_some(inline, comment_at(s, ls, a + 1)),
                    },
                    past_comment(ls, a + 1),
                ),
            )
        } else if kind_is(ls, a, TokenKind::LBrace) {
            if is_lua_name(parts[0]) {
                match opaque_end(ls, a + 1, 1) {
                    Some(m) => Ok(
                        (
                            NodeView::Opaque {
                                leading: pending,
                                header: joined(parts, " "@),
                                body: s.subrange(ls[a + 1].start, ls[m].start),
                                inline,
                            },
                            m + 1,
                        ),
                    ),
                    None => Err(
                        ParseFailure { line: 1, column: 1, message: "unterminated opaque block"@ },
                    ),
                }
            } else {
                proof {
                    lemma_words_end(ls, k + 1);
                    lemma_newlines_end(ls, w);
                }
                match parse_nodes_from(s, ls, a + 1, seq![], seq![]) {
                    Ok((children, m)) => if kind_is(ls, m, TokenKind::RBrace) {
                        Ok(
                            (
                                NodeView::Block {
                                    leading: pending,
                                    name: parts[0],
                                    args: parts.drop_first(),
                                    children,
                                    inline,
                                },
                                m + 1,
                            ),
                        )
                    } else {
                        Err(failure_at_token(s, ls, m, "expected '}'"@))
                    },
                    Err(e) => Err(e),
                }
            }
        } else {
            Err(failure_at_token(s, ls, a, expected_after_message(joined(parts, " "@))))
        }
    }
}

/// The nodes of a whole input, or the failure that stops its parse.
pub open spec fn parse_spec(s: Seq<char>) -> Result<Seq<NodeView>, ParseFailure> {
    match lex(s) {
        Ok(ls) => match parse_nodes_from(s, ls, 0, seq![], seq![]) {
            Ok((nodes, _end)) => Ok(nodes),
            Err(e) => Err(e),
        },
        Err(e) => Err(e),
    }
}

/// Whether `r` is the outcome that `parse_spec` gives for `s`.
pub open spec fn parse_result_matches(r: Result<Vec<Node>, FormatError>, s: Seq<char>) -> bool {
    match r {
        Ok(nodes) => parse_spec(s) == Ok::<Seq<NodeView>, ParseFailure>(nodes_view(nodes@)),
        Err(e) => parse_spec(s) matches Err(f) && is_parse_failure(e, f),
    }
}

// ---------------------------------------------------------------------------
// Lemmas
// ---------------------------------------------------------------------------

pub proof fn lemma_words_end(ls: Seq<Lexeme>, k: int)
    requires
        0 <= k <= ls.len(),
    ensures
        k <= words_end(ls, k) <= ls.len(),
        forall|j: int|
            k <= j < words_end(ls, k) ==> (#[trigger] ls[j]).kind == TokenKind::Ident || ls[j].kind
                == TokenKind::String,
        !kind_is(ls, words_end(ls, k), TokenKind::Ident),
        !kind_is(ls, words_end(ls, k), TokenKind::String),
    decreases ls.len() - k,
{
    if kind_is(ls, k, TokenKind::Ident) || kind_is(ls, k, TokenKind::String) {
        lemma_words_end(ls, k + 1);
    }
}

pub proof fn lemma_newlines_end(ls: Seq<Lexeme>, k: int)
    requires
        0 <= k <= ls.len(),
    ensures
        k <= newlines_end(ls, k) <= ls.len(),
        !kind_is(ls, newlines_end(ls, k), TokenKind::Newline),
    decreases ls.len() - k,
{
    if kind_is(ls, k, TokenKind::Newline) {
        lemma_newlines_end(ls, k + 1);
    }
}

pub proof fn lemma_opaque_end(ls: Seq<Lexeme>, k: int, depth: int)
    requires
        0 <= k <= ls.len(),
    ensures
        opaque_end(ls, k, depth) matches Some(m) ==> k <= m < ls.len() && ls[m].kind
            == TokenKind::RBrace,
    decreases ls.len() - k,
{
    if k < ls.len() {
        lemma_opaque_end(ls, k + 1, depth + 1);
        lemma_opaque_end(ls, k + 1, depth - 1);
        lemma_opaque_end(ls, k + 1, depth);
    }
}

/// The lexemes of an input lie inside it, in order.
pub open spec fn lexemes_ordered(ls: Seq<Lexeme>, lo: int, hi: int) -> bool {
    &&& forall|k: int| 0 <= k < ls.len() ==> lo <= (#[trigger] ls[k]).start < ls[k].end <= hi
    &&& forall|k: int, j: int| 0 <= k < j < ls.len() ==> (#[trigger] ls[k]).end <= (#[trigger] ls[j]).start
}

pub proof fn lemma_lex_ordered(s: Seq<char>, i: int, st: LexContext)
    requires
        0 <= i <= s.len(),
    ensures
        lex_from(s, i, st) matches Ok(ls) ==> lexemes_ordered(ls, i, s.len() as int),
    decreases s.len() - i,
{
    if i < s.len() {
        let c = s[i];
        crate::lexer::lemma_quote_scan_bounds(s, i + 1, c);
        crate::lexer::lemma_comment_end_bounds(s, i);
        crate::lexer::lemma_atom_end_bounds(s, i);
        let lb = Lexeme { kind: TokenKind::LBrace, start: i, end: i + 1 };
        if c == '{' && st == LexContext::Words(true) {
            let b = crate::lexer::blank_end(s, i + 1);
            crate::lexer::lemma_blank_end_bounds(s, i + 1);
            crate::lexer::lemma_lua_close_bounds(s, b, LuaMode::Code, 1);
            let r = crate::lexer::lua_resume(s, i + 1);
            lemma_lex_ordered(s, r, LexContext::Start);
            if let Ok(ls) = lex_from(s, i, st) {
                match crate::lexer::lua_close(s, b, LuaMode::Code, 1) {
                    Some(e) => {
                        let body = crate::lexer::lua_body_lexemes(b, e);
                        let rb = Lexeme { kind: TokenKind::RBrace, start: e, end: e + 1 };
                        let rest = lex_from(s, e + 1, LexContext::Start)->Ok_0;
                        assert(ls == seq![lb] + (body + (seq![rb] + rest)));
                        let n = 2 + body.len();
                        assert forall|k: int| 0 <= k < ls.len() implies i <= (#[trigger] ls[k]).start
                            < ls[k].end <= s.len() by {
                            if k >= n {
                                assert(ls[k] == rest[k - n]);
                            }
                        }
                        assert forall|k: int, j: int| 0 <= k < j < ls.len() implies (#[trigger] ls[k]).end
                            <= (#[trigger] ls[j]).start by {
                            if k >= n {
                                assert(ls[k] == rest[k - n]);
                            }
                            if j >= n {
                                assert(ls[j] == rest[j - n]);
                            }
                        }
                    },
                    None => {
                        let body = crate::lexer::lua_body_lexemes(b, s.len() as int);
                        assert(ls == seq![lb] + body);
                    },
                }
            }
        } else {
            let next_st = if c == '{' || c == '}' || c == ';' {
                LexContext::Start
            } else if c == '\'' || c == '"' {
                crate::lexer::word_context(st, false)
            } else if c == '#' || spec_is_whitespace(c) {
                st
            } else {
                crate::lexer::word_context(st, is_lua_name(s.subrange(i, crate::lexer::atom_end(s, i))))
            };
            let next = if c == '\n' || c == '{' || c == '}' || c == ';' || spec_is_whitespace(c) {
                i + 1
            } else if c == '\'' || c == '"' {
                match crate::lexer::quote_scan(s, i + 1, c) {
                    crate::lexer::QuoteEnd::Closed(e) => e,
                    _ => i + 1,
                }
            } else if c == '#' {
                crate::lexer::comment_end(s, i)
            } else {
                crate::lexer::atom_end(s, i)
            };
            lemma_lex_ordered(s, next, next_st);
            if let Ok(ls) = lex_from(s, i, st) {
                if spec_is_whitespace(c) && c != '\n' {
                    assert(lex_from(s, i, st) == lex_from(s, i + 1, st));
                } else if ls.len() > 0 {
                    let rest = ls.drop_first();
                    assert(ls == seq![ls[0]] + rest);
                    let t0 = if c == '\n' {
                        Lexeme { kind: TokenKind::Newline, start: i, end: i + 1 }
                    } else if c == '{' {
                        lb
                    } else if c == '}' {
                        Lexeme { kind: TokenKind::RBrace, start: i, end: i + 1 }
                    } else if c == ';' {
                        Lexeme { kind: TokenKind::Semicolon, start: i, end: i + 1 }
                    } else if c == '\'' || c == '"' {
                        Lexeme { kind: TokenKind::String, start: i, end: next }
                    } else if c == '#' {
                        Lexeme { kind: TokenKind::Comment, start: i, end: next }
                    } else {
                        Lexeme { kind: TokenKind::Ident, start: i, end: next }
                    };
                    assert(lex_from(s, i, st) == crate::lexer::prepend(t0, lex_from(s, next, next_st)));
                    crate::lexer::lemma_prepend_ok(t0, lex_from(s, next, next_st), ls);
                    assert forall|k: int, j: int| 0 <= k < j < ls.len() implies (#[trigger] ls[k]).end
                        <= (#[trigger] ls[j]).start by {
                        if k > 0 {
                            assert(ls[k] == rest[k - 1]);
                            assert(ls[j] == rest[j - 1]);
                        } else {
                            assert(ls[j] == rest[j - 1]);
                        }
                    }
                    assert forall|k: int| 0 <= k < ls.len() implies i <= (#[trigger] ls[k]).start
                        < ls[k].end <= s.len() by {
                        if k > 0 {
                            assert(ls[k] == rest[k - 1]);
                        }
                    }
                }
            }
        }
    }
}


pub proof fn lemma_lexemes_count(ls: Seq<Lexeme>, n: int)
    requires
        lexemes_ordered(ls, 0, n),
        0 <= n,
    ensures
        ls.len() <= n,
{
    assert forall|k: int| 0 <= k < ls.len() implies k <= (#[trigger] ls[k]).start by {
        lemma_lexeme_start_at_least(ls, n, k);
    }
    if ls.len() > 0 {
        let last = ls.len() - 1;
        assert(last <= ls[last].start);
        assert(ls[last].start < n);
        assert(0 <= ls[last].start < ls[last].end <= n);
    }
}

proof fn lemma_lexeme_start_at_least(ls: Seq<Lexeme>, n: int, k: int)
    requires
        lexemes_ordered(ls, 0, n),
        0 <= k < ls.len(),
    ensures
        k <= ls[k].start,
    decreases k,
{
    if k > 0 {
        lemma_lexeme_start_at_least(ls, n, k - 1);
        assert(ls[k - 1].end <= ls[k].start);
    }
}

/// The larger of two integers.
pub open spec fn max_int(a: int, b: int) -> int {
    if a >= b {
        a
    } else {
        b
    }
}

/// Blocks nest no deeper than there are tokens left: the nodes parsed from token
/// `k` are no higher than `ls.len() - k`, beyond the nodes `acc` already there.
pub proof fn lemma_parse_nodes_height(
    s: Seq<char>,
    ls: Seq<Lexeme>,
    k: int,
    pending: Seq<Seq<char>>,
    acc: Seq<NodeView>,
    b: int,
)
    requires
        0 <= k,
        0 <= b,
        forall|i: int| 0 <= i < acc.len() ==> view_height(#[trigger] acc[i]) <= b,
    ensures
        parse_nodes_from(s, ls, k, pending, acc) matches Ok((nodes, _m)) ==> forall|i: int|
            0 <= i < nodes.len() ==> view_height(#[trigger] nodes[i]) <= max_int(b, ls.len() - k),
    decreases ls.len() - k, 1int,
{
    if k >= ls.len() {
        assert forall|i: int| 0 <= i < (acc + comment_nodes(pending)).len() implies view_height(
            #[trigger] (acc + comment_nodes(pending))[i],
        ) <= max_int(b, ls.len() - k) by {
            if i >= acc.len() {
                assert((acc + comment_nodes(pending))[i] == NodeView::Comment(pending[i - acc.len()]));
            }
        }
    } else {
        match ls[k].kind {
            TokenKind::Comment => {
                lemma_parse_nodes_height(s, ls, k + 1, pending.push(token_text(s, ls, k)), acc, b);
            },
            TokenKind::Newline => {
                let acc2 = if kind_is(ls, k + 1, TokenKind::Newline) {
                    acc.push(NodeView::BlankLine)
                } else {
                    acc
                };
                assert forall|i: int| 0 <= i < acc2.len() implies view_height(#[trigger] acc2[i])
                    <= b by {
                    if i < acc.len() {
                        assert(acc2[i] == acc[i]);
                    }
                }
                lemma_parse_nodes_height(s, ls, k + 1, pending, acc2, b);
            },
            TokenKind::Ident => {
                lemma_parse_statement_height(s, ls, k, pending);
                if let Ok((node, j)) = parse_statement_at(s, ls, k, pending) {
                    if k < j <= ls.len() {
                        let acc2 = acc.push(node);
                        let b2 = max_int(b, ls.len() - k);
                        assert forall|i: int| 0 <= i < acc2.len() implies view_height(
                            #[trigger] acc2[i],
                        ) <= b2 by {
                            if i < acc.len() {
                                assert(acc2[i] == acc[i]);
                            }
                        }
                        lemma_parse_nodes_height(s, ls, j, seq![], acc2, b2);
                    }
                }
            },
            TokenKind::RBrace => {
                assert forall|i: int| 0 <= i < (acc + comment_nodes(pending)).len() implies view_height(
                    #[trigger] (acc + comment_nodes(pending))[i],
                ) <= max_int(b, ls.len() - k) by {
                    if i >= acc.len() {
                        assert((acc + comment_nodes(pending))[i] == NodeView::Comment(
                            pending[i - acc.len()],
                        ));
                    }
                }
            },
            _ => {},
        }
    }
}

pub proof fn lemma_parse_statement_height(
    s: Seq<char>,
    ls: Seq<Lexeme>,
    k: int,
    pending: Seq<Seq<char>>,
)
    requires
        0 <= k,
    ensures
        parse_statement_at(s, ls, k, pending) matches Ok((node, _j)) ==> view_height(node) <= ls.len()
            - k,
    decreases ls.len() - k, 0int,
{
    if kind_is(ls, k, TokenKind::Ident) {
        let w = words_end(ls, k + 1);
        lemma_words_end(ls, k + 1);
        let n = newlines_end(ls, w);
        lemma_newlines_end(ls, w);
        let a = past_comment(ls, n);
        if kind_is(ls, a, TokenKind::LBrace) && !is_lua_name(texts(s, ls, k, w)[0]) {
            lemma_parse_nodes_height(s, ls, a + 1, seq![], seq![], 0);
            if let Ok((children, m)) = parse_nodes_from(s, ls, a + 1, seq![], seq![]) {
                crate::formatter::lemma_views_height_bound(children, ls.len() - (a + 1));
            }
        }
    }
}

// ---------------------------------------------------------------------------
// Exec
// ---------------------------------------------------------------------------

pub struct Parser<'a> {
    input: &'a str,
    chars: Vec<char>,
    tokens: Vec<Token>,
    starts: Vec<usize>,
    index: usize,
    lexemes: Ghost<Seq<Lexeme>>,
}

/// A copy of a token.
fn copy_token(t: &Token) -> (c: Token)
    ensures
        c.kind == t.kind,
        c.text@ == t.text@,
        c.span == t.span,
{
    Token { kind: t.kind, text: t.text.clone(), span: t.span }
}

impl<'a> Parser<'a> {
    /// The parser's tokens are those of its input, with their start indices.
    closed spec fn wf(&self) -> bool {
        let ls = self.lexemes@;
        &&& tokens_match(self.tokens@, self.chars@, ls)
        &&& self.starts@.len() == ls.len()
        &&& forall|k: int| 0 <= k < ls.len() ==> self.starts@[k] == #[trigger] ls[k].start
        &&& lexemes_ordered(ls, 0, self.chars@.len() as int)
        &&& ls.len() <= self.chars@.len() < usize::MAX
        &&& self.index <= ls.len()
    }

    /// The parser's input, its tokens and its position stay as they were except
    /// for the position.
    closed spec fn same_source(&self, other: &Self) -> bool {
        &&& self.chars@ == other.chars@
        &&& self.tokens@ == other.tokens@
        &&& self.starts@ == other.starts@
        &&& self.lexemes@ == other.lexemes@
    }

    pub fn parse(input: &'a str) -> (r: Result<Vec<Node>, FormatError>)
        requires
            addressable(input@),
        ensures
            parse_result_matches(r, input@),
    {
        let lexer = Lexer::new(input);
        let chars = crate::text::str_chars(input);
        let (tokens, starts) = match lexer.tokenize_indexed() {
            Ok(p) => p,
            Err(e) => {
                return Err(e);
            },
        };
        let ghost ls = lex(input@)->Ok_0;
        proof {
            lemma_lex_ordered(input@, 0, LexContext::Start);
            lemma_lexemes_count(ls, input@.len() as int);
            crate::lexer::lemma_encode_utf8_len(input@);
        }
        let mut parser = Parser { input, chars, tokens, starts, index: 0, lexemes: Ghost(ls) };
        let r = parser.parse_nodes();
        r
    }

    fn parse_nodes(&mut self) -> (r: Result<Vec<Node>, FormatError>)
        requires
            old(self).wf(),
        ensures
            final(self).wf(),
            final(self).same_source(old(self)),
            r is Ok ==> old(self).index <= final(self).index,
            match r {
                Ok(nodes) => parse_nodes_from(
                    old(self).chars@,
                    old(self).lexemes@,
                    old(self).index as int,
                    seq![],
                    seq![],
                ) == Ok::<(Seq<NodeView>, int), ParseFailure>(
                    (nodes_view(nodes@), final(self).index as int),
                ),
                Err(e) => parse_nodes_from(
                    old(self).chars@,
                    old(self).lexemes@,
                    old(self).index as int,
                    seq![],
                    seq![],
                ) matches Err(f) && is_parse_failure(e, f),
            },
        decreases old(self).lexemes@.len() - old(self).index, 1int,
    {
        let ghost s = self.chars@;
        let ghost ls = self.lexemes@;
        let ghost k0 = self.index as int;
        let mut nodes: Vec<Node> = Vec::new();
        let mut pending_comments: Vec<String> = Vec::new();
        proof {
            assert(nodes_view(nodes@) == Seq::<NodeView>::empty());
            assert(strings_view(pending_comments@) == Seq::<Seq<char>>::empty());
        }
        while !self.is_at_end()
            invariant_except_break
                self.wf(),
                self.same_source(old(self)),
                s == old(self).chars@,
                ls == old(self).lexemes@,
                k0 == old(self).index,
                k0 <= self.index,
                parse_nodes_from(s, ls, k0, seq![], seq![]) == parse_nodes_from(
                    s,
                    ls,
                    self.index as int,
                    strings_view(pending_comments@),
                    nodes_view(nodes@),
                ),
            ensures
                self.wf(),
                self.same_source(old(self)),
                k0 <= self.index,
                parse_nodes_from(s, ls, k0, seq![], seq![]) == parse_nodes_from(
                    s,
                    ls,
                    self.index as int,
                    strings_view(pending_comments@),
                    nodes_view(nodes@),
                ),
                self.index >= ls.len() || ls[self.index as int].kind == TokenKind::RBrace,
            decreases ls.len() - self.index,
        {
            let kind = self.peek_kind();
            match kind {
                Some(TokenKind::Comment) => {
                    let t = self.advance();
                    let ghost old_pending = pending_comments@;
                    pending_comments.push(t.text);
                    proof {
                        assert(strings_view(pending_comments@) == strings_view(old_pending).push(
                            t.text@,
                        ));
                    }
                },
                Some(TokenKind::Newline) => {
                    self.advance();
                    if self.peek_kind() == Some(TokenKind::Newline) {
                        let ghost old_nodes = nodes@;
                        nodes.push(Node::BlankLine);
                        proof {
                            lemma_nodes_view_push(old_nodes, Node::BlankLine);
                        }
                    }
                },
                Some(TokenKind::Ident) => {
                    let ghost before = self.index as int;
                    let ghost pend = strings_view(pending_comments@);
                    let node = match self.parse_statement(&mut pending_comments) {
                        Ok(n) => n,
                        Err(e) => {
                            return Err(e);
                        },
                    };
                    let ghost old_nodes = nodes@;
                    nodes.push(node);
                    proof {
                        lemma_nodes_view_push(old_nodes, node);
                        assert(strings_view(pending_comments@) == Seq::<Seq<char>>::empty());
                    }
                },
                Some(TokenKind::RBrace) => {
                    break;
                },
                Some(_) => {
                    let token = self.advance();
                    let mut message: Vec<char> = Vec::new();
                    push_str(&mut message, "unexpected token '");
                    push_string(&mut message, &token.text);
                    push_str(&mut message, "'");
                    return Err(
                        FormatError::parse(
                            token.span.line,
                            token.span.column,
                            string_from_chars(&message),
                        ),
                    );
                },
                None => {
                    break;
                },
            }
        }
        let ghost k = self.index as int;
        let ghost pend = strings_view(pending_comments@);
        let ghost before_nodes = nodes@;
        self.flush_pending_comments(&mut nodes, &mut pending_comments);
        proof {
            assert(parse_nodes_from(s, ls, k, pend, nodes_view(before_nodes)) == Ok::<
                (Seq<NodeView>, int),
                ParseFailure,
            >((nodes_view(before_nodes) + comment_nodes(pend), k)));
        }
        Ok(nodes)
    }

    fn flush_pending_comments(&self, nodes: &mut Vec<Node>, pending_comments: &mut Vec<String>)
        ensures
            nodes_view(final(nodes)@) == nodes_view(old(nodes)@) + comment_nodes(
                strings_view(old(pending_comments)@),
            ),
            final(pending_comments)@.len() == 0,
    {
        let ghost start = nodes@;
        let ghost cs = strings_view(pending_comments@);
        let mut k: usize = 0;
        proof {
            assert(comment_nodes(cs).take(0) == Seq::<NodeView>::empty());
            assert(nodes_view(start) + Seq::<NodeView>::empty() == nodes_view(start));
        }
        while k < pending_comments.len()
            invariant
                k <= pending_comments@.len(),
                cs == strings_view(pending_comments@),
                nodes_view(nodes@) == nodes_view(start) + comment_nodes(cs).take(k as int),
            decreases pending_comments@.len() - k,
        {
            let c = pending_comments[k].clone();
            let ghost old_nodes = nodes@;
            nodes.push(Node::Comment(c));
            proof {
                lemma_nodes_view_push(old_nodes, Node::Comment(c));
                assert(comment_nodes(cs).take(k + 1) == comment_nodes(cs).take(k as int).push(
                    NodeView::Comment(cs[k as int]),
                ));
            }
            k = k + 1;
        }
        proof {
            assert(comment_nodes(cs).take(k as int) == comment_nodes(cs));
        }
        pending_comments.clear();
    }

    fn parse_statement(&mut self, pending_comments: &mut Vec<String>) -> (r: Result<
        Node,
        FormatError,
    >)
        requires
            old(self).wf(),
        ensures
            final(self).wf(),
            final(self).same_source(old(self)),
            match r {
                Ok(node) => parse_statement_at(
                    old(self).chars@,
                    old(self).lexemes@,
                    old(self).index as int,
                    strings_view(old(pending_comments)@),
                ) == Ok::<(NodeView, int), ParseFailure>((node_view(node), final(self).index as int))
                    && old(self).index < final(self).index <= old(self).lexemes@.len()
                    && final(pending_comments)@.len() == 0,
                Err(e) => parse_statement_at(
                    old(self).chars@,
                    old(self).lexemes@,
                    old(self).index as int,
                    strings_view(old(pending_comments)@),
                ) matches Err(f) && is_parse_failure(e, f),
            },
        decreases old(self).lexemes@.len() - old(self).index, 0int,
    {
        let ghost s = self.chars@;
        let ghost ls = self.lexemes@;
        let ghost k = self.index as int;
        let ghost pend = strings_view(pending_comments@);
        let mut parts: Vec<String> = Vec::new();
        let first = match self.expect_ident() {
            Ok(t) => t,
            Err(e) => {
                return Err(e);
            },
        };
        parts.push(first.text);
        proof {
            lemma_words_end(ls, k + 1);
            assert(strings_view(parts@) =~= texts(s, ls, k, k + 1));
        }
        while self.peek_kind() == Some(TokenKind::Ident) || self.peek_kind() == Some(
            TokenKind::String,
        )
            invariant
                self.wf(),
                self.same_source(old(self)),
                s == old(self).chars@,
                ls == old(self).lexemes@,
                k == old(self).index,
                k + 1 <= self.index <= words_end(ls, k + 1),
                words_end(ls, k + 1) == words_end(ls, self.index as int),
                strings_view(parts@) == texts(s, ls, k, self.index as int),
            decreases ls.len() - self.index,
        {
            let ghost i0 = self.index as int;
            let t = self.advance();
            let ghost old_parts = parts@;
            parts.push(t.text);
            proof {
                lemma_words_end(ls, self.index as int);
                assert(parts@ == old_parts.push(t.text));
                assert(strings_view(old_parts).len() == old_parts.len());
                assert(old_parts.len() == i0 - k);
                assert(self.index == i0 + 1);
                assert(texts(s, ls, k, i0 + 1).len() == parts@.len());
                assert(strings_view(parts@)[old_parts.len() as int] == t.text@);
                assert(texts(s, ls, k, i0 + 1)[old_parts.len() as int] == token_text(s, ls, i0));
                assert forall|j: int| 0 <= j < parts@.len() implies strings_view(parts@)[j] == texts(
                    s,
                    ls,
                    k,
                    i0 + 1,
                )[j] by {
                    if j < old_parts.len() {
                        assert(strings_view(old_parts)[j] == texts(s, ls, k, i0)[j]);
                    }
                }
                assert(strings_view(parts@) =~= texts(s, ls, k, self.index as int));
            }
        }
        let ghost w = self.index as int;
        let ghost parts_view = texts(s, ls, k, w);
        proof {
            assert(words_end(ls, w) == w);
            lemma_newlines_end(ls, w);
            assert(parts_view.len() > 0);
            assert(parts@[0]@ == strings_view(parts@)[0]);
        }
        self.skip_newlines();
        let ghost n = self.index as int;
        let inline_comment = self.take_inline_comment();
        let ghost a = self.index as int;
        let mut leading_comments: Vec<String> = Vec::new();
        std::mem::swap(&mut leading_comments, pending_comments);
        assert(strings_view(leading_comments@) == pend);
        assert(pending_comments@.len() == 0);
        match self.peek_kind() {
            Some(TokenKind::Semicolon) => {
                self.advance();
                let trailing_comment = self.take_inline_comment();
                let inline_comment = match inline_comment {
                    Some(c) => Some(c),
                    None => trailing_comment,
                };
                let name = parts.remove(0);
                proof {
                    assert(strings_view(parts@) =~= parts_view.drop_first());
                }
                let node = Node::Directive(
                    Directive { leading_comments, name, args: parts, inline_comment },
                );
                proof {
                    assert(node_view(node) == NodeView::Directive {
                        leading: pend,
                        name: parts_view[0],
                        args: parts_view.drop_first(),
                        inline: first_some(comment_at(s, ls, n), comment_at(s, ls, a + 1)),
                    });
                }
                Ok(node)
            },
            Some(TokenKind::LBrace) => {
                self.advance();
                if is_lua_block_name(parts[0].as_str()) {
                    proof {
                        lemma_opaque_end(ls, a + 1, 1);
                    }
                    let body = match self.read_opaque_body() {
                        Ok(b) => b,
                        Err(e) => {
                            return Err(e);
                        },
                    };
                    let ghost m = self.index as int;
                    match self.expect_rbrace() {
                        Ok(()) => {},
                        Err(e) => {
                            return Err(e);
                        },
                    }
                    let mut header_chars: Vec<char> = Vec::new();
                    push_joined(&mut header_chars, &parts, " ");
                    let header = string_from_chars(&header_chars);
                    let node = Node::OpaqueBlock(
                        OpaqueBlock { leading_comments, header, body, inline_comment },
                    );
                    proof {
                        assert(header_chars@ =~= joined(parts_view, " "@));
                        assert(node_view(node) == NodeView::Opaque {
                            leading: pend,
                            header: joined(parts_view, " "@),
                            body: s.subrange(ls[a + 1].start, ls[m].start),
                            inline: comment_at(s, ls, n),
                        });
                    }
                    Ok(node)
                } else {
                    let name = parts.remove(0);
                    proof {
                        assert(strings_view(parts@) =~= parts_view.drop_first());
                    }
                    let args = parts;
                    let children = match self.parse_nodes() {
                        Ok(c) => c,
                        Err(e) => {
                            return Err(e);
                        },
                    };
                    let ghost m = self.index as int;
                    match self.expect_rbrace() {
                        Ok(()) => {},
                        Err(e) => {
                            return Err(e);
                        },
                    }
                    let node = Node::Block(
                        Block { leading_comments, name, args, children, inline_comment },
                    );
                    proof {
                        assert(node_view(node) == NodeView::Block {
                            leading: pend,
                            name: parts_view[0],
                            args: parts_view.drop_first(),
                            children: nodes_view(children@),
                            inline: comment_at(s, ls, n),
                        });
                    }
                    Ok(node)
                }
            },
            _ => {
                let mut message: Vec<char> = Vec::new();
                push_str(&mut message, "expected ';' or '{' after '");
                push_joined(&mut message, &parts, " ");
                push_str(&mut message, "'");
                let (line, column) = self.peek_position();
                proof {
                    assert(message@ =~= expected_after_message(joined(parts_view, " "@)));
                }
                Err(FormatError::parse(line, column, string_from_chars(&message)))
            },
        }
    }

    fn read_opaque_body(&mut self) -> (r: Result<String, FormatError>)
        requires
            old(self).wf(),
        ensures
            final(self).wf(),
            final(self).same_source(old(self)),
            match r {
                Ok(body) => opaque_end(old(self).lexemes@, old(self).index as int, 1) == Some(
                    final(self).index as int,
                ) && body@ == old(self).chars@.subrange(
                    old(self).lexemes@[old(self).index as int].start,
                    old(self).lexemes@[final(self).index as int].start,
                ),
                Err(e) => opaque_end(old(self).lexemes@, old(self).index as int, 1) is None
                    && is_parse_failure(
                    e,
                    ParseFailure { line: 1, column: 1, message: "unterminated opaque block"@ },
                ),
            },
    {
        let ghost ls = self.lexemes@;
        let ghost k0 = self.index as int;
        let start = if self.index < self.starts.len() {
            self.starts[self.index]
        } else {
            self.chars.len()
        };
        let mut depth: usize = 1;
        while !self.is_at_end()
            invariant
                self.wf(),
                self.same_source(old(self)),
                ls == old(self).lexemes@,
                k0 == old(self).index,
                k0 <= self.index,
                1 <= depth <= 1 + self.index - k0,
                k0 < ls.len() ==> start == ls[k0].start,
                opaque_end(ls, k0, 1) == opaque_end(ls, self.index as int, depth as int),
            decreases ls.len() - self.index,
        {
            match self.peek_kind() {
                Some(TokenKind::LBrace) => {
                    depth = depth + 1;
                    self.advance();
                },
                Some(TokenKind::RBrace) => {
                    depth = depth - 1;
                    if depth == 0 {
                        let end = self.starts[self.index];
                        proof {
                            assert(ls[k0].end <= ls[self.index as int].start || k0 == self.index);
                        }
                        return Ok(string_from_range(&self.chars, start, end));
                    }
                    self.advance();
                },
                _ => {
                    self.advance();
                },
            }
        }
        let mut m: Vec<char> = Vec::new();
        push_str(&mut m, "unterminated opaque block");
        Err(FormatError::parse(1, 1, string_from_chars(&m)))
    }

    fn skip_newlines(&mut self)
        requires
            old(self).wf(),
        ensures
            final(self).wf(),
            final(self).same_source(old(self)),
            final(self).index == newlines_end(old(self).lexemes@, old(self).index as int),
    {
        let ghost ls = self.lexemes@;
        let ghost k0 = self.index as int;
        while self.peek_kind() == Some(TokenKind::Newline)
            invariant
                self.wf(),
                self.same_source(old(self)),
                ls == old(self).lexemes@,
                newlines_end(ls, k0) == newlines_end(ls, self.index as int),
                k0 == old(self).index,
            decreases ls.len() - self.index,
        {
            self.advance();
        }
    }

    fn take_inline_comment(&mut self) -> (r: Option<String>)
        requires
            old(self).wf(),
        ensures
            final(self).wf(),
            final(self).same_source(old(self)),
            final(self).index == past_comment(old(self).lexemes@, old(self).index as int),
            opt_string_view(r) == comment_at(
                old(self).chars@,
                old(self).lexemes@,
                old(self).index as int,
            ),
    {
        if self.peek_kind() == Some(TokenKind::Comment) {
            Some(self.advance().text)
        } else {
            None
        }
    }

    /// The line and column of the next token, or line 1, column 1 at the end.
    fn peek_position(&self) -> (p: (usize, usize))
        requires
            self.wf(),
        ensures
            p.0 == failure_at_token(self.chars@, self.lexemes@, self.index as int, seq![]).line,
            p.1 == failure_at_token(self.chars@, self.lexemes@, self.index as int, seq![]).column,
    {
        match self.peek() {
            Some(token) => {
                proof {
                    assert(token_matches(self.tokens@[self.index as int], self.chars@, self.lexemes@[self.index as int]));
                }
                (token.span.line, token.span.column)
            },
            None => (1, 1),
        }
    }

    fn expect_ident(&mut self) -> (r: Result<Token, FormatError>)
        requires
            old(self).wf(),
        ensures
            final(self).wf(),
            final(self).same_source(old(self)),
            match r {
                Ok(t) => kind_is(old(self).lexemes@, old(self).index as int, TokenKind::Ident)
                    && final(self).index == old(self).index + 1 && t.text@ == token_text(
                    old(self).chars@,
                    old(self).lexemes@,
                    old(self).index as int,
                ),
                Err(e) => !kind_is(old(self).lexemes@, old(self).index as int, TokenKind::Ident)
                    && is_parse_failure(
                    e,
                    failure_at_token(
                        old(self).chars@,
                        old(self).lexemes@,
                        old(self).index as int,
                        "expected identifier"@,
                    ),
                ),
            },
    {
        match self.peek_kind() {
            Some(TokenKind::Ident) => Ok(self.advance()),
            _ => {
                let (line, column) = self.peek_position();
                let mut m: Vec<char> = Vec::new();
                push_str(&mut m, "expected identifier");
                Err(FormatError::parse(line, column, string_from_chars(&m)))
            },
        }
    }

    fn expect_rbrace(&mut self) -> (r: Result<(), FormatError>)
        requires
            old(self).wf(),
        ensures
            final(self).wf(),
            final(self).same_source(old(self)),
            match r {
                Ok(()) => kind_is(old(self).lexemes@, old(self).index as int, TokenKind::RBrace)
                    && final(self).index == old(self).index + 1,
                Err(e) => !kind_is(old(self).lexemes@, old(self).index as int, TokenKind::RBrace)
                    && is_parse_failure(
                    e,
                    failure_at_token(
                        old(self).chars@,
                        old(self).lexemes@,
                        old(self).index as int,
                        "expected '}'"@,
                    ),
                ),
            },
    {
        match self.peek_kind() {
            Some(TokenKind::RBrace) => {
                self.advance();
                Ok(())
            },
            _ => {
                let (line, column) = self.peek_position();
                let mut m: Vec<char> = Vec::new();
                push_str(&mut m, "expected '}'");
                Err(FormatError::parse(line, column, string_from_chars(&m)))
            },
        }
    }

    fn peek(&self) -> (t: Option<&Token>)
        requires
            self.wf(),
        ensures
            self.index < self.tokens@.len() ==> t == Some(&self.tokens@[self.index as int]),
            self.index >= self.tokens@.len() ==> t is None,
    {
        if self.index < self.tokens.len() {
            Some(&self.tokens[self.index])
        } else {
            None
        }
    }

    fn peek_kind(&self) -> (k: Option<TokenKind>)
        requires
            self.wf(),
        ensures
            self.index < self.lexemes@.len() ==> k == Some(
                self.lexemes@[self.index as int].kind,
            ),
            self.index >= self.lexemes@.len() ==> k is None,
    {
        match self.peek() {
            Some(token) => {
                proof {
                    assert(token_matches(self.tokens@[self.index as int], self.chars@, self.lexemes@[self.index as int]));
                }
                Some(token.kind)
            },
            None => None,
        }
    }

    fn advance(&mut self) -> (t: Token)
        requires
            old(self).wf(),
            old(self).index < old(self).lexemes@.len(),
        ensures
            final(self).wf(),
            final(self).same_source(old(self)),
            final(self).index == old(self).index + 1,
            token_matches(t, old(self).chars@, old(self).lexemes@[old(self).index as int]),
            t.text@ == token_text(old(self).chars@, old(self).lexemes@, old(self).index as int),
    {
        proof {
            assert(token_matches(self.tokens@[self.index as int], self.chars@, self.lexemes@[self.index as int]));
        }
        assert(self.index < self.tokens.len());
        let token = copy_token(&self.tokens[self.index]);
        self.index = self.index + 1;
        token
    }

    fn is_at_end(&self) -> (b: bool)
        requires
            self.wf(),
        ensures
            b == (self.index >= self.lexemes@.len()),
    {
        self.index >= self.tokens.len()
    }
}

} // verus!
