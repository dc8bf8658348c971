use vstd::prelude::*;

use crate::ast::{is_lua_name, NodeView};
use crate::lexer::{
    atom_end, blank_end, comment_end, lemma_atom_end_bounds, lemma_blank_end_bounds,
    lemma_comment_end_bounds, lemma_lua_close_bounds, lemma_prepend_ok, lemma_quote_scan_bounds,
    lex_from, lua_body_lexemes, lua_close, quote_scan, spec_is_atom_char, word_context, LexContext,
    Lexeme, LuaMode, QuoteEnd, TokenKind,
};
use crate::parser::{
    comment_nodes, kind_is, lemma_newlines_end, lemma_words_end, newlines_end,
    parse_nodes_from, parse_statement_at, past_comment, texts, token_text, words_end,
};
use crate::printed::{
    comment_ok, comments_ok, no_cr, plain_list, plain_node, shaped_list, shaped_node,
    word_ok,
};
use crate::roundtrip::{atom_text, comment_text, lemma_quote_scan_extract, string_text, word_text};
use crate::embed::lemma_lua_body_text;
use crate::parser::opaque_end;
use crate::text::{joined, spec_is_whitespace, trimmed_end};

verus! {

// ---------------------------------------------------------------------------
// What the lexer's tokens look like
// ---------------------------------------------------------------------------

/// Token `k` lies in `s`; a word or comment token's text is of its kind; a
/// comment is followed by a newline or by nothing.
pub open spec fn token_shaped(s: Seq<char>, ls: Seq<Lexeme>, k: int) -> bool {
    &&& 0 <= ls[k].start <= ls[k].end <= s.len()
    &&& ls[k].kind == TokenKind::Ident ==> atom_text(token_text(s, ls, k))
    &&& ls[k].kind == TokenKind::String ==> string_text(token_text(s, ls, k))
    &&& ls[k].kind == TokenKind::Comment ==> comment_text(token_text(s, ls, k))
    &&& ls[k].kind == TokenKind::Comment && k + 1 < ls.len() ==> ls[k + 1].kind == TokenKind::Newline
    &&& ls[k].kind == TokenKind::RBrace ==> ls[k].start < s.len() && s[ls[k].start] == '}'
    &&& ls[k].kind == TokenKind::Newline ==> ls[k].start < s.len() && s[ls[k].start] == '\n'
}

pub open spec fn tokens_shaped(s: Seq<char>, ls: Seq<Lexeme>) -> bool {
    forall|k: int| 0 <= k < ls.len() ==> #[trigger] token_shaped(s, ls, k)
}

proof fn lemma_shaped_cons(s: Seq<char>, t: Lexeme, rest: Seq<Lexeme>)
    requires
        tokens_shaped(s, rest),
        token_shaped(s, seq![t] + rest, 0),
    ensures
        tokens_shaped(s, seq![t] + rest),
{
    let ls = seq![t] + rest;
    assert forall|k: int| 0 <= k < ls.len() implies #[trigger] token_shaped(s, ls, k) by {
        if k > 0 {
            assert(ls[k] == rest[k - 1]);
            assert(token_shaped(s, rest, k - 1));
            if k + 1 < ls.len() {
                assert(ls[k + 1] == rest[k]);
            }
        }
    }
}

/// Every token the lexer gives is shaped as its kind says.
pub proof fn lemma_lex_shaped(s: Seq<char>, i: int, st: LexContext)
    requires
        0 <= i <= s.len(),
    ensures
        lex_from(s, i, st) matches Ok(ls) ==> tokens_shaped(s, ls),
    decreases s.len() - i,
{
    if i < s.len() {
        let c = s[i];
        lemma_quote_scan_bounds(s, i + 1, c);
        lemma_comment_end_bounds(s, i);
        lemma_atom_end_bounds(s, i);
        let lb = Lexeme { kind: TokenKind::LBrace, start: i, end: i + 1 };
        if c == '{' && st == LexContext::Words(true) {
            let b = blank_end(s, i + 1);
            lemma_blank_end_bounds(s, i + 1);
            lemma_lua_close_bounds(s, b, LuaMode::Code, 1);
            if let Ok(ls) = lex_from(s, i, st) {
                match lua_close(s, b, LuaMode::Code, 1) {
                    Some(e) => {
                        lemma_lex_shaped(s, e + 1, LexContext::Start);
                        let rest = lex_from(s, e + 1, LexContext::Start)->Ok_0;
                        let rb = Lexeme { kind: TokenKind::RBrace, start: e, end: e + 1 };
                        assert(token_shaped(s, seq![rb] + rest, 0));
                        lemma_shaped_cons(s, rb, rest);
                        let tail = seq![rb] + rest;
                        let body = lua_body_lexemes(b, e);
                        let mid = body + tail;
                        if b < e {
                            let bt = Lexeme { kind: TokenKind::LuaBody, start: b, end: e };
                            assert(mid == seq![bt] + tail);
                            assert(token_shaped(s, seq![bt] + tail, 0));
                            lemma_shaped_cons(s, bt, tail);
                        } else {
                            assert(mid == tail);
                        }
                        assert(ls == seq![lb] + mid);
                        assert(token_shaped(s, seq![lb] + mid, 0));
                        lemma_shaped_cons(s, lb, mid);
                    },
                    None => {
                        let body = lua_body_lexemes(b, s.len() as int);
                        if b < s.len() {
                            let bt = Lexeme { kind: TokenKind::LuaBody, start: b, end: s.len() as int };
                            assert(body == seq![bt] + Seq::<Lexeme>::empty());
                            assert(token_shaped(s, seq![bt] + Seq::<Lexeme>::empty(), 0));
                            lemma_shaped_cons(s, bt, Seq::<Lexeme>::empty());
                        }
                        assert(ls == seq![lb] + body);
                        assert(token_shaped(s, seq![lb] + body, 0));
                        lemma_shaped_cons(s, lb, body);
                    },
                }
            }
        } else if c == '\n' || c == '{' || c == '}' || c == ';' || spec_is_whitespace(c) {
            let nst = if c == '{' || c == '}' || c == ';' {
                LexContext::Start
            } else {
                st
            };
            lemma_lex_shaped(s, i + 1, nst);
            if let Ok(rest) = lex_from(s, i + 1, nst) {
                if !spec_is_whitespace(c) || c == '\n' {
                    let t = Lexeme {
                        kind: crate::roundtrip::char_kind(c),
                        start: i,
                        end: i + 1,
                    };
                    assert(lex_from(s, i, st) == crate::lexer::prepend(t, lex_from(s, i + 1, nst)));
                    assert(lex_from(s, i, st)->Ok_0 == seq![t] + rest);
                    assert(token_shaped(s, seq![t] + rest, 0));
                    lemma_shaped_cons(s, t, rest);
                }
            }
        } else if c == '\'' || c == '"' {
            if let QuoteEnd::Closed(e) = quote_scan(s, i + 1, c) {
                let nst = word_context(st, false);
                lemma_lex_shaped(s, e, nst);
                if let Ok(rest) = lex_from(s, e, nst) {
                    let t = Lexeme { kind: TokenKind::String, start: i, end: e };
                    assert(lex_from(s, i, st)->Ok_0 == seq![t] + rest);
                    let x = s.subrange(i, e);
                    lemma_quote_scan_extract(s, i, e - i, 1, c);
                    assert(x[0] == c);
                    assert(token_shaped(s, seq![t] + rest, 0));
                    lemma_shaped_cons(s, t, rest);
                }
            }
        } else if c == '#' {
            let e = comment_end(s, i);
            lemma_lex_shaped(s, e, st);
            if let Ok(rest) = lex_from(s, e, st) {
                let t = Lexeme { kind: TokenKind::Comment, start: i, end: e };
                assert(lex_from(s, i, st)->Ok_0 == seq![t] + rest);
                let x = s.subrange(i, e);
                assert(x[0] == '#');
                assert forall|j: int| 0 <= j < x.len() implies #[trigger] x[j] != '\n' by {
                    assert(x[j] == s[i + j]);
                }
                if rest.len() > 0 {
                    assert(e < s.len());
                    assert(s[e] == '\n');
                    assert(rest[0].kind == TokenKind::Newline);
                }
                assert(token_shaped(s, seq![t] + rest, 0));
                lemma_shaped_cons(s, t, rest);
            }
        } else if spec_is_atom_char(c) {
            let e = atom_end(s, i);
            let nst = word_context(st, is_lua_name(s.subrange(i, e)));
            lemma_lex_shaped(s, e, nst);
            if let Ok(rest) = lex_from(s, e, nst) {
                let t = Lexeme { kind: TokenKind::Ident, start: i, end: e };
                assert(lex_from(s, i, st)->Ok_0 == seq![t] + rest);
                let x = s.subrange(i, e);
                assert(x[0] == c);
                assert forall|j: int| 0 <= j < x.len() implies spec_is_atom_char(#[trigger] x[j]) by {
                    assert(x[j] == s[i + j]);
                }
                assert(token_shaped(s, seq![t] + rest, 0));
                lemma_shaped_cons(s, t, rest);
            }
        }
    }
}

// ---------------------------------------------------------------------------
// Where the lexer stands, token by token
// ---------------------------------------------------------------------------

/// The context after the token `t`.
pub open spec fn token_context(s: Seq<char>, st: LexContext, t: Lexeme) -> LexContext {
    match t.kind {
        TokenKind::Ident => word_context(st, is_lua_name(s.subrange(t.start, t.end))),
        TokenKind::String => word_context(st, false),
        TokenKind::LBrace | TokenKind::RBrace | TokenKind::Semicolon => LexContext::Start,
        _ => st,
    }
}

/// The context before token `k`, from `st` before the first.
pub open spec fn context_at(s: Seq<char>, st: LexContext, ls: Seq<Lexeme>, k: int) -> LexContext
    decreases ls.len(),
{
    if k <= 0 || ls.len() == 0 {
        st
    } else {
        context_at(s, token_context(s, st, ls[0]), ls.drop_first(), k - 1)
    }
}

pub proof fn lemma_context_step(s: Seq<char>, st: LexContext, ls: Seq<Lexeme>, k: int)
    requires
        0 <= k < ls.len(),
    ensures
        context_at(s, st, ls, k + 1) == token_context(s, context_at(s, st, ls, k), ls[k]),
    decreases ls.len(),
{
    let r = ls.drop_first();
    let st1 = token_context(s, st, ls[0]);
    assert(context_at(s, st, ls, k + 1) == context_at(s, st1, r, k));
    if k > 0 {
        lemma_context_step(s, st1, r, k - 1);
        assert(r[k - 1] == ls[k]);
        assert(context_at(s, st, ls, k) == context_at(s, st1, r, k - 1));
    } else {
        assert(context_at(s, st1, r, 0) == st1);
        assert(context_at(s, st, ls, 0) == st);
    }
}

proof fn lemma_context_concat(s: Seq<char>, st: LexContext, x: Seq<Lexeme>, y: Seq<Lexeme>, j: int)
    requires
        0 <= j,
    ensures
        context_at(s, st, x + y, x.len() + j) == context_at(s, context_at(s, st, x, x.len() as int), y, j),
    decreases x.len(),
{
    if x.len() > 0 {
        assert((x + y)[0] == x[0]);
        assert((x + y).drop_first() == x.drop_first() + y);
        lemma_context_concat(s, token_context(s, st, x[0]), x.drop_first(), y, j);
    } else {
        assert(x + y == y);
    }
}

/// The tokens of a Lua block whose `{` is token `a`.
pub open spec fn lua_block_at(s: Seq<char>, ls: Seq<Lexeme>, a: int) -> bool {
    let b = blank_end(s, ls[a].start + 1);
    match lua_close(s, b, LuaMode::Code, 1) {
        Some(e) => {
            let n = lua_body_lexemes(b, e).len() as int;
            &&& a + 1 + n < ls.len()
            &&& b < e ==> ls[a + 1] == (Lexeme { kind: TokenKind::LuaBody, start: b, end: e })
            &&& ls[a + 1 + n] == (Lexeme { kind: TokenKind::RBrace, start: e, end: e + 1 })
        },
        None => {
            let n = lua_body_lexemes(b, s.len() as int).len() as int;
            &&& ls.len() == a + 1 + n
            &&& b < s.len() ==> ls[a + 1] == (Lexeme {
                kind: TokenKind::LuaBody,
                start: b,
                end: s.len() as int,
            })
        },
    }
}

proof fn lemma_lua_block_shift(s: Seq<char>, x: Seq<Lexeme>, ls: Seq<Lexeme>, a: int)
    requires
        0 <= a < ls.len(),
        lua_block_at(s, ls, a),
    ensures
        lua_block_at(s, x + ls, x.len() + a),
{
    let y = x + ls;
    assert(y[x.len() + a] == ls[a]);
    assert(a + 1 < ls.len() ==> y[x.len() + a + 1] == ls[a + 1]);
    assert(a + 2 < ls.len() ==> y[x.len() + a + 2] == ls[a + 2]);
}

/// At every `{` that the lexer reads after the first word of a statement that
/// names a Lua block, its tokens are those of a Lua block.
pub proof fn lemma_lex_lua(s: Seq<char>, i: int, st: LexContext)
    requires
        0 <= i <= s.len(),
    ensures
        lex_from(s, i, st) matches Ok(ls) ==> forall|a: int|
            0 <= a < ls.len() && (#[trigger] ls[a]).kind == TokenKind::LBrace && context_at(s, st, ls, a)
                == LexContext::Words(true) ==> lua_block_at(s, ls, a),
    decreases s.len() - i,
{
    if i < s.len() {
        let c = s[i];
        lemma_quote_scan_bounds(s, i + 1, c);
        lemma_comment_end_bounds(s, i);
        lemma_atom_end_bounds(s, i);
        let lb = Lexeme { kind: TokenKind::LBrace, start: i, end: i + 1 };
        if c == '{' && st == LexContext::Words(true) {
            let b = blank_end(s, i + 1);
            lemma_blank_end_bounds(s, i + 1);
            lemma_lua_close_bounds(s, b, LuaMode::Code, 1);
            if let Ok(ls) = lex_from(s, i, st) {
                match lua_close(s, b, LuaMode::Code, 1) {
                    Some(e) => {
                        lemma_lex_lua(s, e + 1, LexContext::Start);
                        let rest = lex_from(s, e + 1, LexContext::Start)->Ok_0;
                        let rb = Lexeme { kind: TokenKind::RBrace, start: e, end: e + 1 };
                        let body = lua_body_lexemes(b, e);
                        let pre = seq![lb] + body + seq![rb];
                        assert(ls == pre + rest);
                        assert(context_at(s, st, pre, pre.len() as int) == LexContext::Start) by {
                            assert(pre[0] == lb);
                            assert(context_at(s, st, pre, 0) == st);
                            lemma_context_step(s, st, pre, 0);
                            lemma_context_step(s, st, pre, 1);
                            if b < e {
                                lemma_context_step(s, st, pre, 2);
                                assert(pre[2] == rb);
                            } else {
                                assert(pre[1] == rb);
                            }
                        }
                        assert forall|a: int|
                            0 <= a < ls.len() && (#[trigger] ls[a]).kind == TokenKind::LBrace
                                && context_at(s, st, ls, a) == LexContext::Words(true) implies lua_block_at(
                            s,
                            ls,
                            a,
                        ) by {
                            if a >= pre.len() {
                                let j = a - pre.len();
                                lemma_context_concat(s, st, pre, rest, j);
                                assert(ls[a] == rest[j]);
                                lemma_lua_block_shift(s, pre, rest, j);
                            } else if a > 0 {
                                assert(ls[a] == pre[a]);
                            }
                        }
                    },
                    None => {},
                }
            }
        } else {
            let nst = if c == '{' || c == '}' || c == ';' {
                LexContext::Start
            } else if c == '\'' || c == '"' {
                word_context(st, false)
            } else if c == '#' || spec_is_whitespace(c) {
                st
            } else {
                word_context(st, is_lua_name(s.subrange(i, atom_end(s, i))))
            };
            let next = if c == '\n' || c == '{' || c == '}' || c == ';' || spec_is_whitespace(c) {
                i + 1
            } else if c == '\'' || c == '"' {
                match quote_scan(s, i + 1, c) {
                    QuoteEnd::Closed(e) => e,
                    _ => i + 1,
                }
            } else if c == '#' {
                comment_end(s, i)
            } else {
                atom_end(s, i)
            };
            lemma_lex_lua(s, next, nst);
            if let Ok(ls) = lex_from(s, i, st) {
                if spec_is_whitespace(c) && c != '\n' {
                    assert(lex_from(s, i, st) == lex_from(s, i + 1, st));
                } else {
                    let t0 = if c == '\n' {
                        Lexeme { kind: TokenKind::Newline, start: i, end: i + 1 }
                    } else if c == '{' {
                        lb
                    } else if c == '}' {
                        Lexeme { kind: TokenKind::RBrace, start: i, end: i + 1 }
                    } else if c == ';' {
                        Lexeme { kind: TokenKind::Semicolon, start: i, end: i + 1 }
                    } else if c == '\'' || c == '"' {
                        Lexeme { kind: TokenKind::String, start: i, end: next }
                    } else if c == '#' {
                        Lexeme { kind: TokenKind::Comment, start: i, end: next }
                    } else {
                        Lexeme { kind: TokenKind::Ident, start: i, end: next }
                    };
                    assert(lex_from(s, i, st) == crate::lexer::prepend(t0, lex_from(s, next, nst)));
                    lemma_prepend_ok(t0, lex_from(s, next, nst), ls);
                    let rest = ls.drop_first();
                    assert(token_context(s, st, t0) == nst);
                    assert forall|a: int|
                        0 <= a < ls.len() && (#[trigger] ls[a]).kind == TokenKind::LBrace
                            && context_at(s, st, ls, a) == LexContext::Words(true) implies lua_block_at(
                        s,
                        ls,
                        a,
                    ) by {
                        if a > 0 {
                            assert(ls[a] == rest[a - 1]);
                            assert(ls == seq![t0] + rest);
                            lemma_lua_block_shift(s, seq![t0], rest, a - 1);
                        }
                    }
                }
            }
        }
    }
}

// ---------------------------------------------------------------------------
// What the parser gives
// ---------------------------------------------------------------------------

/// Nodes parsed so far in a list: plain statements and blank lines.
pub open spec fn parsed_so_far(acc: Seq<NodeView>) -> bool {
    forall|i: int| 0 <= i < acc.len() ==> !(#[trigger] acc[i] is Comment) && plain_node(acc[i])
}

proof fn lemma_token_text_ok(s: Seq<char>, ls: Seq<Lexeme>, k: int)
    requires
        tokens_shaped(s, ls),
        no_cr(s),
        0 <= k < ls.len(),
    ensures
        no_cr(token_text(s, ls, k)),
        ls[k].kind == TokenKind::Comment ==> comment_ok(token_text(s, ls, k)),
        ls[k].kind == TokenKind::Ident || ls[k].kind == TokenKind::String ==> word_ok(
            token_text(s, ls, k),
        ),
{
    assert(token_shaped(s, ls, k));
    let t = token_text(s, ls, k);
    assert forall|i: int| 0 <= i < t.len() implies #[trigger] t[i] != '\r' by {
        assert(t[i] == s[ls[k].start + i]);
    }
}

proof fn lemma_close_plain(acc: Seq<NodeView>, pending: Seq<Seq<char>>)
    requires
        parsed_so_far(acc),
        comments_ok(pending),
    ensures
        plain_list(acc + comment_nodes(pending)),
{
    let v = acc + comment_nodes(pending);
    assert forall|i: int| 0 <= i < v.len() implies plain_node(#[trigger] v[i]) by {
        if i < acc.len() {
            assert(v[i] == acc[i]);
        } else {
            assert(v[i] == NodeView::Comment(pending[i - acc.len()]));
        }
    }
    assert forall|i: int, j: int|
        #![trigger v[i], v[j]]
        0 <= i < j < v.len() && v[i] is Comment implies v[j] is Comment by {
        if i < acc.len() {
            assert(v[i] == acc[i]);
        }
        assert(v[j] == NodeView::Comment(pending[j - acc.len()]));
    }
}

/// The nodes parsed from token `k` are plain.
pub proof fn lemma_parse_plain(
    s: Seq<char>,
    ls: Seq<Lexeme>,
    k: int,
    pending: Seq<Seq<char>>,
    acc: Seq<NodeView>,
)
    requires
        lex_from(s, 0, LexContext::Start) == Ok::<Seq<Lexeme>, crate::error::ParseFailure>(ls),
        tokens_shaped(s, ls),
        no_cr(s),
        0 <= k,
        k < ls.len() ==> context_at(s, LexContext::Start, ls, k) == LexContext::Start,
        comments_ok(pending),
        parsed_so_far(acc),
    ensures
        parse_nodes_from(s, ls, k, pending, acc) matches Ok((v, _m)) ==> plain_list(v),
    decreases ls.len() - k, 1int,
{
    if k >= ls.len() {
        lemma_close_plain(acc, pending);
    } else {
        match ls[k].kind {
            TokenKind::Comment => {
                lemma_context_step(s, LexContext::Start, ls, k);
                lemma_token_text_ok(s, ls, k);
                let p2 = pending.push(token_text(s, ls, k));
                assert forall|i: int| 0 <= i < p2.len() implies comment_ok(#[trigger] p2[i]) by {
                    if i < pending.len() {
                        assert(p2[i] == pending[i]);
                    }
                }
                lemma_parse_plain(s, ls, k + 1, p2, acc);
            },
            TokenKind::Newline => {
                lemma_context_step(s, LexContext::Start, ls, k);
                let acc2 = if kind_is(ls, k + 1, TokenKind::Newline) {
                    acc.push(NodeView::BlankLine)
                } else {
                    acc
                };
                assert forall|i: int| 0 <= i < acc2.len() implies !(#[trigger] acc2[i] is Comment)
                    && plain_node(acc2[i]) by {
                    if i < acc.len() {
                        assert(acc2[i] == acc[i]);
                    }
                }
                lemma_parse_plain(s, ls, k + 1, pending, acc2);
            },
            TokenKind::Ident => {
                lemma_statement_plain(s, ls, k, pending);
                if let Ok((node, j)) = parse_statement_at(s, ls, k, pending) {
                    if k < j <= ls.len() {
                        let acc2 = acc.push(node);
                        assert forall|i: int| 0 <= i < acc2.len() implies !(
                        #[trigger] acc2[i] is Comment) && plain_node(acc2[i]) by {
                            if i < acc.len() {
                                assert(acc2[i] == acc[i]);
                            }
                        }
                        lemma_parse_plain(s, ls, j, seq![], acc2);
                    }
                }
            },
            TokenKind::RBrace => {
                lemma_close_plain(acc, pending);
            },
            _ => {},
        }
    }
}

/// A statement parsed at token `k` is plain.
pub proof fn lemma_statement_plain(s: Seq<char>, ls: Seq<Lexeme>, k: int, pending: Seq<Seq<char>>)
    requires
        lex_from(s, 0, LexContext::Start) == Ok::<Seq<Lexeme>, crate::error::ParseFailure>(ls),
        tokens_shaped(s, ls),
        no_cr(s),
        0 <= k,
        k < ls.len() ==> context_at(s, LexContext::Start, ls, k) == LexContext::Start,
        comments_ok(pending),
    ensures
        parse_statement_at(s, ls, k, pending) matches Ok((node, j)) ==> !(node is Comment)
            && plain_node(node) && (j < ls.len() ==> context_at(s, LexContext::Start, ls, j)
            == LexContext::Start),
    decreases ls.len() - k, 0int,
{
    if kind_is(ls, k, TokenKind::Ident) {
        let w = words_end(ls, k + 1);
        lemma_words_end(ls, k + 1);
        let n = newlines_end(ls, w);
        lemma_newlines_end(ls, w);
        let parts = texts(s, ls, k, w);
        let a = past_comment(ls, n);
        lemma_token_text_ok(s, ls, k);
        assert(parts[0] == token_text(s, ls, k));
        assert(token_shaped(s, ls, k));
        let args = parts.drop_first();
        assert forall|i: int| 0 <= i < args.len() implies word_ok(#[trigger] args[i]) by {
            assert(args[i] == token_text(s, ls, k + 1 + i));
            lemma_token_text_ok(s, ls, k + 1 + i);
        }
        if kind_is(ls, n, TokenKind::Comment) {
            lemma_token_text_ok(s, ls, n);
            assert(token_shaped(s, ls, n));
        }
        if kind_is(ls, a + 1, TokenKind::Comment) {
            lemma_token_text_ok(s, ls, a + 1);
        }
        let v = is_lua_name(parts[0]);
        lemma_context_step(s, LexContext::Start, ls, k);
        lemma_newlines_kinds(ls, w);
        lemma_context_keep(s, ls, k + 1, a, v);
        if kind_is(ls, a, TokenKind::Semicolon) {
            lemma_context_step(s, LexContext::Start, ls, a);
            if kind_is(ls, a + 1, TokenKind::Comment) {
                lemma_context_step(s, LexContext::Start, ls, a + 1);
            }
        }
        if kind_is(ls, a, TokenKind::LBrace) && !v {
            lemma_context_step(s, LexContext::Start, ls, a);
            lemma_parse_plain(s, ls, a + 1, seq![], seq![]);
            if let Ok((children, m)) = parse_nodes_from(s, ls, a + 1, seq![], seq![]) {
                if kind_is(ls, m, TokenKind::RBrace) {
                    lemma_context_step(s, LexContext::Start, ls, m);
                }
            }
        }
        if kind_is(ls, a, TokenKind::LBrace) && v {
            lemma_lex_lua(s, 0, LexContext::Start);
            crate::parser::lemma_lex_ordered(s, 0, LexContext::Start);
            assert(lua_block_at(s, ls, a));
            assert(token_shaped(s, ls, a));
            let b = blank_end(s, ls[a].start + 1);
            lemma_blank_end_bounds(s, ls[a].start + 1);
            lemma_lua_close_bounds(s, b, LuaMode::Code, 1);
            if let Some(e) = lua_close(s, b, LuaMode::Code, 1) {
                let n = lua_body_lexemes(b, e).len() as int;
                let m = a + 1 + n;
                if b < e {
                    assert(opaque_end(ls, a + 1, 1) == opaque_end(ls, a + 2, 1));
                }
                assert(opaque_end(ls, a + 1, 1) == Some(m));
                assert(s.subrange(ls[a + 1].start, ls[m].start) == s.subrange(b, e));
                lemma_lua_body_text(s, b, e);
                lemma_context_step(s, LexContext::Start, ls, m);
                assert forall|i: int| 0 <= i < parts.len() implies word_ok(#[trigger] parts[i]) by {
                    if i > 0 {
                        assert(parts[i] == args[i - 1]);
                    }
                }
                reveal_strlit(" ");
                assert(" "@ == seq![' ']);
                assert(crate::printed::lua_header_ok(joined(parts, " "@)));
            } else {
                crate::parser::lemma_opaque_end(ls, a + 1, 1);
                if b < s.len() {
                    assert(opaque_end(ls, a + 1, 1) == opaque_end(ls, a + 2, 1));
                }
            }
        }
    }
}

proof fn lemma_newlines_kinds(ls: Seq<Lexeme>, k: int)
    requires
        0 <= k <= ls.len(),
    ensures
        forall|j: int| k <= j < newlines_end(ls, k) ==> (#[trigger] ls[j]).kind == TokenKind::Newline,
    decreases ls.len() - k,
{
    if kind_is(ls, k, TokenKind::Newline) {
        lemma_newlines_kinds(ls, k + 1);
    }
}

/// Words, newlines and comments after the first word keep the context.
proof fn lemma_context_keep(s: Seq<char>, ls: Seq<Lexeme>, x: int, y: int, v: bool)
    requires
        0 <= x <= y <= ls.len(),
        context_at(s, LexContext::Start, ls, x) == LexContext::Words(v),
        forall|j: int|
            x <= j < y ==> (#[trigger] ls[j]).kind == TokenKind::Ident || ls[j].kind
                == TokenKind::String || ls[j].kind == TokenKind::Newline || ls[j].kind
                == TokenKind::Comment,
    ensures
        context_at(s, LexContext::Start, ls, y) == LexContext::Words(v),
    decreases y - x,
{
    if x < y {
        lemma_context_step(s, LexContext::Start, ls, x);
        assert(ls[x].kind == TokenKind::Ident || ls[x].kind == TokenKind::String
            || ls[x].kind == TokenKind::Newline || ls[x].kind == TokenKind::Comment);
        lemma_context_keep(s, ls, x + 1, y, v);
    }
}

// ---------------------------------------------------------------------------
// What the parser gives of any text
// ---------------------------------------------------------------------------

/// The nodes parsed from token `k` of any text, carriage returns included, are
/// shaped as the parser gives them.
pub proof fn lemma_parse_shaped(
    s: Seq<char>,
    ls: Seq<Lexeme>,
    k: int,
    pending: Seq<Seq<char>>,
    acc: Seq<NodeView>,
)
    requires
        tokens_shaped(s, ls),
        0 <= k,
        forall|i: int| 0 <= i < pending.len() ==> comment_text(#[trigger] pending[i]),
        shaped_list(acc),
    ensures
        parse_nodes_from(s, ls, k, pending, acc) matches Ok((v, _m)) ==> shaped_list(v),
    decreases ls.len() - k, 1int,
{
    if k >= ls.len() || ls[k].kind == TokenKind::RBrace {
        let v = acc + comment_nodes(pending);
        assert forall|i: int| 0 <= i < v.len() implies shaped_node(#[trigger] v[i]) by {
            if i < acc.len() {
                assert(v[i] == acc[i]);
            } else {
                assert(v[i] == NodeView::Comment(pending[i - acc.len()]));
            }
        }
    } else {
        match ls[k].kind {
            TokenKind::Comment => {
                assert(token_shaped(s, ls, k));
                let p2 = pending.push(token_text(s, ls, k));
                assert forall|i: int| 0 <= i < p2.len() implies comment_text(#[trigger] p2[i]) by {
                    if i < pending.len() {
                        assert(p2[i] == pending[i]);
                    }
                }
                lemma_parse_shaped(s, ls, k + 1, p2, acc);
            },
            TokenKind::Newline => {
                let acc2 = if kind_is(ls, k + 1, TokenKind::Newline) {
                    acc.push(NodeView::BlankLine)
                } else {
                    acc
                };
                assert forall|i: int| 0 <= i < acc2.len() implies shaped_node(#[trigger] acc2[i]) by {
                    if i < acc.len() {
                        assert(acc2[i] == acc[i]);
                    }
                }
                lemma_parse_shaped(s, ls, k + 1, pending, acc2);
            },
            TokenKind::Ident => {
                lemma_statement_shaped(s, ls, k, pending);
                if let Ok((node, j)) = parse_statement_at(s, ls, k, pending) {
                    if k < j <= ls.len() {
                        let acc2 = acc.push(node);
                        assert forall|i: int| 0 <= i < acc2.len() implies shaped_node(
                            #[trigger] acc2[i],
                        ) by {
                            if i < acc.len() {
                                assert(acc2[i] == acc[i]);
                            }
                        }
                        lemma_parse_shaped(s, ls, j, seq![], acc2);
                    }
                }
            },
            _ => {},
        }
    }
}

/// A statement parsed at token `k` of any text is shaped as the parser gives it.
pub proof fn lemma_statement_shaped(s: Seq<char>, ls: Seq<Lexeme>, k: int, pending: Seq<Seq<char>>)
    requires
        tokens_shaped(s, ls),
        0 <= k,
        forall|i: int| 0 <= i < pending.len() ==> comment_text(#[trigger] pending[i]),
    ensures
        parse_statement_at(s, ls, k, pending) matches Ok((node, _j)) ==> shaped_node(node),
    decreases ls.len() - k, 0int,
{
    if kind_is(ls, k, TokenKind::Ident) {
        let w = words_end(ls, k + 1);
        lemma_words_end(ls, k + 1);
        let n = newlines_end(ls, w);
        lemma_newlines_end(ls, w);
        let parts = texts(s, ls, k, w);
        let a = past_comment(ls, n);
        assert(token_shaped(s, ls, k));
        assert(parts[0] == token_text(s, ls, k));
        let args = parts.drop_first();
        assert forall|i: int| 0 <= i < args.len() implies word_text(#[trigger] args[i]) by {
            assert(args[i] == token_text(s, ls, k + 1 + i));
            assert(token_shaped(s, ls, k + 1 + i));
        }
        if kind_is(ls, n, TokenKind::Comment) {
            assert(token_shaped(s, ls, n));
        }
        if kind_is(ls, a + 1, TokenKind::Comment) {
            assert(token_shaped(s, ls, a + 1));
        }
        if kind_is(ls, a, TokenKind::LBrace) && !is_lua_name(parts[0]) {
            lemma_parse_shaped(s, ls, a + 1, seq![], seq![]);
        }
    }
}

// ---------------------------------------------------------------------------
// The body of a Lua block
// ---------------------------------------------------------------------------

/// Trimming the end keeps a prefix and drops only whitespace.
pub proof fn lemma_trimmed_prefix(x: Seq<char>)
    ensures
        trimmed_end(x).len() <= x.len(),
        trimmed_end(x) == x.take(trimmed_end(x).len() as int),
        forall|i: int| trimmed_end(x).len() <= i < x.len() ==> spec_is_whitespace(#[trigger] x[i]),
    decreases x.len(),
{
    if x.len() > 0 && spec_is_whitespace(x.last()) {
        lemma_trimmed_prefix(x.drop_last());
        let n = trimmed_end(x).len() as int;
        assert(x.drop_last().take(n) == x.take(n));
        assert forall|i: int| n <= i < x.len() implies spec_is_whitespace(#[trigger] x[i]) by {
            if i < x.len() - 1 {
                assert(x.drop_last()[i] == x[i]);
            }
        }
    } else {
        assert(x.take(x.len() as int) == x);
    }
}

} // verus!
