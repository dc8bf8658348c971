use vstd::prelude::*;

use crate::lexer::{
    atom_end, blank_end, comment_end, lex, lex_from, lua_close, prepend, quote_scan,
    spec_is_atom_char, word_context, LexContext, Lexeme, LuaMode, QuoteEnd, TokenKind,
};
use crate::ast::{is_lua_name, NodeView};
use crate::config::{indent_spec, BraceStyle, Config};
use crate::error::ParseFailure;
use crate::formatter::{comment_line, header_text};
use crate::parser::{
    comment_at, comment_nodes, first_some, kind_is, newlines_end, parse_nodes_from, parse_spec,
    parse_statement_at, past_comment, texts, token_text, words_end,
};
use crate::printed::{
    all_comment_nodes, comment_lines, comment_ok, comments_ok, inline_text, lemma_list_text_ends,
    list_text, node_text, opening_text, plain_list, plain_node,
    reread_list, reread_node, word_ok, words_ok,
};
use crate::formatter::opaque_body_text;
use crate::parser::opaque_end;
use crate::embed::lemma_lua_printed;
use crate::text::{ends_with_char, joined, spec_is_whitespace};

verus! {

// ---------------------------------------------------------------------------
// Texts that lex as a single token
// ---------------------------------------------------------------------------

/// A bare word: atom characters, not starting with a quote.
pub open spec fn atom_text(t: Seq<char>) -> bool {
    &&& t.len() > 0
    &&& t[0] != '\'' && t[0] != '"'
    &&& forall|i: int| 0 <= i < t.len() ==> spec_is_atom_char(#[trigger] t[i])
}

/// A quoted string, closed by its last character.
pub open spec fn string_text(t: Seq<char>) -> bool {
    &&& t.len() >= 2
    &&& t[0] == '\'' || t[0] == '"'
    &&& quote_scan(t, 1, t[0]) == QuoteEnd::Closed(t.len() as int)
}

/// A word of a statement: bare or quoted.
pub open spec fn word_text(t: Seq<char>) -> bool {
    atom_text(t) || string_text(t)
}

pub open spec fn word_kind(t: Seq<char>) -> TokenKind {
    if atom_text(t) {
        TokenKind::Ident
    } else {
        TokenKind::String
    }
}

/// A comment: `#` and the rest of a line.
pub open spec fn comment_text(t: Seq<char>) -> bool {
    &&& t.len() > 0
    &&& t[0] == '#'
    &&& forall|i: int| 0 <= i < t.len() ==> #[trigger] t[i] != '\n'
}

/// `t` stands in `s` at offset `o`.
pub open spec fn occurs_at(s: Seq<char>, o: int, t: Seq<char>) -> bool {
    &&& 0 <= o
    &&& o + t.len() <= s.len()
    &&& forall|i: int| 0 <= i < t.len() ==> s[o + i] == #[trigger] t[i]
}

/// The whole of `s` lexes.
pub open spec fn lexes(s: Seq<char>) -> bool {
    lex(s) is Ok
}

/// Lexing `s` from offset `o` goes on with the lexing of the whole: it gives the
/// tokens of `ls` from index `k` on when the whole lexes, and the whole's failure else.
pub open spec fn tracks(s: Seq<char>, o: int, st: LexContext, k: int, ls: Seq<Lexeme>) -> bool {
    &&& 0 <= o
    &&& lexes(s) ==> 0 <= k <= ls.len() && lex_from(s, o, st) == Ok::<Seq<Lexeme>, ParseFailure>(
        ls.skip(k),
    )
    &&& !lexes(s) ==> lex_from(s, o, st) == lex(s)
}

/// The context after the word `t`.
pub open spec fn word_ctx(st: LexContext, t: Seq<char>) -> LexContext {
    word_context(st, atom_text(t) && is_lua_name(t))
}

/// The context after the one-character token `c`.
pub open spec fn after_char(st: LexContext, c: char) -> LexContext {
    if c == '\n' {
        st
    } else {
        LexContext::Start
    }
}

pub proof fn lemma_occurs_split(s: Seq<char>, o: int, a: Seq<char>, b: Seq<char>)
    requires
        occurs_at(s, o, a + b),
    ensures
        occurs_at(s, o, a),
        occurs_at(s, o + a.len(), b),
{
    assert forall|i: int| 0 <= i < a.len() implies s[o + i] == #[trigger] a[i] by {
        assert((a + b)[i] == a[i]);
    }
    assert forall|i: int| 0 <= i < b.len() implies s[o + a.len() + i] == #[trigger] b[i] by {
        assert((a + b)[a.len() + i] == b[i]);
    }
}

pub proof fn lemma_occurs_subrange(s: Seq<char>, o: int, t: Seq<char>)
    requires
        occurs_at(s, o, t),
    ensures
        s.subrange(o, o + t.len()) == t,
{
    assert(s.subrange(o, o + t.len()) =~= t);
}

/// Reaching the end of the text while tracking the lexing: the whole lexes, and
/// every token has been met.
pub proof fn lemma_tracks_end(s: Seq<char>, st: LexContext, k: int, ls: Seq<Lexeme>)
    requires
        tracks(s, s.len() as int, st, k, ls),
    ensures
        lexes(s),
        k == ls.len(),
{
    assert(lex_from(s, s.len() as int, st) == Ok::<Seq<Lexeme>, ParseFailure>(seq![]));
    assert(ls.skip(k).len() == 0);
}

// ---------------------------------------------------------------------------
// Local scanning
// ---------------------------------------------------------------------------

pub proof fn lemma_atom_end_local(s: Seq<char>, o: int, t: Seq<char>, j: int)
    requires
        occurs_at(s, o, t),
        0 <= j <= t.len(),
        forall|i: int| 0 <= i < t.len() ==> spec_is_atom_char(#[trigger] t[i]),
        o + t.len() >= s.len() || !spec_is_atom_char(s[o + t.len()]),
    ensures
        atom_end(s, o + j) == o + t.len(),
    decreases t.len() - j,
{
    if j < t.len() {
        assert(s[o + j] == t[j]);
        lemma_atom_end_local(s, o, t, j + 1);
    }
}

pub proof fn lemma_comment_end_local(s: Seq<char>, o: int, t: Seq<char>, j: int)
    requires
        occurs_at(s, o, t),
        0 <= j <= t.len(),
        forall|i: int| 0 <= i < t.len() ==> #[trigger] t[i] != '\n',
        o + t.len() >= s.len() || s[o + t.len()] == '\n',
    ensures
        comment_end(s, o + j) == o + t.len(),
    decreases t.len() - j,
{
    if j < t.len() {
        assert(s[o + j] == t[j]);
        lemma_comment_end_local(s, o, t, j + 1);
    }
}

/// Scanning a closed quoted string inside a longer text ends where it ends alone.
pub proof fn lemma_quote_scan_local(s: Seq<char>, o: int, t: Seq<char>, j: int, q: char)
    requires
        occurs_at(s, o, t),
        0 <= j <= t.len(),
        quote_scan(t, j, q) matches QuoteEnd::Closed(e),
    ensures
        quote_scan(s, o + j, q) == QuoteEnd::Closed(o + (quote_scan(t, j, q)->Closed_0)),
    decreases t.len() - j,
{
    if j < t.len() {
        assert(s[o + j] == t[j]);
        if t[j] == '\\' {
            if j + 1 < t.len() {
                lemma_quote_scan_local(s, o, t, j + 2, q);
            }
        } else if t[j] != q && t[j] != '\n' {
            lemma_quote_scan_local(s, o, t, j + 1, q);
        }
    }
}

/// A closed quoted string seen inside a longer text is closed when taken alone.
pub proof fn lemma_quote_scan_extract(s: Seq<char>, o: int, n: int, j: int, q: char)
    requires
        0 <= o,
        o + n <= s.len(),
        0 <= j <= n,
        quote_scan(s, o + j, q) == QuoteEnd::Closed(o + n),
    ensures
        quote_scan(s.subrange(o, o + n), j, q) == QuoteEnd::Closed(n),
    decreases n - j,
{
    let t = s.subrange(o, o + n);
    crate::lexer::lemma_quote_scan_bounds(s, o + j, q);
    if j < n {
        assert(t[j] == s[o + j]);
        if s[o + j] == '\\' {
            if o + j + 1 < s.len() {
                crate::lexer::lemma_quote_scan_bounds(s, o + j + 2, q);
                lemma_quote_scan_extract(s, o, n, j + 2, q);
            }
        } else if s[o + j] != q && s[o + j] != '\n' {
            lemma_quote_scan_extract(s, o, n, j + 1, q);
        }
    }
}

// ---------------------------------------------------------------------------
// One token at a time
// ---------------------------------------------------------------------------

/// Steps over a token that the lexing from `o` begins with.
pub proof fn lemma_step(
    s: Seq<char>,
    o: int,
    st: LexContext,
    k: int,
    ls: Seq<Lexeme>,
    t: Lexeme,
    next: int,
    st2: LexContext,
)
    requires
        tracks(s, o, st, k, ls),
        0 <= next,
        lex_from(s, o, st) == prepend(t, lex_from(s, next, st2)),
    ensures
        tracks(s, next, st2, k + 1, ls),
        lexes(s) ==> k < ls.len() && ls[k] == t,
{
    if lexes(s) {
        let rest = lex_from(s, next, st2)->Ok_0;
        assert(ls.skip(k) == seq![t] + rest);
        assert(ls.skip(k)[0] == ls[k]);
        assert(ls.skip(k + 1) == ls.skip(k).drop_first());
        assert((seq![t] + rest).drop_first() == rest);
    }
}

pub proof fn lemma_lex_word(s: Seq<char>, o: int, t: Seq<char>, st: LexContext, k: int, ls: Seq<Lexeme>)
    requires
        occurs_at(s, o, t),
        word_text(t),
        atom_text(t) ==> (o + t.len() >= s.len() || !spec_is_atom_char(s[o + t.len()])),
        tracks(s, o, st, k, ls),
    ensures
        tracks(s, o + t.len(), word_ctx(st, t), k + 1, ls),
        lexes(s) ==> k < ls.len() && ls[k] == (Lexeme { kind: word_kind(t), start: o, end: o + t.len() }),
{
    assert(s[o] == t[0]);
    let e = o + t.len();
    lemma_occurs_subrange(s, o, t);
    if atom_text(t) {
        assert(spec_is_atom_char(t[0]));
        lemma_atom_end_local(s, o, t, 0);
        assert(s.subrange(o, e) == t);
        assert(lex_from(s, o, st) == prepend(
            Lexeme { kind: TokenKind::Ident, start: o, end: e },
            lex_from(s, e, word_ctx(st, t)),
        ));
        lemma_step(s, o, st, k, ls, Lexeme { kind: TokenKind::Ident, start: o, end: e }, e, word_ctx(st, t));
    } else {
        lemma_quote_scan_local(s, o, t, 1, t[0]);
        assert(!spec_is_whitespace(t[0]));
        assert(lex_from(s, o, st) == prepend(
            Lexeme { kind: TokenKind::String, start: o, end: e },
            lex_from(s, e, word_ctx(st, t)),
        ));
        lemma_step(s, o, st, k, ls, Lexeme { kind: TokenKind::String, start: o, end: e }, e, word_ctx(st, t));
    }
}

pub proof fn lemma_lex_comment(s: Seq<char>, o: int, t: Seq<char>, st: LexContext, k: int, ls: Seq<Lexeme>)
    requires
        occurs_at(s, o, t),
        comment_text(t),
        o + t.len() >= s.len() || s[o + t.len()] == '\n',
        tracks(s, o, st, k, ls),
    ensures
        tracks(s, o + t.len(), st, k + 1, ls),
        lexes(s) ==> k < ls.len() && ls[k] == (Lexeme {
            kind: TokenKind::Comment,
            start: o,
            end: o + t.len(),
        }),
{
    assert(s[o] == t[0]);
    let e = o + t.len();
    lemma_comment_end_local(s, o, t, 0);
    assert(lex_from(s, o, st) == prepend(
        Lexeme { kind: TokenKind::Comment, start: o, end: e },
        lex_from(s, e, st),
    ));
    lemma_step(s, o, st, k, ls, Lexeme { kind: TokenKind::Comment, start: o, end: e }, e, st);
}

/// The kind of token that a single punctuation character or newline makes.
pub open spec fn char_kind(c: char) -> TokenKind {
    if c == ';' {
        TokenKind::Semicolon
    } else if c == '{' {
        TokenKind::LBrace
    } else if c == '}' {
        TokenKind::RBrace
    } else {
        TokenKind::Newline
    }
}

pub proof fn lemma_lex_char(s: Seq<char>, o: int, st: LexContext, k: int, ls: Seq<Lexeme>)
    requires
        0 <= o < s.len(),
        s[o] == ';' || s[o] == '{' || s[o] == '}' || s[o] == '\n',
        s[o] == '{' ==> st != LexContext::Words(true),
        tracks(s, o, st, k, ls),
    ensures
        tracks(s, o + 1, after_char(st, s[o]), k + 1, ls),
        lexes(s) ==> k < ls.len() && ls[k] == (Lexeme { kind: char_kind(s[o]), start: o, end: o + 1 }),
{
    let t = Lexeme { kind: char_kind(s[o]), start: o, end: o + 1 };
    assert(lex_from(s, o, st) == prepend(t, lex_from(s, o + 1, after_char(st, s[o]))));
    lemma_step(s, o, st, k, ls, t, o + 1, after_char(st, s[o]));
}

/// A character of the line other than the newline that ends it.
pub open spec fn blank_char(c: char) -> bool {
    spec_is_whitespace(c) && c != '\n'
}

/// Whitespace other than newlines produces no token.
pub proof fn lemma_lex_blank(s: Seq<char>, o: int, n: int, st: LexContext, k: int, ls: Seq<Lexeme>)
    requires
        0 <= o,
        0 <= n,
        o + n <= s.len(),
        forall|i: int| o <= i < o + n ==> blank_char(#[trigger] s[i]),
        tracks(s, o, st, k, ls),
    ensures
        tracks(s, o + n, st, k, ls),
    decreases n,
{
    if n > 0 {
        assert(blank_char(s[o]));
        assert(lex_from(s, o, st) == lex_from(s, o + 1, st));
        lemma_lex_blank(s, o + 1, n - 1, st, k, ls);
    }
}

/// Skips the indentation at the start of a line.
pub proof fn lemma_lex_indent(cfg: Config, d: nat, s: Seq<char>, o: int, st: LexContext, k: int, ls: Seq<Lexeme>)
    requires
        occurs_at(s, o, indent_spec(cfg, d)),
        tracks(s, o, st, k, ls),
    ensures
        tracks(s, o + indent_spec(cfg, d).len(), st, k, ls),
{
    let ind = indent_spec(cfg, d);
    assert forall|i: int| o <= i < o + ind.len() implies blank_char(#[trigger] s[i]) by {
        assert(s[o + (i - o)] == ind[i - o]);
    }
    lemma_lex_blank(s, o, ind.len() as int, st, k, ls);
}

// ---------------------------------------------------------------------------
// Runs of words
// ---------------------------------------------------------------------------

/// Words separated by single spaces lex as one token each.
pub proof fn lemma_lex_words(
    s: Seq<char>,
    o: int,
    words: Seq<Seq<char>>,
    st: LexContext,
    k: int,
    ls: Seq<Lexeme>,
)
    requires
        words.len() >= 1,
        forall|i: int| 0 <= i < words.len() ==> word_text(#[trigger] words[i]),
        occurs_at(s, o, joined(words, seq![' '])),
        o + joined(words, seq![' ']).len() >= s.len() || !spec_is_atom_char(
            s[o + joined(words, seq![' ']).len()],
        ),
        tracks(s, o, st, k, ls),
    ensures
        tracks(s, o + joined(words, seq![' ']).len(), word_ctx(st, words[0]), k + words.len(), ls),
        lexes(s) ==> k + words.len() <= ls.len(),
        lexes(s) ==> forall|i: int|
            0 <= i < words.len() ==> (#[trigger] ls[k + i]).kind == word_kind(words[i])
                && token_text(s, ls, k + i) == words[i],
    decreases words.len(),
{
    if words.len() == 1 {
        assert(joined(words, seq![' ']) == words[0]);
        lemma_lex_word(s, o, words[0], st, k, ls);
        lemma_occurs_subrange(s, o, words[0]);
        if lexes(s) {
            assert(ls[k + 0] == ls[k]);
        }
    } else {
        let init = words.drop_last();
        let j0 = joined(init, seq![' ']);
        let last = words.last();
        assert(joined(words, seq![' ']) == j0 + seq![' '] + last);
        assert(forall|i: int| 0 <= i < init.len() ==> init[i] == words[i]);
        lemma_occurs_split(s, o, j0 + seq![' '], last);
        lemma_occurs_split(s, o, j0, seq![' ']);
        assert(s[o + j0.len()] == seq![' '][0]);
        lemma_lex_words(s, o, init, st, k, ls);
        assert(blank_char(s[o + j0.len()]));
        let w0 = word_ctx(st, init[0]);
        lemma_lex_blank(s, o + j0.len(), 1, w0, k + init.len(), ls);
        lemma_lex_word(s, o + j0.len() + 1, last, w0, k + init.len(), ls);
        assert(init[0] == words[0]);
        assert(word_ctx(w0, last) == w0);
        lemma_occurs_subrange(s, o + j0.len() + 1, last);
        if lexes(s) {
            assert forall|i: int| 0 <= i < words.len() implies (#[trigger] ls[k + i]).kind
                == word_kind(words[i]) && token_text(s, ls, k + i) == words[i] by {
                if i < init.len() {
                    assert(init[i] == words[i]);
                }
            }
        }
    }
}

/// A header is its words joined by single spaces.
pub proof fn lemma_header_joined(name: Seq<char>, args: Seq<Seq<char>>)
    ensures
        header_text(name, args) == joined(seq![name] + args, seq![' ']),
    decreases args.len(),
{
    if args.len() == 0 {
        assert(seq![name] + args == seq![name]);
        assert(joined(seq![name], seq![' ']) == name);
    } else {
        lemma_header_joined(name, args.drop_last());
        let w = seq![name] + args;
        assert(w.drop_last() == seq![name] + args.drop_last());
        assert(w.last() == args.last());
        if args.len() == 1 {
            assert(args.drop_last() == Seq::<Seq<char>>::empty());
            assert(joined(args, seq![' ']) == args[0]);
            assert(seq![name] + args.drop_last() == seq![name]);
        } else {
            assert(joined(args, seq![' ']) == joined(args.drop_last(), seq![' ']) + seq![' ']
                + args.last());
        }
        assert(header_text(name, args) =~= joined(w, seq![' ']));
    }
}

/// The run of words starting at `from` ends at `to`.
pub proof fn lemma_words_end_exact(ls: Seq<Lexeme>, from: int, to: int)
    requires
        0 <= from <= to < ls.len(),
        forall|i: int|
            from <= i < to ==> (#[trigger] ls[i]).kind == TokenKind::Ident || ls[i].kind
                == TokenKind::String,
        ls[to].kind != TokenKind::Ident && ls[to].kind != TokenKind::String,
    ensures
        words_end(ls, from) == to,
    decreases to - from,
{
    if from < to {
        lemma_words_end_exact(ls, from + 1, to);
    }
}

// ---------------------------------------------------------------------------
// Reading printed lines back
// ---------------------------------------------------------------------------

/// From `p` on, the text holds only blanks up to `e`, where a closing brace or
/// the end of the text stands.
pub open spec fn closes(s: Seq<char>, p: int, e: int) -> bool {
    &&& 0 <= p <= e <= s.len()
    &&& forall|i: int| p <= i < e ==> blank_char(#[trigger] s[i])
    &&& e == s.len() || s[e] == '}'
}

/// At token `k` stands the closing brace at `e`, or nothing.
pub open spec fn closed_at(s: Seq<char>, ls: Seq<Lexeme>, e: int, k: int) -> bool {
    &&& e == s.len() ==> k == ls.len()
    &&& e < s.len() ==> kind_is(ls, k, TokenKind::RBrace)
}

proof fn lemma_read_close(s: Seq<char>, ls: Seq<Lexeme>, p: int, k: int, e: int)
    requires
        closes(s, p, e),
        tracks(s, p, LexContext::Start, k, ls),
    ensures
        tracks(s, e, LexContext::Start, k, ls),
        lexes(s) ==> closed_at(s, ls, e, k),
{
    lemma_lex_blank(s, p, e - p, LexContext::Start, k, ls);
    if e == s.len() {
        lemma_tracks_end(s, LexContext::Start, k, ls);
    } else {
        lemma_lex_char(s, e, LexContext::Start, k, ls);
    }
}

/// A comment line is its indentation, the comment and a newline.
proof fn lemma_comment_line(cfg: Config, c: Seq<char>, d: nat)
    requires
        comment_ok(c),
    ensures
        comment_line(cfg, c, d) == indent_spec(cfg, d) + c + seq!['\n'],
{
    assert(c[c.len() - 1] != '\n');
    assert(!ends_with_char(c, '\n'));
}

/// Reads comment lines: their comments join those waiting for the next statement.
pub proof fn lemma_read_comments(
    cfg: Config,
    s: Seq<char>,
    ls: Seq<Lexeme>,
    o: int,
    k: int,
    cs: Seq<Seq<char>>,
    d: nat,
    pending: Seq<Seq<char>>,
    acc: Seq<NodeView>,
) -> (k2: int)
    requires
        comments_ok(cs),
        occurs_at(s, o, comment_lines(cfg, cs, d)),
        tracks(s, o, LexContext::Start, k, ls),
    ensures
        tracks(s, o + comment_lines(cfg, cs, d).len(), LexContext::Start, k2, ls),
        cs.len() == 0 ==> k2 == k,
        k <= k2,
        lexes(s) && cs.len() > 0 ==> kind_is(ls, k, TokenKind::Comment),
        lexes(s) && k2 < ls.len() && ls[k2].kind != TokenKind::Newline ==> parse_nodes_from(
            s,
            ls,
            k,
            pending,
            acc,
        ) == parse_nodes_from(s, ls, k2, pending + cs, acc),
    decreases cs.len(), 1int,
{
    if cs.len() == 0 {
        assert(pending + cs == pending);
        k
    } else {
        lemma_read_comments_step(cfg, s, ls, o, k, cs, d, pending, acc)
    }
}

proof fn lemma_read_comments_step(
    cfg: Config,
    s: Seq<char>,
    ls: Seq<Lexeme>,
    o: int,
    k: int,
    cs: Seq<Seq<char>>,
    d: nat,
    pending: Seq<Seq<char>>,
    acc: Seq<NodeView>,
) -> (k2: int)
    requires
        cs.len() > 0,
        comments_ok(cs),
        occurs_at(s, o, comment_lines(cfg, cs, d)),
        tracks(s, o, LexContext::Start, k, ls),
    ensures
        tracks(s, o + comment_lines(cfg, cs, d).len(), LexContext::Start, k2, ls),
        k <= k2,
        lexes(s) ==> kind_is(ls, k, TokenKind::Comment),
        lexes(s) && k2 < ls.len() && ls[k2].kind != TokenKind::Newline ==> parse_nodes_from(
            s,
            ls,
            k,
            pending,
            acc,
        ) == parse_nodes_from(s, ls, k2, pending + cs, acc),
    decreases cs.len(), 0int,
{
    let c = cs[0];
    let rest = cs.drop_first();
    let ind = indent_spec(cfg, d);
    assert(comment_ok(c));
    lemma_comment_line(cfg, c, d);
    let line = comment_line(cfg, c, d);
    assert forall|i: int| 0 <= i < rest.len() implies comment_ok(#[trigger] rest[i]) by {
        assert(rest[i] == cs[i + 1]);
    }
    lemma_occurs_split(s, o, line, comment_lines(cfg, rest, d));
    lemma_occurs_split(s, o, ind + c, seq!['\n']);
    lemma_occurs_split(s, o, ind, c);
    lemma_lex_indent(cfg, d, s, o, LexContext::Start, k, ls);
    let oc = o + ind.len();
    let on = oc + c.len();
    assert(s[on] == seq!['\n'][0]);
    lemma_lex_comment(s, oc, c, LexContext::Start, k, ls);
    lemma_lex_char(s, on, LexContext::Start, k + 1, ls);
    let k2 = lemma_read_comments(cfg, s, ls, on + 1, k + 2, rest, d, pending.push(c), acc);
    if lexes(s) {
        lemma_occurs_subrange(s, oc, c);
        assert(token_text(s, ls, k) == c);
        assert(pending.push(c) + rest =~= pending + cs);
        if k2 < ls.len() && ls[k2].kind != TokenKind::Newline {
            assert(!kind_is(ls, k + 2, TokenKind::Newline));
            assert(parse_nodes_from(s, ls, k + 1, pending.push(c), acc) == parse_nodes_from(
                s,
                ls,
                k + 2,
                pending.push(c),
                acc,
            ));
        }
    }
    k2
}

/// Reads comment nodes at the end of a list: they close it, after the comments
/// already waiting.
pub proof fn lemma_read_tail(
    cfg: Config,
    s: Seq<char>,
    ls: Seq<Lexeme>,
    o: int,
    k: int,
    cs: Seq<NodeView>,
    d: nat,
    pending: Seq<Seq<char>>,
    acc: Seq<NodeView>,
    e: int,
) -> (k_end: int)
    requires
        all_comment_nodes(cs),
        plain_list(cs),
        occurs_at(s, o, list_text(cfg, cs, d)),
        tracks(s, o, LexContext::Start, k, ls),
        closes(s, o + list_text(cfg, cs, d).len(), e),
    ensures
        tracks(s, e, LexContext::Start, k_end, ls),
        k <= k_end,
        lexes(s) ==> closed_at(s, ls, e, k_end),
        cs.len() == 0 ==> k_end == k,
        lexes(s) && cs.len() > 0 ==> kind_is(ls, k, TokenKind::Comment),
        lexes(s) ==> parse_nodes_from(s, ls, k, pending, acc) == Ok::<
            (Seq<NodeView>, int),
            ParseFailure,
        >((acc + comment_nodes(pending) + cs, k_end)),
    decreases cs.len(), 1int,
{
    if cs.len() == 0 {
        lemma_read_close(s, ls, o, k, e);
        assert(acc + comment_nodes(pending) + cs == acc + comment_nodes(pending));
        k
    } else {
        lemma_read_tail_step(cfg, s, ls, o, k, cs, d, pending, acc, e)
    }
}

proof fn lemma_read_tail_step(
    cfg: Config,
    s: Seq<char>,
    ls: Seq<Lexeme>,
    o: int,
    k: int,
    cs: Seq<NodeView>,
    d: nat,
    pending: Seq<Seq<char>>,
    acc: Seq<NodeView>,
    e: int,
) -> (k_end: int)
    requires
        cs.len() > 0,
        all_comment_nodes(cs),
        plain_list(cs),
        occurs_at(s, o, list_text(cfg, cs, d)),
        tracks(s, o, LexContext::Start, k, ls),
        closes(s, o + list_text(cfg, cs, d).len(), e),
    ensures
        tracks(s, e, LexContext::Start, k_end, ls),
        k <= k_end,
        lexes(s) ==> closed_at(s, ls, e, k_end),
        lexes(s) ==> kind_is(ls, k, TokenKind::Comment),
        lexes(s) ==> parse_nodes_from(s, ls, k, pending, acc) == Ok::<
            (Seq<NodeView>, int),
            ParseFailure,
        >((acc + comment_nodes(pending) + cs, k_end)),
    decreases cs.len(), 0int,
{
    let c = cs[0]->Comment_0;
    assert(cs[0] is Comment);
    assert(cs[0] == NodeView::Comment(c));
    let rest = cs.drop_first();
    assert(plain_list(rest)) by {
        assert forall|i: int| 0 <= i < rest.len() implies crate::printed::plain_node(
            #[trigger] rest[i],
        ) by {
            assert(rest[i] == cs[i + 1]);
        }
        assert forall|i: int, j: int|
            #![trigger rest[i], rest[j]]
            0 <= i < j < rest.len() && rest[i] is Comment implies rest[j] is Comment by {
            assert(rest[j] == cs[j + 1]);
        }
    }
    assert(all_comment_nodes(rest)) by {
        assert forall|i: int| 0 <= i < rest.len() implies #[trigger] rest[i] is Comment by {
            assert(rest[i] == cs[i + 1]);
        }
    }
    assert(crate::printed::plain_node(cs[0]));
    assert(comment_ok(c));
    lemma_comment_line(cfg, c, d);
    let ind = indent_spec(cfg, d);
    let line = comment_line(cfg, c, d);
    assert(crate::printed::node_text(cfg, cs[0], d) == line);
    assert(list_text(cfg, cs, d) == line + list_text(cfg, rest, d));
    lemma_occurs_split(s, o, line, list_text(cfg, rest, d));
    lemma_occurs_split(s, o, ind + c, seq!['\n']);
    lemma_occurs_split(s, o, ind, c);
    lemma_lex_indent(cfg, d, s, o, LexContext::Start, k, ls);
    let oc = o + ind.len();
    let on = oc + c.len();
    assert(s[on] == seq!['\n'][0]);
    lemma_lex_comment(s, oc, c, LexContext::Start, k, ls);
    lemma_lex_char(s, on, LexContext::Start, k + 1, ls);
    let k_end = lemma_read_tail(cfg, s, ls, on + 1, k + 2, rest, d, pending.push(c), acc, e);
    if lexes(s) {
        lemma_occurs_subrange(s, oc, c);
        assert(token_text(s, ls, k) == c);
        assert(!kind_is(ls, k + 2, TokenKind::Newline));
        assert(comment_nodes(pending.push(c)) + rest =~= comment_nodes(pending) + cs) by {
            assert(cs =~= seq![NodeView::Comment(c)] + rest);
        }
        assert(acc + comment_nodes(pending.push(c)) + rest =~= acc + comment_nodes(pending) + cs);
        assert(parse_nodes_from(s, ls, k + 1, pending.push(c), acc) == parse_nodes_from(
            s,
            ls,
            k + 2,
            pending.push(c),
            acc,
        ));
    }
    k_end
}

/// The tokens of a directive's line, read by the parser.
proof fn lemma_parse_directive_tokens(
    s: Seq<char>,
    ls: Seq<Lexeme>,
    ki: int,
    words: Seq<Seq<char>>,
    leading: Seq<Seq<char>>,
    inline: Option<Seq<char>>,
    j: int,
    acc: Seq<NodeView>,
)
    requires
        words.len() >= 1,
        0 <= ki,
        ki + words.len() < ls.len(),
        forall|i: int|
            0 <= i < words.len() ==> (#[trigger] ls[ki + i]).kind == word_kind(words[i])
                && token_text(s, ls, ki + i) == words[i],
        atom_text(words[0]),
        ls[ki + words.len()].kind == TokenKind::Semicolon,
        match inline {
            Some(c) => j == ki + words.len() + 2 && kind_is(ls, ki + words.len() + 1, TokenKind::Comment)
                && token_text(s, ls, ki + words.len() + 1) == c,
            None => j == ki + words.len() + 1,
        },
        kind_is(ls, j, TokenKind::Newline) || j == ls.len(),
    ensures
        parse_nodes_from(s, ls, ki, leading, acc) == parse_nodes_from(
            s,
            ls,
            j,
            seq![],
            acc.push(
                NodeView::Directive { leading, name: words[0], args: words.drop_first(), inline },
            ),
        ),
{
    let w = ki + words.len();
    assert(ls[ki + 0].kind == TokenKind::Ident);
    assert forall|i: int| ki + 1 <= i < w implies (#[trigger] ls[i]).kind == TokenKind::Ident
        || ls[i].kind == TokenKind::String by {
        assert(ls[ki + (i - ki)].kind == word_kind(words[i - ki]));
    }
    lemma_words_end_exact(ls, ki + 1, w);
    let parts = texts(s, ls, ki, w);
    assert(parts =~= words) by {
        assert forall|i: int| 0 <= i < words.len() implies parts[i] == words[i] by {
            assert(token_text(s, ls, ki + i) == words[i]);
        }
    }
    assert(newlines_end(ls, w) == w);
    assert(comment_at(s, ls, w) == None::<Seq<char>>);
    assert(past_comment(ls, w) == w);
    assert(first_some(None, comment_at(s, ls, w + 1)) == inline);
    assert(past_comment(ls, w + 1) == j);
    let node = NodeView::Directive { leading, name: words[0], args: words.drop_first(), inline };
    assert(parse_statement_at(s, ls, ki, leading) == Ok::<(NodeView, int), ParseFailure>(
        (node, j),
    ));
}

/// Reads a directive's lines, up to the newline that ends the last of them.
pub proof fn lemma_read_directive_line(
    cfg: Config,
    s: Seq<char>,
    ls: Seq<Lexeme>,
    o: int,
    k: int,
    leading: Seq<Seq<char>>,
    name: Seq<char>,
    args: Seq<Seq<char>>,
    inline: Option<Seq<char>>,
    d: nat,
    acc: Seq<NodeView>,
) -> (j: int)
    requires
        plain_node(NodeView::Directive { leading, name, args, inline }),
        occurs_at(s, o, node_text(cfg, NodeView::Directive { leading, name, args, inline }, d).drop_last()),
        o + node_text(cfg, NodeView::Directive { leading, name, args, inline }, d).len() - 1 == s.len() || s[o + node_text(cfg, NodeView::Directive { leading, name, args, inline }, d).len() - 1]
            == '\n',
        tracks(s, o, LexContext::Start, k, ls),
    ensures
        tracks(s, o + node_text(cfg, NodeView::Directive { leading, name, args, inline }, d).len() - 1, LexContext::Start, j, ls),
        k < j,
        lexes(s) ==> kind_is(ls, k, TokenKind::Comment) || kind_is(ls, k, TokenKind::Ident),
        lexes(s) && (kind_is(ls, j, TokenKind::Newline) || j == ls.len()) ==> parse_nodes_from(
            s,
            ls,
            k,
            seq![],
            acc,
        ) == parse_nodes_from(s, ls, j, seq![], acc.push(NodeView::Directive { leading, name, args, inline })),
{
    let cl = comment_lines(cfg, leading, d);
    let ind = indent_spec(cfg, d);
    let hd = header_text(name, args);
    let it = inline_text(inline);
    assert(node_text(cfg, NodeView::Directive { leading, name, args, inline }, d).drop_last() =~= cl + ind + hd + seq![';'] + it);
    lemma_occurs_split(s, o, cl + ind + hd + seq![';'], it);
    lemma_occurs_split(s, o, cl + ind + hd, seq![';']);
    lemma_occurs_split(s, o, cl + ind, hd);
    lemma_occurs_split(s, o, cl, ind);
    let o1 = o + cl.len();
    let o2 = o1 + ind.len();
    let o3 = o2 + hd.len();
    let o4 = o3 + 1;
    let o5 = o4 + it.len();
    let ki = lemma_read_comments(cfg, s, ls, o, k, leading, d, seq![], acc);
    lemma_lex_indent(cfg, d, s, o1, LexContext::Start, ki, ls);
    let words = seq![name] + args;
    lemma_header_joined(name, args);
    assert forall|i: int| 0 <= i < words.len() implies word_text(#[trigger] words[i]) by {
        if i > 0 {
            assert(words[i] == args[i - 1]);
            assert(word_ok(args[i - 1]));
        }
    }
    assert(s[o3] == seq![';'][0]);
    lemma_lex_words(s, o2, words, LexContext::Start, ki, ls);
    let w = ki + words.len();
    lemma_lex_char(s, o3, word_ctx(LexContext::Start, words[0]), w, ls);
    let j = match inline {
        Some(c) => {
            assert(comment_ok(c));
            lemma_occurs_split(s, o4, seq![' '], c);
            assert(s[o4] == seq![' '][0]);
            assert(blank_char(s[o4]));
            lemma_lex_blank(s, o4, 1, LexContext::Start, w + 1, ls);
            lemma_lex_comment(s, o4 + 1, c, LexContext::Start, w + 1, ls);
            if lexes(s) {
                lemma_occurs_subrange(s, o4 + 1, c);
            }
            w + 2
        },
        None => { w + 1 },
    };
    if lexes(s) && (kind_is(ls, j, TokenKind::Newline) || j == ls.len()) {
        assert(ls[ki + 0].kind == word_kind(words[0]));
        assert(words[0] == name);
        assert(kind_is(ls, ki, TokenKind::Ident));
        assert(seq![] + leading == leading);
        assert(words.drop_first() == args);
        lemma_parse_directive_tokens(s, ls, ki, words, leading, inline, j, acc);
    }
    if lexes(s) {
        assert(ls[ki + 0].kind == word_kind(words[0]));
    }
    j
}

/// Reads a directive, with its leading comments, starting at its first token.
pub proof fn lemma_read_directive(
    cfg: Config,
    s: Seq<char>,
    ls: Seq<Lexeme>,
    o: int,
    k: int,
    leading: Seq<Seq<char>>,
    name: Seq<char>,
    args: Seq<Seq<char>>,
    inline: Option<Seq<char>>,
    d: nat,
    acc: Seq<NodeView>,
) -> (j: int)
    requires
        plain_node(NodeView::Directive { leading, name, args, inline }),
        occurs_at(s, o, node_text(cfg, NodeView::Directive { leading, name, args, inline }, d)),
        tracks(s, o, LexContext::Start, k, ls),
    ensures
        tracks(s, o + node_text(cfg, NodeView::Directive { leading, name, args, inline }, d).len(), LexContext::Start, j + 1, ls),
        k < j,
        lexes(s) ==> kind_is(ls, j, TokenKind::Newline),
        lexes(s) ==> kind_is(ls, k, TokenKind::Comment) || kind_is(ls, k, TokenKind::Ident),
        lexes(s) ==> parse_nodes_from(s, ls, k, seq![], acc) == parse_nodes_from(
            s,
            ls,
            j,
            seq![],
            acc.push(NodeView::Directive { leading, name, args, inline }),
        ),
{
    let nt = node_text(cfg, NodeView::Directive { leading, name, args, inline }, d);
    let body = nt.drop_last();
    assert(nt == body + seq!['\n']) by {
        let cl = comment_lines(cfg, leading, d);
        let ind = indent_spec(cfg, d);
        let hd = header_text(name, args);
        let it = inline_text(inline);
        assert(nt =~= (cl + ind + hd + seq![';'] + it) + seq!['\n']);
    }
    lemma_occurs_split(s, o, body, seq!['\n']);
    assert(s[o + body.len()] == seq!['\n'][0]);
    let j = lemma_read_directive_line(cfg, s, ls, o, k, leading, name, args, inline, d, acc);
    lemma_lex_char(s, o + body.len(), LexContext::Start, j, ls);
    j
}

/// The tokens of a block's header and braces, read by the parser.
proof fn lemma_parse_block_tokens(
    s: Seq<char>,
    ls: Seq<Lexeme>,
    ki: int,
    words: Seq<Seq<char>>,
    leading: Seq<Seq<char>>,
    a: int,
    children: Seq<NodeView>,
    m: int,
    acc: Seq<NodeView>,
)
    requires
        words.len() >= 1,
        0 <= ki,
        ki + words.len() < ls.len(),
        forall|i: int|
            0 <= i < words.len() ==> (#[trigger] ls[ki + i]).kind == word_kind(words[i])
                && token_text(s, ls, ki + i) == words[i],
        atom_text(words[0]),
        !is_lua_name(words[0]),
        (a == ki + words.len() && kind_is(ls, a, TokenKind::LBrace)) || (a == ki + words.len() + 1
            && kind_is(ls, ki + words.len(), TokenKind::Newline) && kind_is(
            ls,
            a,
            TokenKind::LBrace,
        )),
        parse_nodes_from(s, ls, a + 1, seq![], seq![]) == Ok::<(Seq<NodeView>, int), ParseFailure>(
            (children, m),
        ),
        a < m,
        kind_is(ls, m, TokenKind::RBrace),
    ensures
        parse_nodes_from(s, ls, ki, leading, acc) == parse_nodes_from(
            s,
            ls,
            m + 1,
            seq![],
            acc.push(
                NodeView::Block {
                    leading,
                    name: words[0],
                    args: words.drop_first(),
                    children,
                    inline: None,
                },
            ),
        ),
{
    let w = ki + words.len();
    assert(ls[ki + 0].kind == TokenKind::Ident);
    assert forall|i: int| ki + 1 <= i < w implies (#[trigger] ls[i]).kind == TokenKind::Ident
        || ls[i].kind == TokenKind::String by {
        assert(ls[ki + (i - ki)].kind == word_kind(words[i - ki]));
    }
    lemma_words_end_exact(ls, ki + 1, w);
    let parts = texts(s, ls, ki, w);
    assert(parts =~= words) by {
        assert forall|i: int| 0 <= i < words.len() implies parts[i] == words[i] by {
            assert(token_text(s, ls, ki + i) == words[i]);
        }
    }
    if a == w + 1 {
        assert(newlines_end(ls, a) == a);
    }
    assert(newlines_end(ls, w) == a);
    assert(comment_at(s, ls, a) == None::<Seq<char>>);
    assert(past_comment(ls, a) == a);
    let node = NodeView::Block {
        leading,
        name: words[0],
        args: words.drop_first(),
        children,
        inline: None,
    };
    assert(parse_statement_at(s, ls, ki, leading) == Ok::<(NodeView, int), ParseFailure>(
        (node, m + 1),
    ));
}

/// Reads the header of a block up to its opening brace, from its first token on.
proof fn lemma_read_header(
    cfg: Config,
    s: Seq<char>,
    ls: Seq<Lexeme>,
    o1: int,
    ki: int,
    name: Seq<char>,
    args: Seq<Seq<char>>,
    d: nat,
) -> (a: int)
    requires
        atom_text(name),
        words_ok(args),
        occurs_at(s, o1, opening_text(cfg, header_text(name, args), d)),
        tracks(s, o1, LexContext::Start, ki, ls),
    ensures
        tracks(
            s,
            o1 + opening_text(cfg, header_text(name, args), d).len() - 2,
            LexContext::Words(is_lua_name(name)),
            a,
            ls,
        ),
        ki + args.len() + 1 <= a,
        s[o1 + opening_text(cfg, header_text(name, args), d).len() - 2] == '{',
        s[o1 + opening_text(cfg, header_text(name, args), d).len() - 1] == '\n',
        lexes(s) ==> forall|i: int|
            0 <= i < (seq![name] + args).len() ==> (#[trigger] ls[ki + i]).kind == word_kind(
                (seq![name] + args)[i],
            ) && token_text(s, ls, ki + i) == (seq![name] + args)[i],
        a == ki + args.len() + 1 || (a == ki + args.len() + 2 && (lexes(s) ==> kind_is(
            ls,
            ki + args.len() + 1,
            TokenKind::Newline,
        ))),
{
    let ind = indent_spec(cfg, d);
    let hd = header_text(name, args);
    let o2 = o1 + ind.len();
    let o3 = o2 + hd.len();
    let words = seq![name] + args;
    lemma_header_joined(name, args);
    assert forall|i: int| 0 <= i < words.len() implies word_text(#[trigger] words[i]) by {
        if i > 0 {
            assert(words[i] == args[i - 1]);
            assert(word_ok(args[i - 1]));
        }
    }
    assert(words[0] == name);
    let wc = word_ctx(LexContext::Start, name);
    assert(wc == LexContext::Words(is_lua_name(name)));
    let w = ki + words.len();
    match cfg.brace_style {
        BraceStyle::SameLine => {
            lemma_occurs_split(s, o1, ind + hd, seq![' ', '{', '\n']);
            lemma_occurs_split(s, o1, ind, hd);
            lemma_lex_indent(cfg, d, s, o1, LexContext::Start, ki, ls);
            assert(s[o3] == seq![' ', '{', '\n'][0]);
            assert(s[o3 + 1] == seq![' ', '{', '\n'][1]);
            assert(s[o3 + 2] == seq![' ', '{', '\n'][2]);
            lemma_lex_words(s, o2, words, LexContext::Start, ki, ls);
            assert(blank_char(s[o3]));
            lemma_lex_blank(s, o3, 1, wc, w, ls);
            w
        },
        BraceStyle::NextLine => {
            lemma_occurs_split(s, o1, ind + hd + seq!['\n'] + ind, seq!['{', '\n']);
            lemma_occurs_split(s, o1, ind + hd + seq!['\n'], ind);
            lemma_occurs_split(s, o1, ind + hd, seq!['\n']);
            lemma_occurs_split(s, o1, ind, hd);
            lemma_lex_indent(cfg, d, s, o1, LexContext::Start, ki, ls);
            assert(s[o3] == seq!['\n'][0]);
            let ob = o3 + 1 + ind.len();
            assert(s[ob] == seq!['{', '\n'][0]);
            assert(s[ob + 1] == seq!['{', '\n'][1]);
            lemma_lex_words(s, o2, words, LexContext::Start, ki, ls);
            lemma_lex_char(s, o3, wc, w, ls);
            lemma_lex_indent(cfg, d, s, o3 + 1, wc, w + 1, ls);
            w + 1
        },
    }
}

/// Reads the line (or lines) that open a block, from its first token on.
proof fn lemma_read_opening(
    cfg: Config,
    s: Seq<char>,
    ls: Seq<Lexeme>,
    o1: int,
    ki: int,
    name: Seq<char>,
    args: Seq<Seq<char>>,
    d: nat,
) -> (a: int)
    requires
        atom_text(name),
        !is_lua_name(name),
        words_ok(args),
        occurs_at(s, o1, opening_text(cfg, header_text(name, args), d)),
        tracks(s, o1, LexContext::Start, ki, ls),
    ensures
        tracks(s, o1 + opening_text(cfg, header_text(name, args), d).len(), LexContext::Start, a + 2, ls),
        ki + args.len() + 1 <= a,
        lexes(s) ==> a + 1 < ls.len() && kind_is(ls, a + 1, TokenKind::Newline),
        lexes(s) ==> ls[a + 1].start == o1 + opening_text(cfg, header_text(name, args), d).len() - 1,
        lexes(s) ==> forall|i: int|
            0 <= i < (seq![name] + args).len() ==> (#[trigger] ls[ki + i]).kind == word_kind(
                (seq![name] + args)[i],
            ) && token_text(s, ls, ki + i) == (seq![name] + args)[i],
        lexes(s) ==> (a == ki + args.len() + 1 && kind_is(ls, a, TokenKind::LBrace)) || (a == ki
            + args.len() + 2 && kind_is(ls, ki + args.len() + 1, TokenKind::Newline) && kind_is(
            ls,
            a,
            TokenKind::LBrace,
        )),
{
    let n = opening_text(cfg, header_text(name, args), d).len();
    let a = lemma_read_header(cfg, s, ls, o1, ki, name, args, d);
    lemma_lex_char(s, o1 + n - 2, LexContext::Words(false), a, ls);
    lemma_lex_char(s, o1 + n - 1, LexContext::Start, a + 1, ls);
    a
}

/// Reads a block, with its leading comments, up to its closing brace.
pub proof fn lemma_read_block_body(
    cfg: Config,
    s: Seq<char>,
    ls: Seq<Lexeme>,
    o: int,
    k: int,
    leading: Seq<Seq<char>>,
    name: Seq<char>,
    args: Seq<Seq<char>>,
    children: Seq<NodeView>,
    d: nat,
    acc: Seq<NodeView>,
) -> (j: int)
    requires
        plain_node(NodeView::Block { leading, name, args, children, inline: None }),
        occurs_at(s, o, node_text(cfg, NodeView::Block { leading, name, args, children, inline: None }, d).drop_last()),
        tracks(s, o, LexContext::Start, k, ls),
    ensures
        tracks(s, o + node_text(cfg, NodeView::Block { leading, name, args, children, inline: None }, d).len() - 1, LexContext::Start, j, ls),
        k < j,
        lexes(s) ==> kind_is(ls, k, TokenKind::Comment) || kind_is(ls, k, TokenKind::Ident),
        lexes(s) ==> parse_nodes_from(s, ls, k, seq![], acc) == parse_nodes_from(
            s,
            ls,
            j,
            seq![],
            acc.push(reread_node(cfg, NodeView::Block { leading, name, args, children, inline: None }, d)),
        ),
    decreases (NodeView::Block { leading, name, args, children, inline: None }), 1int,
{
    assert(words_ok(args));
    let cl = comment_lines(cfg, leading, d);
    let ind = indent_spec(cfg, d);
    let hd = header_text(name, args);
    let op = opening_text(cfg, hd, d);
    let lt = list_text(cfg, children, d + 1);
    assert(node_text(cfg, NodeView::Block { leading, name, args, children, inline: None }, d).drop_last() =~= cl + op + lt + ind + seq!['}']);
    lemma_occurs_split(s, o, cl + op + lt + ind, seq!['}']);
    lemma_occurs_split(s, o, cl + op + lt, ind);
    lemma_occurs_split(s, o, cl + op, lt);
    lemma_occurs_split(s, o, cl, op);
    let o1 = o + cl.len();
    let o2 = o1 + ind.len();
    let o3 = o2 + hd.len();
    let oc = o1 + op.len();
    let e = oc + lt.len() + ind.len();
    let ki = lemma_read_comments(cfg, s, ls, o, k, leading, d, seq![], acc);
    let words = seq![name] + args;
    assert(op + Seq::<char>::empty() == op);
    lemma_occurs_split(s, o1, op, Seq::<char>::empty());
    let a = lemma_read_opening(cfg, s, ls, o1, ki, name, args, d);
    assert(forall|i: int| oc + lt.len() <= i < e ==> blank_char(#[trigger] s[i])) by {
        assert forall|i: int| oc + lt.len() <= i < e implies blank_char(#[trigger] s[i]) by {
            assert(s[oc + lt.len() + (i - oc - lt.len())] == ind[i - oc - lt.len()]);
        }
    }
    assert(s[e] == seq!['}'][0]);
    assert(plain_list(children));
    let m = lemma_read_list(cfg, s, ls, oc, a + 1, children, d + 1, seq![], e);
    lemma_lex_char(s, e, LexContext::Start, m, ls);
    if lexes(s) {
        assert(ls[ki + 0].kind == word_kind(words[0]));
        assert(words[0] == name);
        assert(kind_is(ls, ki, TokenKind::Ident));
        assert(seq![] + leading == leading);
        assert(words.drop_first() == args);
        let rc = reread_list(cfg, children, d + 1);
        assert(Seq::<NodeView>::empty() + rc == rc);
        lemma_parse_block_tokens(s, ls, ki, words, leading, a, rc, m, acc);
    }
    m + 1
}

/// Reads a block, with its leading comments, starting at its first token.
pub proof fn lemma_read_block(
    cfg: Config,
    s: Seq<char>,
    ls: Seq<Lexeme>,
    o: int,
    k: int,
    leading: Seq<Seq<char>>,
    name: Seq<char>,
    args: Seq<Seq<char>>,
    children: Seq<NodeView>,
    d: nat,
    acc: Seq<NodeView>,
) -> (j: int)
    requires
        plain_node(NodeView::Block { leading, name, args, children, inline: None }),
        occurs_at(s, o, node_text(cfg, NodeView::Block { leading, name, args, children, inline: None }, d)),
        tracks(s, o, LexContext::Start, k, ls),
    ensures
        tracks(s, o + node_text(cfg, NodeView::Block { leading, name, args, children, inline: None }, d).len(), LexContext::Start, j + 1, ls),
        k < j,
        lexes(s) ==> kind_is(ls, j, TokenKind::Newline),
        lexes(s) ==> kind_is(ls, k, TokenKind::Comment) || kind_is(ls, k, TokenKind::Ident),
        lexes(s) ==> parse_nodes_from(s, ls, k, seq![], acc) == parse_nodes_from(
            s,
            ls,
            j,
            seq![],
            acc.push(reread_node(cfg, NodeView::Block { leading, name, args, children, inline: None }, d)),
        ),
    decreases (NodeView::Block { leading, name, args, children, inline: None }), 2int,
{
    let nt = node_text(cfg, NodeView::Block { leading, name, args, children, inline: None }, d);
    let body = nt.drop_last();
    assert(nt == body + seq!['\n']) by {
        let cl = comment_lines(cfg, leading, d);
        let op = opening_text(cfg, header_text(name, args), d);
        let lt = list_text(cfg, children, d + 1);
        let ind = indent_spec(cfg, d);
        assert(nt =~= (cl + op + lt + ind + seq!['}']) + seq!['\n']);
    }
    lemma_occurs_split(s, o, body, seq!['\n']);
    assert(s[o + body.len()] == seq!['\n'][0]);
    let j = lemma_read_block_body(cfg, s, ls, o, k, leading, name, args, children, d, acc);
    lemma_lex_char(s, o + body.len(), LexContext::Start, j, ls);
    j
}

/// Comment nodes read back as themselves.
proof fn lemma_reread_comments(cfg: Config, ns: Seq<NodeView>, d: nat)
    requires
        all_comment_nodes(ns),
    ensures
        reread_list(cfg, ns, d) == ns,
{
    crate::printed::lemma_reread_index(cfg, ns, d);
    assert forall|i: int| 0 <= i < ns.len() implies reread_list(cfg, ns, d)[i] == ns[i] by {
        assert(ns[i] is Comment);
    }
    assert(reread_list(cfg, ns, d) =~= ns);
}

/// Reads a list of nodes that follows the newline token `k`, up to a closing
/// brace or the end of the text.
pub proof fn lemma_read_list(
    cfg: Config,
    s: Seq<char>,
    ls: Seq<Lexeme>,
    o: int,
    k: int,
    ns: Seq<NodeView>,
    d: nat,
    acc: Seq<NodeView>,
    e: int,
) -> (k_end: int)
    requires
        plain_list(ns),
        occurs_at(s, o, list_text(cfg, ns, d)),
        tracks(s, o, LexContext::Start, k + 1, ls),
        lexes(s) ==> kind_is(ls, k, TokenKind::Newline),
        closes(s, o + list_text(cfg, ns, d).len(), e),
    ensures
        tracks(s, e, LexContext::Start, k_end, ls),
        k < k_end,
        lexes(s) ==> closed_at(s, ls, e, k_end),
        lexes(s) ==> parse_nodes_from(s, ls, k, seq![], acc) == Ok::<
            (Seq<NodeView>, int),
            ParseFailure,
        >((acc + reread_list(cfg, ns, d), k_end)),
    decreases ns, 0int,
{
    if ns.len() == 0 {
        lemma_read_close(s, ls, o, k + 1, e);
        assert(acc + reread_list(cfg, ns, d) == acc);
        assert(acc + comment_nodes(seq![]) == acc);
        k + 1
    } else {
        let first = ns[0];
        let rest = ns.drop_first();
        assert(plain_node(first));
        assert(plain_list(rest)) by {
            assert forall|i: int| 0 <= i < rest.len() implies plain_node(#[trigger] rest[i]) by {
                assert(rest[i] == ns[i + 1]);
            }
            assert forall|i: int, j: int|
                #![trigger rest[i], rest[j]]
                0 <= i < j < rest.len() && rest[i] is Comment implies rest[j] is Comment by {
                assert(rest[i] == ns[i + 1]);
                assert(rest[j] == ns[j + 1]);
            }
        }
        let nt = node_text(cfg, first, d);
        assert(list_text(cfg, ns, d) == nt + list_text(cfg, rest, d));
        lemma_occurs_split(s, o, nt, list_text(cfg, rest, d));
        assert(acc.push(reread_node(cfg, first, d)) + reread_list(cfg, rest, d) =~= acc
            + reread_list(cfg, ns, d));
        match first {
            NodeView::BlankLine => {
                assert(nt == seq!['\n']);
                assert(s[o] == nt[0]);
                lemma_lex_char(s, o, LexContext::Start, k + 1, ls);
                let k_end = lemma_read_list(cfg, s, ls, o + 1, k + 1, rest, d, acc.push(first), e);
                k_end
            },
            NodeView::Comment(c) => {
                assert(all_comment_nodes(ns)) by {
                    assert forall|i: int| 0 <= i < ns.len() implies #[trigger] ns[i] is Comment by {
                        if i > 0 {
                            assert(ns[0] is Comment);
                        }
                    }
                }
                let k_end = lemma_read_tail(cfg, s, ls, o, k + 1, ns, d, seq![], acc, e);
                lemma_reread_comments(cfg, ns, d);
                if lexes(s) {
                    assert(acc + comment_nodes(seq![]) + ns =~= acc + ns);
                }
                k_end
            },
            NodeView::Directive { leading, name, args, inline } => {
                let j = lemma_read_directive(cfg, s, ls, o, k + 1, leading, name, args, inline, d, acc);
                let k_end = lemma_read_list(cfg, s, ls, o + nt.len(), j, rest, d, acc.push(first), e);
                k_end
            },
            NodeView::Block { leading, name, args, children, inline } => {
                let j = lemma_read_block(cfg, s, ls, o, k + 1, leading, name, args, children, d, acc);
                let k_end = lemma_read_list(
                    cfg,
                    s,
                    ls,
                    o + nt.len(),
                    j,
                    rest,
                    d,
                    acc.push(reread_node(cfg, first, d)),
                    e,
                );
                k_end
            },
            NodeView::Opaque { leading, header, body, inline } => {
                let j = lemma_read_opaque(cfg, s, ls, o, k + 1, leading, header, body, d, acc);
                let k_end = lemma_read_list(
                    cfg,
                    s,
                    ls,
                    o + nt.len(),
                    j,
                    rest,
                    d,
                    acc.push(reread_node(cfg, first, d)),
                    e,
                );
                k_end
            },
        }
    }
}

/// Plain nodes that do not open with a blank line read back from their text.
pub proof fn lemma_read_printed(cfg: Config, ns: Seq<NodeView>)
    requires
        plain_list(ns),
        ns.len() > 0,
        !(ns[0] is BlankLine),
    ensures
        parse_spec(list_text(cfg, ns, 0)) == Ok::<Seq<NodeView>, ParseFailure>(
            reread_list(cfg, ns, 0),
        ),
{
    let s = list_text(cfg, ns, 0);
    let ls = match lex(s) {
        Ok(l) => l,
        Err(_) => seq![],
    };
    assert(ls.skip(0) == ls);
    assert(tracks(s, 0, LexContext::Start, 0, ls));
    assert(occurs_at(s, 0, s));
    let first = ns[0];
    let rest = ns.drop_first();
    lemma_plain_rest(ns);
    let nt = node_text(cfg, first, 0);
    assert(s == nt + list_text(cfg, rest, 0));
    lemma_occurs_split(s, 0, nt, list_text(cfg, rest, 0));
    let e = s.len() as int;
    assert(closes(s, e, e));
    let r = reread_list(cfg, ns, 0);
    let r0 = reread_node(cfg, first, 0);
    assert(Seq::<NodeView>::empty().push(r0) + reread_list(cfg, rest, 0) =~= r);
    if first is Comment {
        let k_end = lemma_read_tail(cfg, s, ls, 0, 0, ns, 0, seq![], seq![], e);
        lemma_tracks_end(s, LexContext::Start, k_end, ls);
        lemma_reread_comments(cfg, ns, 0);
        assert(Seq::<NodeView>::empty() + comment_nodes(seq![]) + ns =~= ns);
    } else {
        let j = match first {
            NodeView::Directive { leading, name, args, inline } => lemma_read_directive(
                cfg,
                s,
                ls,
                0,
                0,
                leading,
                name,
                args,
                inline,
                0,
                seq![],
            ),
            NodeView::Block { leading, name, args, children, inline } => lemma_read_block(
                cfg,
                s,
                ls,
                0,
                0,
                leading,
                name,
                args,
                children,
                0,
                seq![],
            ),
            NodeView::Opaque { leading, header, body, inline } => lemma_read_opaque(
                cfg,
                s,
                ls,
                0,
                0,
                leading,
                header,
                body,
                0,
                seq![],
            ),
            _ => 0,
        };
        let k_end = lemma_read_list(
            cfg,
            s,
            ls,
            nt.len() as int,
            j,
            rest,
            0,
            Seq::<NodeView>::empty().push(r0),
            e,
        );
        lemma_tracks_end(s, LexContext::Start, k_end, ls);
    }
}

// ---------------------------------------------------------------------------
// Text whose last newline is cut off
// ---------------------------------------------------------------------------

/// The nodes after the first of plain nodes are plain.
pub proof fn lemma_plain_rest(ns: Seq<NodeView>)
    requires
        plain_list(ns),
        ns.len() > 0,
    ensures
        plain_node(ns[0]),
        plain_list(ns.drop_first()),
        ns[0] is Comment ==> all_comment_nodes(ns),
{
    let rest = ns.drop_first();
    assert forall|i: int| 0 <= i < rest.len() implies plain_node(#[trigger] rest[i]) by {
        assert(rest[i] == ns[i + 1]);
    }
    assert forall|i: int, j: int|
        #![trigger rest[i], rest[j]]
        0 <= i < j < rest.len() && rest[i] is Comment implies rest[j] is Comment by {
        assert(rest[i] == ns[i + 1]);
        assert(rest[j] == ns[j + 1]);
    }
    if ns[0] is Comment {
        assert forall|i: int| 0 <= i < ns.len() implies #[trigger] ns[i] is Comment by {
            if i > 0 {
                assert(ns[0] is Comment);
            }
        }
    }
}

/// The text of nodes without its last character, split after the first node.
proof fn lemma_cut_split(cfg: Config, ns: Seq<NodeView>, d: nat)
    requires
        ns.len() > 0,
    ensures
        list_text(cfg, ns, d).len() > 0,
        ns.len() == 1 ==> list_text(cfg, ns, d).drop_last() == node_text(cfg, ns[0], d).drop_last(),
        ns.len() > 1 ==> list_text(cfg, ns, d).drop_last() == node_text(cfg, ns[0], d) + list_text(
            cfg,
            ns.drop_first(),
            d,
        ).drop_last(),
        ns.len() > 1 ==> list_text(cfg, ns.drop_first(), d).len() > 0,
{
    lemma_list_text_ends(cfg, ns, d);
    let nt = node_text(cfg, ns[0], d);
    let rest = ns.drop_first();
    if ns.len() == 1 {
        assert(list_text(cfg, rest, d) == Seq::<char>::empty());
        assert(nt + Seq::<char>::empty() == nt);
    } else {
        lemma_list_text_ends(cfg, rest, d);
        let lt = list_text(cfg, rest, d);
        assert((nt + lt).drop_last() =~= nt + lt.drop_last());
    }
}

/// Reads comment nodes that end the text, the newline of the last one cut off.
pub proof fn lemma_read_tail_cut(
    cfg: Config,
    s: Seq<char>,
    ls: Seq<Lexeme>,
    o: int,
    k: int,
    cs: Seq<NodeView>,
    d: nat,
    pending: Seq<Seq<char>>,
    acc: Seq<NodeView>,
) -> (k_end: int)
    requires
        cs.len() > 0,
        all_comment_nodes(cs),
        plain_list(cs),
        occurs_at(s, o, list_text(cfg, cs, d).drop_last()),
        o + list_text(cfg, cs, d).len() - 1 == s.len(),
        tracks(s, o, LexContext::Start, k, ls),
    ensures
        tracks(s, s.len() as int, LexContext::Start, k_end, ls),
        k < k_end,
        lexes(s) ==> kind_is(ls, k, TokenKind::Comment),
        lexes(s) ==> parse_nodes_from(s, ls, k, pending, acc) == Ok::<
            (Seq<NodeView>, int),
            ParseFailure,
        >((acc + comment_nodes(pending) + cs, k_end)),
    decreases cs.len(),
{
    let c = cs[0]->Comment_0;
    assert(cs[0] is Comment);
    assert(cs[0] == NodeView::Comment(c));
    let rest = cs.drop_first();
    lemma_plain_rest(cs);
    assert(all_comment_nodes(rest)) by {
        assert forall|i: int| 0 <= i < rest.len() implies #[trigger] rest[i] is Comment by {
            assert(rest[i] == cs[i + 1]);
        }
    }
    assert(comment_ok(c));
    lemma_comment_line(cfg, c, d);
    let ind = indent_spec(cfg, d);
    let line = comment_line(cfg, c, d);
    assert(node_text(cfg, cs[0], d) == line);
    lemma_cut_split(cfg, cs, d);
    let oc = o + ind.len();
    let on = oc + c.len();
    assert(comment_nodes(pending.push(c)) + rest =~= comment_nodes(pending) + cs) by {
        assert(cs =~= seq![NodeView::Comment(c)] + rest);
    }
    assert(acc + comment_nodes(pending.push(c)) + rest =~= acc + comment_nodes(pending) + cs);
    if rest.len() == 0 {
        assert(line.drop_last() =~= ind + c);
        lemma_occurs_split(s, o, ind, c);
        lemma_lex_indent(cfg, d, s, o, LexContext::Start, k, ls);
        lemma_lex_comment(s, oc, c, LexContext::Start, k, ls);
        lemma_tracks_end(s, LexContext::Start, k + 1, ls);
        lemma_occurs_subrange(s, oc, c);
        assert(token_text(s, ls, k) == c);
        assert(acc + comment_nodes(pending.push(c)) + rest == acc + comment_nodes(pending.push(c)));
        k + 1
    } else {
        lemma_occurs_split(s, o, line, list_text(cfg, rest, d).drop_last());
        lemma_occurs_split(s, o, ind + c, seq!['\n']);
        lemma_occurs_split(s, o, ind, c);
        lemma_lex_indent(cfg, d, s, o, LexContext::Start, k, ls);
        assert(s[on] == seq!['\n'][0]);
        lemma_lex_comment(s, oc, c, LexContext::Start, k, ls);
        lemma_lex_char(s, on, LexContext::Start, k + 1, ls);
        let k_end = lemma_read_tail_cut(cfg, s, ls, on + 1, k + 2, rest, d, pending.push(c), acc);
        if lexes(s) {
            lemma_occurs_subrange(s, oc, c);
            assert(token_text(s, ls, k) == c);
            assert(!kind_is(ls, k + 2, TokenKind::Newline));
            assert(parse_nodes_from(s, ls, k + 1, pending.push(c), acc) == parse_nodes_from(
                s,
                ls,
                k + 2,
                pending.push(c),
                acc,
            ));
        }
        k_end
    }
}

/// Reads a list of nodes that follows the newline token `k` and ends the text,
/// the newline of its last node cut off.
pub proof fn lemma_read_list_cut(
    cfg: Config,
    s: Seq<char>,
    ls: Seq<Lexeme>,
    o: int,
    k: int,
    ns: Seq<NodeView>,
    d: nat,
    acc: Seq<NodeView>,
) -> (k_end: int)
    requires
        plain_list(ns),
        ns.len() > 0,
        !(ns.last() is BlankLine),
        occurs_at(s, o, list_text(cfg, ns, d).drop_last()),
        o + list_text(cfg, ns, d).len() - 1 == s.len(),
        tracks(s, o, LexContext::Start, k + 1, ls),
        lexes(s) ==> kind_is(ls, k, TokenKind::Newline),
    ensures
        tracks(s, s.len() as int, LexContext::Start, k_end, ls),
        k < k_end,
        lexes(s) ==> parse_nodes_from(s, ls, k, seq![], acc) == Ok::<
            (Seq<NodeView>, int),
            ParseFailure,
        >((acc + reread_list(cfg, ns, d), k_end)),
    decreases ns.len(),
{
    let first = ns[0];
    let rest = ns.drop_first();
    lemma_plain_rest(ns);
    lemma_cut_split(cfg, ns, d);
    let nt = node_text(cfg, first, d);
    let r0 = reread_node(cfg, first, d);
    assert(acc.push(r0) + reread_list(cfg, rest, d) =~= acc + reread_list(cfg, ns, d));
    if first is Comment {
        let k_end = lemma_read_tail_cut(cfg, s, ls, o, k + 1, ns, d, seq![], acc);
        lemma_reread_comments(cfg, ns, d);
        if lexes(s) {
            assert(acc + comment_nodes(seq![]) + ns =~= acc + ns);
        }
        k_end
    } else if rest.len() == 0 {
        assert(ns.last() == first);
        assert(reread_list(cfg, rest, d) == Seq::<NodeView>::empty());
        assert(acc.push(r0) + comment_nodes(seq![]) =~= acc + reread_list(cfg, ns, d));
        let j = match first {
            NodeView::Directive { leading, name, args, inline } => lemma_read_directive_line(
                cfg,
                s,
                ls,
                o,
                k + 1,
                leading,
                name,
                args,
                inline,
                d,
                acc,
            ),
            NodeView::Block { leading, name, args, children, inline } => lemma_read_block_body(
                cfg,
                s,
                ls,
                o,
                k + 1,
                leading,
                name,
                args,
                children,
                d,
                acc,
            ),
            NodeView::Opaque { leading, header, body, inline } => lemma_read_opaque_body(
                cfg,
                s,
                ls,
                o,
                k + 1,
                leading,
                header,
                body,
                d,
                acc,
            ),
            _ => k + 1,
        };
        lemma_tracks_end(s, LexContext::Start, j, ls);
        j
    } else {
        assert(rest.last() == ns.last());
        lemma_occurs_split(s, o, nt, list_text(cfg, rest, d).drop_last());
        let j = match first {
            NodeView::BlankLine => {
                assert(nt == seq!['\n']);
                assert(s[o] == nt[0]);
                lemma_lex_char(s, o, LexContext::Start, k + 1, ls);
                k + 1
            },
            NodeView::Directive { leading, name, args, inline } => lemma_read_directive(
                cfg,
                s,
                ls,
                o,
                k + 1,
                leading,
                name,
                args,
                inline,
                d,
                acc,
            ),
            NodeView::Block { leading, name, args, children, inline } => lemma_read_block(
                cfg,
                s,
                ls,
                o,
                k + 1,
                leading,
                name,
                args,
                children,
                d,
                acc,
            ),
            NodeView::Opaque { leading, header, body, inline } => lemma_read_opaque(
                cfg,
                s,
                ls,
                o,
                k + 1,
                leading,
                header,
                body,
                d,
                acc,
            ),
            _ => k + 1,
        };
        lemma_read_list_cut(cfg, s, ls, o + nt.len(), j, rest, d, acc.push(r0))
    }
}

/// Plain nodes that neither open nor end with a blank line read back from their
/// text with its last newline cut off.
pub proof fn lemma_read_printed_cut(cfg: Config, ns: Seq<NodeView>)
    requires
        plain_list(ns),
        ns.len() > 0,
        !(ns[0] is BlankLine),
        !(ns.last() is BlankLine),
    ensures
        parse_spec(list_text(cfg, ns, 0).drop_last()) == Ok::<Seq<NodeView>, ParseFailure>(
            reread_list(cfg, ns, 0),
        ),
{
    let s = list_text(cfg, ns, 0).drop_last();
    let ls = match lex(s) {
        Ok(l) => l,
        Err(_) => seq![],
    };
    assert(ls.skip(0) == ls);
    assert(tracks(s, 0, LexContext::Start, 0, ls));
    assert(occurs_at(s, 0, s));
    let first = ns[0];
    let rest = ns.drop_first();
    lemma_plain_rest(ns);
    lemma_cut_split(cfg, ns, 0);
    let nt = node_text(cfg, first, 0);
    let r0 = reread_node(cfg, first, 0);
    let r = reread_list(cfg, ns, 0);
    assert(Seq::<NodeView>::empty().push(r0) + reread_list(cfg, rest, 0) =~= r);
    if first is Comment {
        let k_end = lemma_read_tail_cut(cfg, s, ls, 0, 0, ns, 0, seq![], seq![]);
        lemma_tracks_end(s, LexContext::Start, k_end, ls);
        lemma_reread_comments(cfg, ns, 0);
        assert(Seq::<NodeView>::empty() + comment_nodes(seq![]) + ns =~= ns);
    } else if rest.len() == 0 {
        assert(ns.last() == first);
        assert(reread_list(cfg, rest, 0) == Seq::<NodeView>::empty());
        assert(Seq::<NodeView>::empty().push(r0) + comment_nodes(seq![]) =~= r);
        let j = match first {
            NodeView::Directive { leading, name, args, inline } => lemma_read_directive_line(
                cfg,
                s,
                ls,
                0,
                0,
                leading,
                name,
                args,
                inline,
                0,
                seq![],
            ),
            NodeView::Block { leading, name, args, children, inline } => lemma_read_block_body(
                cfg,
                s,
                ls,
                0,
                0,
                leading,
                name,
                args,
                children,
                0,
                seq![],
            ),
            NodeView::Opaque { leading, header, body, inline } => lemma_read_opaque_body(
                cfg,
                s,
                ls,
                0,
                0,
                leading,
                header,
                body,
                0,
                seq![],
            ),
            _ => 0,
        };
        lemma_tracks_end(s, LexContext::Start, j, ls);
    } else {
        assert(rest.last() == ns.last());
        lemma_occurs_split(s, 0, nt, list_text(cfg, rest, 0).drop_last());
        let j = match first {
            NodeView::Directive { leading, name, args, inline } => lemma_read_directive(
                cfg,
                s,
                ls,
                0,
                0,
                leading,
                name,
                args,
                inline,
                0,
                seq![],
            ),
            NodeView::Block { leading, name, args, children, inline } => lemma_read_block(
                cfg,
                s,
                ls,
                0,
                0,
                leading,
                name,
                args,
                children,
                0,
                seq![],
            ),
            NodeView::Opaque { leading, header, body, inline } => lemma_read_opaque(
                cfg,
                s,
                ls,
                0,
                0,
                leading,
                header,
                body,
                0,
                seq![],
            ),
            _ => 0,
        };
        let k_end = lemma_read_list_cut(
            cfg,
            s,
            ls,
            nt.len() as int,
            j,
            rest,
            0,
            Seq::<NodeView>::empty().push(r0),
        );
        lemma_tracks_end(s, LexContext::Start, k_end, ls);
    }
}

// ---------------------------------------------------------------------------
// Lua blocks
// ---------------------------------------------------------------------------

/// The tokens of a Lua block's header and braces, read by the parser.
proof fn lemma_parse_opaque_tokens(
    s: Seq<char>,
    ls: Seq<Lexeme>,
    ki: int,
    words: Seq<Seq<char>>,
    leading: Seq<Seq<char>>,
    a: int,
    m: int,
    acc: Seq<NodeView>,
)
    requires
        words.len() >= 1,
        0 <= ki,
        ki + words.len() < ls.len(),
        forall|i: int|
            0 <= i < words.len() ==> (#[trigger] ls[ki + i]).kind == word_kind(words[i])
                && token_text(s, ls, ki + i) == words[i],
        atom_text(words[0]),
        is_lua_name(words[0]),
        (a == ki + words.len() && kind_is(ls, a, TokenKind::LBrace)) || (a == ki + words.len() + 1
            && kind_is(ls, ki + words.len(), TokenKind::Newline) && kind_is(
            ls,
            a,
            TokenKind::LBrace,
        )),
        opaque_end(ls, a + 1, 1) == Some(m),
        a + 1 < ls.len(),
    ensures
        parse_nodes_from(s, ls, ki, leading, acc) == parse_nodes_from(
            s,
            ls,
            m + 1,
            seq![],
            acc.push(
                NodeView::Opaque {
                    leading,
                    header: joined(words, seq![' ']),
                    body: s.subrange(ls[a + 1].start, ls[m].start),
                    inline: None,
                },
            ),
        ),
{
    let w = ki + words.len();
    crate::parser::lemma_opaque_end(ls, a + 1, 1);
    assert(ls[ki + 0].kind == TokenKind::Ident);
    assert forall|i: int| ki + 1 <= i < w implies (#[trigger] ls[i]).kind == TokenKind::Ident
        || ls[i].kind == TokenKind::String by {
        assert(ls[ki + (i - ki)].kind == word_kind(words[i - ki]));
    }
    lemma_words_end_exact(ls, ki + 1, w);
    let parts = texts(s, ls, ki, w);
    assert(parts =~= words) by {
        assert forall|i: int| 0 <= i < words.len() implies parts[i] == words[i] by {
            assert(token_text(s, ls, ki + i) == words[i]);
        }
    }
    if a == w + 1 {
        assert(newlines_end(ls, a) == a);
    }
    assert(newlines_end(ls, w) == a);
    assert(comment_at(s, ls, a) == None::<Seq<char>>);
    assert(past_comment(ls, a) == a);
    reveal_strlit(" ");
    assert(" "@ == seq![' ']);
    let node = NodeView::Opaque {
        leading,
        header: joined(words, seq![' ']),
        body: s.subrange(ls[a + 1].start, ls[m].start),
        inline: None,
    };
    assert(parse_statement_at(s, ls, ki, leading) == Ok::<(NodeView, int), ParseFailure>(
        (node, m + 1),
    ));
}

/// Reads a Lua block, with its leading comments, up to its closing brace.
pub proof fn lemma_read_opaque_body(
    cfg: Config,
    s: Seq<char>,
    ls: Seq<Lexeme>,
    o: int,
    k: int,
    leading: Seq<Seq<char>>,
    header: Seq<char>,
    body: Seq<char>,
    d: nat,
    acc: Seq<NodeView>,
) -> (j: int)
    requires
        plain_node(NodeView::Opaque { leading, header, body, inline: None }),
        occurs_at(s, o, node_text(cfg, NodeView::Opaque { leading, header, body, inline: None }, d).drop_last()),
        tracks(s, o, LexContext::Start, k, ls),
    ensures
        tracks(s, o + node_text(cfg, NodeView::Opaque { leading, header, body, inline: None }, d).len() - 1, LexContext::Start, j, ls),
        k < j,
        lexes(s) ==> kind_is(ls, k, TokenKind::Comment) || kind_is(ls, k, TokenKind::Ident),
        lexes(s) ==> parse_nodes_from(s, ls, k, seq![], acc) == parse_nodes_from(
            s,
            ls,
            j,
            seq![],
            acc.push(reread_node(cfg, NodeView::Opaque { leading, header, body, inline: None }, d)),
        ),
{
    let ws = choose|ws: Seq<Seq<char>>|
        {
            &&& ws.len() >= 1
            &&& #[trigger] joined(ws, seq![' ']) == header
            &&& atom_text(ws[0])
            &&& is_lua_name(ws[0])
            &&& words_ok(ws)
        };
    let name = ws[0];
    let args = ws.drop_first();
    assert(seq![name] + args == ws);
    lemma_header_joined(name, args);
    assert(header_text(name, args) == header);
    assert(words_ok(args)) by {
        assert forall|i: int| 0 <= i < args.len() implies word_ok(#[trigger] args[i]) by {
            assert(args[i] == ws[i + 1]);
        }
    }
    let cl = comment_lines(cfg, leading, d);
    let op = opening_text(cfg, header, d);
    let b = opaque_body_text(body);
    let ind = indent_spec(cfg, d);
    assert(node_text(cfg, NodeView::Opaque { leading, header, body, inline: None }, d).drop_last() =~= cl + op + b + seq!['\n'] + ind + seq!['}']);
    lemma_occurs_split(s, o, cl + op + b + seq!['\n'] + ind, seq!['}']);
    lemma_occurs_split(s, o, cl + op + b + seq!['\n'], ind);
    lemma_occurs_split(s, o, cl + op + b, seq!['\n']);
    lemma_occurs_split(s, o, cl + op, b);
    lemma_occurs_split(s, o, cl, op);
    let o1 = o + cl.len();
    let ob = o1 + op.len();
    let on = ob + b.len();
    let e = on + 1 + ind.len();
    let ki = lemma_read_comments(cfg, s, ls, o, k, leading, d, seq![], acc);
    let a = lemma_read_header(cfg, s, ls, o1, ki, name, args, d);
    let pb = ob - 2;
    assert(s[on] == seq!['\n'][0]);
    assert(s[e] == seq!['}'][0]);
    assert forall|i: int| on + 1 <= i < e implies spec_is_whitespace(#[trigger] s[i]) && s[i] != '\n' by {
        assert(s[on + 1 + (i - on - 1)] == ind[i - on - 1]);
    }
    assert forall|i: int| 0 <= i < b.len() implies s[ob + i] == #[trigger] b[i] by {
        assert(s[ob + i] == b[i]);
    }
    assert(plain_node(NodeView::Opaque { leading, header, body, inline: None }));
    lemma_lua_printed(s, ob, b, e);
    assert(blank_end(s, pb + 1) == pb + 1);
    lemma_lex_lua_block(s, pb, e, a, ls);
    if lexes(s) {
        let m = a + 2;
        assert(opaque_end(ls, a + 1, 1) == opaque_end(ls, a + 2, 1));
        assert(opaque_end(ls, m, 1) == Some(m));
        assert(ls[a + 1].start == ob - 1);
        assert(ls[m].start == e);
        let body2 = s.subrange(ob - 1, e);
        assert(body2 =~= seq!['\n'] + b + seq!['\n'] + ind) by {
            assert forall|i: int| 0 <= i < b.len() implies body2[1 + i] == b[i] by {
                assert(s[ob + i] == b[i]);
            }
            assert forall|i: int| 0 <= i < ind.len() implies body2[2 + b.len() + i] == ind[i] by {
                assert(s[on + 1 + i] == ind[i]);
            }
        }
        assert(ls[ki + 0].kind == word_kind(ws[0]));
        assert(kind_is(ls, ki, TokenKind::Ident));
        assert(seq![] + leading == leading);
        lemma_parse_opaque_tokens(s, ls, ki, ws, leading, a, m, acc);
    }
    a + 3
}

/// Steps over a Lua block's braces and the code between them.
proof fn lemma_lex_lua_block(s: Seq<char>, pb: int, e: int, k: int, ls: Seq<Lexeme>)
    requires
        0 <= pb,
        pb + 1 < e < s.len(),
        s[pb] == '{',
        blank_end(s, pb + 1) == pb + 1,
        lua_close(s, pb + 1, LuaMode::Code, 1) == Some(e),
        tracks(s, pb, LexContext::Words(true), k, ls),
    ensures
        tracks(s, e + 1, LexContext::Start, k + 3, ls),
        lexes(s) ==> k + 2 < ls.len() && ls[k] == (Lexeme { kind: TokenKind::LBrace, start: pb, end: pb + 1 })
            && ls[k + 1] == (Lexeme { kind: TokenKind::LuaBody, start: pb + 1, end: e })
            && ls[k + 2] == (Lexeme { kind: TokenKind::RBrace, start: e, end: e + 1 }),
{
    let lb = Lexeme { kind: TokenKind::LBrace, start: pb, end: pb + 1 };
    let bt = Lexeme { kind: TokenKind::LuaBody, start: pb + 1, end: e };
    let rb = Lexeme { kind: TokenKind::RBrace, start: e, end: e + 1 };
    let after = lex_from(s, e + 1, LexContext::Start);
    assert(crate::lexer::lua_resume(s, pb + 1) == e + 1);
    assert(crate::lexer::lua_body_lexemes(pb + 1, e) == seq![bt]);
    assert(lex_from(s, pb, LexContext::Words(true)) == prepend(
        lb,
        crate::lexer::prepend_all(seq![bt], prepend(rb, after)),
    ));
    if lexes(s) {
        let rest = after->Ok_0;
        assert(ls.skip(k) == seq![lb] + (seq![bt] + (seq![rb] + rest)));
        assert(ls.skip(k)[0] == ls[k]);
        assert(ls.skip(k)[1] == ls[k + 1]);
        assert(ls.skip(k)[2] == ls[k + 2]);
        assert(ls.skip(k + 3) =~= ls.skip(k).skip(3));
        assert((seq![lb] + (seq![bt] + (seq![rb] + rest))).skip(3) =~= rest);
    }
}

/// Reads a Lua block, with its leading comments, starting at its first token.
pub proof fn lemma_read_opaque(
    cfg: Config,
    s: Seq<char>,
    ls: Seq<Lexeme>,
    o: int,
    k: int,
    leading: Seq<Seq<char>>,
    header: Seq<char>,
    body: Seq<char>,
    d: nat,
    acc: Seq<NodeView>,
) -> (j: int)
    requires
        plain_node(NodeView::Opaque { leading, header, body, inline: None }),
        occurs_at(s, o, node_text(cfg, NodeView::Opaque { leading, header, body, inline: None }, d)),
        tracks(s, o, LexContext::Start, k, ls),
    ensures
        tracks(s, o + node_text(cfg, NodeView::Opaque { leading, header, body, inline: None }, d).len(), LexContext::Start, j + 1, ls),
        k < j,
        lexes(s) ==> kind_is(ls, j, TokenKind::Newline),
        lexes(s) ==> kind_is(ls, k, TokenKind::Comment) || kind_is(ls, k, TokenKind::Ident),
        lexes(s) ==> parse_nodes_from(s, ls, k, seq![], acc) == parse_nodes_from(
            s,
            ls,
            j,
            seq![],
            acc.push(reread_node(cfg, NodeView::Opaque { leading, header, body, inline: None }, d)),
        ),
{
    let nt = node_text(cfg, NodeView::Opaque { leading, header, body, inline: None }, d);
    let body_text = nt.drop_last();
    assert(nt == body_text + seq!['\n']) by {
        let cl = comment_lines(cfg, leading, d);
        let op = opening_text(cfg, header, d);
        let b = opaque_body_text(body);
        let ind = indent_spec(cfg, d);
        assert(nt =~= (cl + op + b + seq!['\n'] + ind + seq!['}']) + seq!['\n']);
    }
    lemma_occurs_split(s, o, body_text, seq!['\n']);
    assert(s[o + body_text.len()] == seq!['\n'][0]);
    let j = lemma_read_opaque_body(cfg, s, ls, o, k, leading, header, body, d, acc);
    lemma_lex_char(s, o + body_text.len(), LexContext::Start, j, ls);
    j
}

/// Plain nodes that open with a blank line read back, from their text, without it.
pub proof fn lemma_read_printed_blank(cfg: Config, ns: Seq<NodeView>, cut: bool)
    requires
        plain_list(ns),
        ns.len() > 1,
        ns[0] is BlankLine,
        cut ==> !(ns.last() is BlankLine),
    ensures
        parse_spec(
            if cut {
                list_text(cfg, ns, 0).drop_last()
            } else {
                list_text(cfg, ns, 0)
            },
        ) == Ok::<Seq<NodeView>, ParseFailure>(reread_list(cfg, ns.drop_first(), 0)),
{
    let full = list_text(cfg, ns, 0);
    let s = if cut {
        full.drop_last()
    } else {
        full
    };
    let ls = match lex(s) {
        Ok(l) => l,
        Err(_) => seq![],
    };
    assert(ls.skip(0) == ls);
    assert(tracks(s, 0, LexContext::Start, 0, ls));
    let rest = ns.drop_first();
    lemma_plain_rest(ns);
    lemma_cut_split(cfg, ns, 0);
    assert(node_text(cfg, ns[0], 0) == seq!['\n']);
    assert(s[0] == '\n');
    lemma_lex_char(s, 0, LexContext::Start, 0, ls);
    if cut {
        assert(rest.last() == ns.last());
        assert(s =~= seq!['\n'] + list_text(cfg, rest, 0).drop_last());
        lemma_occurs_split(s, 0, seq!['\n'], list_text(cfg, rest, 0).drop_last());
        let k_end = lemma_read_list_cut(cfg, s, ls, 1, 0, rest, 0, seq![]);
        lemma_tracks_end(s, LexContext::Start, k_end, ls);
    } else {
        assert(s == seq!['\n'] + list_text(cfg, rest, 0));
        lemma_occurs_split(s, 0, seq!['\n'], list_text(cfg, rest, 0));
        let e = s.len() as int;
        assert(closes(s, e, e));
        let k_end = lemma_read_list(cfg, s, ls, 1, 0, rest, 0, seq![], e);
        lemma_tracks_end(s, LexContext::Start, k_end, ls);
    }
    assert(Seq::<NodeView>::empty() + reread_list(cfg, rest, 0) == reread_list(cfg, rest, 0));
}

} // verus!
