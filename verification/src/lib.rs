pub mod ast;
pub mod cli;
pub mod config;
pub mod error;
pub mod formatter;
pub mod lexer;
pub mod parser;
pub mod text;

pub use config::Config;
pub use error::FormatError;
pub use error::Span;

use vstd::prelude::*;
use vstd::utf8::encode_utf8;

use crate::ast::nodes_view;
use crate::error::{is_parse_failure, ParseFailure};
use crate::formatter::{format_nodes, lemma_views_height_bound, Formatter};
use crate::lexer::{addressable, lemma_encode_utf8_concat, lemma_encode_utf8_len, lex};
use crate::parser::{
    lemma_lex_ordered, lemma_lexemes_count, lemma_parse_nodes_height, parse_nodes_from, parse_spec,
    Parser,
};
use crate::text::{normalize_chars, normalized, str_chars, string_from_chars};

verus! {

/// The text that `format_str` gives for `s`, or the failure that stops it.
pub open spec fn format_spec(s: Seq<char>, cfg: Config) -> Result<Seq<char>, ParseFailure> {
    match parse_spec(normalized(s)) {
        Ok(nodes) => Ok(format_nodes(cfg, nodes)),
        Err(e) => Err(e),
    }
}

pub fn normalize_line_endings(input: &str) -> (s: String)
    ensures
        s@ == normalized(input@),
{
    let chars = str_chars(input);
    let out = normalize_chars(&chars);
    string_from_chars(&out)
}

/// Normalising line endings never lengthens the UTF-8 encoding.
pub proof fn lemma_normalized_encoding(s: Seq<char>)
    ensures
        encode_utf8(normalized(s)).len() <= encode_utf8(s).len(),
    decreases s.len(),
{
    if s.len() > 0 {
        let k: int = if s[0] == '\r' && s.len() > 1 && s[1] == '\n' {
            2
        } else {
            1
        };
        lemma_normalized_encoding(s.skip(k));
        let head = if s[0] == '\r' {
            seq!['\n']
        } else {
            seq![s[0]]
        };
        assert(normalized(s) == head + normalized(s.skip(k)));
        lemma_encode_utf8_concat(head, normalized(s.skip(k)));
        assert(s == s.take(k) + s.skip(k));
        lemma_encode_utf8_concat(s.take(k), s.skip(k));
        lemma_encode_utf8_len(s.take(k));
        assert(head.drop_first() == Seq::<char>::empty());
        assert(encode_utf8(Seq::<char>::empty()) == Seq::<u8>::empty());
        if k == 2 {
            assert(s.take(2) == seq![s[0]] + seq![s[1]]);
            lemma_encode_utf8_concat(seq![s[0]], seq![s[1]]);
            assert(seq![s[1]].drop_first() == Seq::<char>::empty());
            assert(seq![s[0]].drop_first() == Seq::<char>::empty());
        } else {
            assert(s.take(1) == seq![s[0]]);
            assert(seq![s[0]].drop_first() == Seq::<char>::empty());
        }
    }
}

pub fn format_str(input: &str, config: &Config) -> (r: Result<String, FormatError>)
    requires
        addressable(input@),
    ensures
        match r {
            Ok(out) => format_spec(input@, *config) == Ok::<Seq<char>, ParseFailure>(out@),
            Err(e) => format_spec(input@, *config) matches Err(f) && is_parse_failure(e, f),
        },
{
    let normal = normalize_line_endings(input);
    proof {
        lemma_normalized_encoding(input@);
    }
    let ghost s = normal@;
    let nodes = match Parser::parse(normal.as_str()) {
        Ok(n) => n,
        Err(e) => {
            return Err(e);
        },
    };
    proof {
        let ls = lex(s)->Ok_0;
        lemma_lex_ordered(s, 0, crate::lexer::LexContext::Start);
        lemma_lexemes_count(ls, s.len() as int);
        lemma_encode_utf8_len(s);
        lemma_parse_nodes_height(s, ls, 0, seq![], seq![], 0);
        let views = nodes_view(nodes@);
        assert(parse_nodes_from(s, ls, 0, seq![], seq![]) matches Ok((v, _m)) && v == views);
        lemma_views_height_bound(views, ls.len() as int);
    }
    Ok(Formatter::new(config).format(nodes.as_slice()))
}

} // verus!
pub mod wasm;
pub mod laws;
pub mod roundtrip;
pub mod printed;
pub mod shape;
pub mod embed;
pub mod runs;
