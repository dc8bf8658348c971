use vstd::prelude::*;

use crate::ast::NodeView;
use crate::config::{overridden, Config};
use crate::cli::flag_pair;
use crate::wasm::web_config;
use crate::lexer::{lua_close, LuaMode};
use crate::error::ParseFailure;
use crate::formatter::{finished, format_nodes, nodes_written, without_trailing_newlines, FmtState};
use crate::lexer::{lex, lex_from, LexContext, Lexeme, TokenKind};
use crate::parser::{
    kind_is, newlines_end, parse_nodes_from, parse_spec, parse_statement_at, past_comment, texts,
    words_end,
};
use crate::ast::is_lua_name;
use crate::text::joined;
use crate::printed::{
    node_text,
    canon_list, lemma_canon_list_idem, lemma_canon_list_plain, lemma_canon_prefix,
    lemma_list_text_ends, lemma_no_cr_list, lemma_trim_blank_tail,
    lemma_reread_canon_list, lemma_reread_list, lemma_without_trailing_newlines_text,
    lemma_written_list, list_text, no_cr, plain_list, plain_node, reread_list, trim_blank_tail,
    blank_runs_within, body_at, lemma_body_in_list_text, lemma_canon_bodies, lemma_canon_concat,
    lemma_canon_lower,
    lemma_canon_drops_inline, lemma_canon_runs, lua_bodies, no_inline_comments,
    drops_what_keeps, lemma_nodes_written_layout, lemma_nodes_written_stripped, same_layout,
    without_inline,
};
use crate::formatter::opaque_body_text;
use crate::roundtrip::occurs_at;
use crate::roundtrip::{
    lemma_plain_rest, lemma_read_printed, lemma_read_printed_blank, lemma_read_printed_cut,
};
use crate::shape::{lemma_lex_shaped, lemma_parse_plain};
use crate::runs::{
    lemma_after_newline, lemma_list_runs, lemma_without_trailing_runs, longest_newline_run,
};
use crate::text::{ends_with_char, normalized};
use crate::format_spec;

verus! {

proof fn lemma_without_trailing_newlines(s: Seq<char>)
    ensures
        !ends_with_char(without_trailing_newlines(s), '\n'),
    decreases s.len(),
{
    if ends_with_char(s, '\n') {
        lemma_without_trailing_newlines(s.drop_last());
    }
}

/// The output ends with a newline exactly when `trailing_newline` is set.
pub proof fn law_trailing_newline(s: Seq<char>, cfg: Config)
    requires
        format_spec(s, cfg) is Ok,
    ensures
        ends_with_char(format_spec(s, cfg)->Ok_0, '\n') == cfg.trailing_newline,
{
    let nodes = crate::parser::parse_spec(normalized(s))->Ok_0;
    let out = crate::formatter::nodes_written(
        cfg,
        crate::formatter::FmtState { out: seq![], blank: 0 },
        nodes,
        0,
    ).out;
    if !cfg.trailing_newline {
        lemma_without_trailing_newlines(out);
    }
}

/// Normalised text holds no carriage return.
pub proof fn law_normalized_has_no_cr(s: Seq<char>)
    ensures
        forall|i: int| 0 <= i < normalized(s).len() ==> normalized(s)[i] != '\r',
    decreases s.len(),
{
    if s.len() > 0 {
        let k: int = if s[0] == '\r' && s.len() > 1 && s[1] == '\n' {
            2
        } else {
            1
        };
        law_normalized_has_no_cr(s.skip(k));
        let head = if s[0] == '\r' {
            seq!['\n']
        } else {
            seq![s[0]]
        };
        assert(normalized(s) == head + normalized(s.skip(k)));
        assert forall|i: int| 0 <= i < normalized(s).len() implies normalized(s)[i] != '\r' by {
            if i > 0 {
                assert(normalized(s)[i] == normalized(s.skip(k))[i - 1]);
            }
        }
    }
}

/// Text without carriage returns is already normalised.
pub proof fn lemma_normalized_identity(s: Seq<char>)
    requires
        forall|i: int| 0 <= i < s.len() ==> s[i] != '\r',
    ensures
        normalized(s) == s,
    decreases s.len(),
{
    if s.len() > 0 {
        lemma_normalized_identity(s.skip(1));
        assert(s == seq![s[0]] + s.skip(1));
    }
}

/// Normalising line endings twice is normalising them once.
pub proof fn law_normalize_idempotent(s: Seq<char>)
    ensures
        normalized(normalized(s)) == normalized(s),
{
    law_normalized_has_no_cr(s);
    lemma_normalized_identity(normalized(s));
}

/// How an input's lines end does not matter: it formats as its normalised form does.
pub proof fn law_line_endings_irrelevant(s: Seq<char>, cfg: Config)
    ensures
        format_spec(s, cfg) == format_spec(normalized(s), cfg),
{
    law_normalize_idempotent(s);
}

/// The nodes that the formatter keeps at the top of its output open with a
/// blank line and hold more than that line: more lines where the output ends
/// with a newline, a line that is not blank where it does not.
pub open spec fn opens_with_blank_line(cfg: Config, nodes: Seq<NodeView>) -> bool {
    let kept = canon_list(cfg, 0, nodes).0;
    &&& kept.len() > 0
    &&& kept[0] is BlankLine
    &&& if cfg.trailing_newline {
        kept.len() > 1
    } else {
        exists|i: int| 0 <= i < kept.len() && !(#[trigger] kept[i] is BlankLine)
    }
}

/// A lone newline parses to no nodes.
proof fn lemma_parse_newline()
    ensures
        parse_spec(seq!['\n']) == Ok::<Seq<NodeView>, ParseFailure>(seq![]),
{
    let s = seq!['\n'];
    let t = Lexeme { kind: TokenKind::Newline, start: 0, end: 1 };
    assert(lex_from(s, 1, LexContext::Start) == Ok::<Seq<Lexeme>, ParseFailure>(seq![]));
    assert(seq![t] + Seq::<Lexeme>::empty() == seq![t]);
    assert(lex(s) == Ok::<Seq<Lexeme>, ParseFailure>(seq![t]));
    let ls = seq![t];
    assert(parse_nodes_from(s, ls, 1, seq![], seq![]) == Ok::<(Seq<NodeView>, int), ParseFailure>(
        (Seq::<NodeView>::empty() + crate::parser::comment_nodes(seq![]), 1),
    ));
    assert(Seq::<NodeView>::empty() + crate::parser::comment_nodes(seq![]) =~= Seq::<
        NodeView,
    >::empty());
}

/// Nodes that the formatter keeps as they are write the same text once read back.
proof fn lemma_same_output(cfg: Config, ns: Seq<NodeView>)
    requires
        plain_list(ns),
        canon_list(cfg, 0, ns).0 == ns,
    ensures
        nodes_written(cfg, FmtState { out: seq![], blank: 0 }, reread_list(cfg, ns, 0), 0).out
            == list_text(cfg, ns, 0),
        format_nodes(cfg, reread_list(cfg, ns, 0)) == finished(cfg, list_text(cfg, ns, 0)),
{
    let empty = FmtState { out: seq![], blank: 0 };
    lemma_reread_list(cfg, ns, 0);
    crate::printed::lemma_plain_shaped(reread_list(cfg, ns, 0));
    lemma_written_list(cfg, empty, reread_list(cfg, ns, 0), 0);
    lemma_reread_canon_list(cfg, 0, ns, 0);
    let t = list_text(cfg, reread_list(cfg, ns, 0), 0);
    assert(Seq::<char>::empty() + t == t);
}

/// What follows a blank line that opens nodes kept as they are is kept as it is.
proof fn lemma_after_opening_blank(cfg: Config, ns: Seq<NodeView>)
    requires
        canon_list(cfg, 0, ns).0 == ns,
        plain_list(ns),
        ns.len() > 1,
        ns[0] is BlankLine,
    ensures
        canon_list(cfg, 0, ns.drop_first()).0 == ns.drop_first(),
        plain_list(ns.drop_first()),
{
    let rest = ns.drop_first();
    lemma_plain_rest(ns);
    lemma_canon_concat(cfg, 0, rest, Seq::<NodeView>::empty());
    lemma_canon_concat(cfg, 1, rest, Seq::<NodeView>::empty());
    assert(rest + Seq::<NodeView>::empty() == rest);
    assert(ns[0] == NodeView::BlankLine);
    let h = crate::printed::canon_node(cfg, 0, ns[0]);
    assert(canon_list(cfg, 0, ns).0 == h.0 + canon_list(cfg, h.1, rest).0);
    if cfg.max_blank_lines == 0 {
        assert(h.0 == Seq::<NodeView>::empty());
        assert(h.1 == 0);
        assert(h.0 + canon_list(cfg, 0, rest).0 == canon_list(cfg, 0, rest).0);
        assert(false);
    }
    assert(h.0 == seq![NodeView::BlankLine]);
    assert(h.1 == 1);
    let t = canon_list(cfg, 1, rest).0;
    assert(canon_list(cfg, 0, ns).0 == seq![NodeView::BlankLine] + t);
    assert(t == (seq![NodeView::BlankLine] + t).drop_first());
    lemma_canon_lower(cfg, 1, 0, rest);
}

/// Formatting is idempotent: for every input that parses, formatting the output
/// again gives it back unchanged, except that a blank line that opens the output
/// and is followed by more does not survive the second pass, which gives the output
/// without its first character.
pub proof fn law_format_idempotent(s: Seq<char>, cfg: Config)
    requires
        parse_spec(normalized(s)) is Ok,
    ensures
        format_spec(s, cfg) is Ok,
        format_spec(format_spec(s, cfg)->Ok_0, cfg) == Ok::<Seq<char>, ParseFailure>(
            if opens_with_blank_line(cfg, parse_spec(normalized(s))->Ok_0) {
                format_spec(s, cfg)->Ok_0.drop_first()
            } else {
                format_spec(s, cfg)->Ok_0
            },
        ),
{
    let ns = normalized(s);
    let tree = parse_spec(ns)->Ok_0;
    let ls = lex(ns)->Ok_0;
    assert(lex_from(ns, 0, LexContext::Start) == Ok::<Seq<Lexeme>, ParseFailure>(ls));
    law_normalized_has_no_cr(s);
    lemma_lex_shaped(ns, 0, LexContext::Start);
    lemma_parse_plain(ns, ls, 0, seq![], seq![]);
    let empty = FmtState { out: seq![], blank: 0 };
    crate::printed::lemma_plain_shaped(tree);
    lemma_written_list(cfg, empty, tree, 0);
    let kept = canon_list(cfg, 0, tree).0;
    let w = list_text(cfg, kept, 0);
    assert(Seq::<char>::empty() + w == w);
    lemma_canon_list_plain(cfg, 0, tree);
    lemma_canon_list_idem(cfg, 0, tree);
    crate::printed::lemma_plain_shaped(kept);
    lemma_written_list(cfg, empty, kept, 0);
    let out = finished(cfg, w);
    assert(format_spec(s, cfg) == Ok::<Seq<char>, ParseFailure>(out));
    assert(format_nodes(cfg, kept) == out);
    lemma_no_cr_list(cfg, kept, 0);
    if cfg.trailing_newline {
        if kept.len() == 0 || (kept.len() == 1 && kept[0] is BlankLine) {
            if kept.len() == 1 {
                crate::printed::lemma_list_text_single(cfg, kept[0], 0);
                assert(kept == seq![kept[0]]);
            }
            assert(out == seq!['\n']);
            lemma_normalized_identity(seq!['\n']);
            lemma_parse_newline();
            assert(nodes_written(cfg, empty, seq![], 0).out == Seq::<char>::empty());
        } else {
            lemma_list_text_ends(cfg, kept, 0);
            assert(out == w);
            lemma_normalized_identity(w);
            if kept[0] is BlankLine {
                let rest = kept.drop_first();
                lemma_after_opening_blank(cfg, kept);
                lemma_read_printed_blank(cfg, kept, false);
                lemma_same_output(cfg, rest);
                lemma_list_text_ends(cfg, rest, 0);
                assert(node_text(cfg, kept[0], 0) == seq!['\n']);
                assert(w == seq!['\n'] + list_text(cfg, rest, 0));
                assert(w.drop_first() == list_text(cfg, rest, 0));
            } else {
                lemma_read_printed(cfg, kept);
                lemma_same_output(cfg, kept);
            }
        }
    } else {
        let core = trim_blank_tail(kept);
        lemma_trim_blank_tail(cfg, kept, 0);
        if core.len() == 0 {
            assert(out == without_trailing_newlines(Seq::<char>::empty()));
            assert(out == Seq::<char>::empty());
            lemma_normalized_identity(out);
            assert(lex_from(out, 0, LexContext::Start) == Ok::<Seq<Lexeme>, ParseFailure>(seq![]));
            assert(parse_nodes_from(out, seq![], 0, seq![], seq![]) == Ok::<
                (Seq<NodeView>, int),
                ParseFailure,
            >((Seq::<NodeView>::empty() + crate::parser::comment_nodes(seq![]), 0)));
            assert(Seq::<NodeView>::empty() + crate::parser::comment_nodes(seq![]) =~= Seq::<
                NodeView,
            >::empty());
            assert(nodes_written(cfg, empty, seq![], 0).out == Seq::<char>::empty());
            if opens_with_blank_line(cfg, tree) {
                let i = choose|i: int| 0 <= i < kept.len() && !(#[trigger] kept[i] is BlankLine);
                assert(false);
            }
        } else {
            assert(core =~= kept.take(core.len() as int));
            assert(!(kept[core.len() - 1] is BlankLine));
            assert(core[0] == kept[0]);
            lemma_canon_prefix(cfg, kept, core.len() as int);
            assert(plain_list(core)) by {
                assert forall|i: int| 0 <= i < core.len() implies plain_node(#[trigger] core[i]) by {
                    assert(core[i] == kept[i]);
                }
                assert forall|i: int, j: int|
                    #![trigger core[i], core[j]]
                    0 <= i < j < core.len() && core[i] is Comment implies core[j] is Comment by {
                    assert(core[i] == kept[i]);
                    assert(core[j] == kept[j]);
                }
            }
            crate::printed::lemma_plain_shaped(core);
            lemma_written_list(cfg, empty, core, 0);
            assert(Seq::<char>::empty() + list_text(cfg, core, 0) == list_text(cfg, core, 0));
            lemma_without_trailing_newlines_text(cfg, core, 0);
            let t = list_text(cfg, core, 0);
            assert(out == t.drop_last());
            lemma_no_cr_list(cfg, core, 0);
            assert(no_cr(t.drop_last())) by {
                assert forall|i: int| 0 <= i < t.drop_last().len() implies #[trigger] t.drop_last()[i]
                    != '\r' by {
                    assert(t.drop_last()[i] == t[i]);
                }
            }
            lemma_normalized_identity(out);
            if kept[0] is BlankLine {
                let rest = core.drop_first();
                assert(core.len() > 1);
                assert(core[core.len() - 1] == kept[core.len() - 1]);
                assert(opens_with_blank_line(cfg, tree)) by {
                    assert(!(kept[core.len() - 1] is BlankLine));
                }
                lemma_after_opening_blank(cfg, core);
                lemma_read_printed_blank(cfg, core, true);
                lemma_same_output(cfg, rest);
                assert(rest.last() == core.last());
                lemma_without_trailing_newlines_text(cfg, rest, 0);
                lemma_list_text_ends(cfg, rest, 0);
                assert(node_text(cfg, core[0], 0) == seq!['\n']);
                assert(t == seq!['\n'] + list_text(cfg, rest, 0));
                assert(out.drop_first() =~= list_text(cfg, rest, 0).drop_last());
            } else {
                lemma_read_printed_cut(cfg, core);
                lemma_same_output(cfg, core);
            }
        }
    }
}

/// The output of an input that parses is the text of the plain nodes that the
/// formatter keeps of its parse.
proof fn lemma_output_is_kept_text(s: Seq<char>, cfg: Config)
    requires
        parse_spec(normalized(s)) is Ok,
    ensures
        plain_list(parse_spec(normalized(s))->Ok_0),
        format_spec(s, cfg) == Ok::<Seq<char>, ParseFailure>(
            finished(cfg, list_text(cfg, canon_list(cfg, 0, parse_spec(normalized(s))->Ok_0).0, 0)),
        ),
{
    let ns = normalized(s);
    let tree = parse_spec(ns)->Ok_0;
    let ls = lex(ns)->Ok_0;
    assert(lex_from(ns, 0, LexContext::Start) == Ok::<Seq<Lexeme>, ParseFailure>(ls));
    law_normalized_has_no_cr(s);
    lemma_lex_shaped(ns, 0, LexContext::Start);
    lemma_parse_plain(ns, ls, 0, seq![], seq![]);
    let empty = FmtState { out: seq![], blank: 0 };
    crate::printed::lemma_plain_shaped(tree);
    lemma_written_list(cfg, empty, tree, 0);
    let w = list_text(cfg, canon_list(cfg, 0, tree).0, 0);
    assert(Seq::<char>::empty() + w == w);
}

/// Inline comments are stripped when they are not kept: the output is the text
/// of nodes none of which, at any depth, carries an inline comment.
pub proof fn law_inline_comments_dropped(s: Seq<char>, cfg: Config)
    requires
        parse_spec(normalized(s)) is Ok,
        !cfg.preserve_inline_comments,
    ensures
        format_spec(s, cfg) == Ok::<Seq<char>, ParseFailure>(
            finished(cfg, list_text(cfg, canon_list(cfg, 0, parse_spec(normalized(s))->Ok_0).0, 0)),
        ),
        no_inline_comments(canon_list(cfg, 0, parse_spec(normalized(s))->Ok_0).0),
{
    lemma_output_is_kept_text(s, cfg);
    lemma_canon_drops_inline(cfg, 0, parse_spec(normalized(s))->Ok_0);
}

/// Blank lines are collapsed: the output is the text of the nodes that the
/// formatter keeps, where a blank line is one empty line, and among them, at any
/// depth, no more than `max_blank_lines` blank lines stand in a row.
pub proof fn law_blank_lines_collapsed(s: Seq<char>, cfg: Config)
    requires
        parse_spec(normalized(s)) is Ok,
    ensures
        format_spec(s, cfg) == Ok::<Seq<char>, ParseFailure>(
            finished(cfg, list_text(cfg, canon_list(cfg, 0, parse_spec(normalized(s))->Ok_0).0, 0)),
        ),
        blank_runs_within(
            canon_list(cfg, 0, parse_spec(normalized(s))->Ok_0).0,
            0,
            cfg.max_blank_lines as int,
        ),
{
    lemma_output_is_kept_text(s, cfg);
    lemma_canon_runs(cfg, 0, 0, parse_spec(normalized(s))->Ok_0);
}

/// Dropping trailing newlines keeps a prefix.
proof fn lemma_without_trailing_newlines_prefix(x: Seq<char>)
    ensures
        without_trailing_newlines(x).len() <= x.len(),
        without_trailing_newlines(x) == x.take(without_trailing_newlines(x).len() as int),
        forall|i: int|
            without_trailing_newlines(x).len() <= i < x.len() ==> #[trigger] x[i] == '\n',
    decreases x.len(),
{
    if ends_with_char(x, '\n') {
        lemma_without_trailing_newlines_prefix(x.drop_last());
        let n = without_trailing_newlines(x).len() as int;
        assert(x.drop_last().take(n) == x.take(n));
        assert forall|i: int| n <= i < x.len() implies #[trigger] x[i] == '\n' by {
            if i < x.len() - 1 {
                assert(x.drop_last()[i] == x[i]);
            }
        }
    } else {
        assert(x.take(x.len() as int) == x);
    }
}

/// `t` stands somewhere in `s`.
pub open spec fn stands_in(s: Seq<char>, t: Seq<char>) -> bool {
    exists|o: int| occurs_at(s, o, t)
}

/// Lua bodies are kept verbatim: the body of every Lua block of the parse, at any
/// depth, stands in the output as it is written (line endings normalised, one
/// leading newline and the trailing whitespace dropped).
pub proof fn law_lua_bodies_kept(s: Seq<char>, cfg: Config)
    requires
        parse_spec(normalized(s)) is Ok,
    ensures
        format_spec(s, cfg) is Ok,
        forall|k: int|
            0 <= k < lua_bodies(parse_spec(normalized(s))->Ok_0).len() ==> #[trigger] stands_in(
                format_spec(s, cfg)->Ok_0,
                opaque_body_text(lua_bodies(parse_spec(normalized(s))->Ok_0)[k]),
            ),
{
    lemma_output_is_kept_text(s, cfg);
    assert forall|k: int| 0 <= k < lua_bodies(parse_spec(normalized(s))->Ok_0).len() implies #[trigger] stands_in(
        format_spec(s, cfg)->Ok_0,
        opaque_body_text(lua_bodies(parse_spec(normalized(s))->Ok_0)[k]),
    ) by {
        let o = lemma_lua_body_offset(s, cfg, k);
    }
}

/// Where the `k`-th Lua body of the parse of `s` stands in the output.
proof fn lemma_lua_body_offset(s: Seq<char>, cfg: Config, k: int) -> (o: int)
    requires
        parse_spec(normalized(s)) is Ok,
        0 <= k < lua_bodies(parse_spec(normalized(s))->Ok_0).len(),
    ensures
        format_spec(s, cfg) is Ok,
        occurs_at(
            format_spec(s, cfg)->Ok_0,
            o,
            opaque_body_text(lua_bodies(parse_spec(normalized(s))->Ok_0)[k]),
        ),
{
    let tree = parse_spec(normalized(s))->Ok_0;
    lemma_output_is_kept_text(s, cfg);
    let kept = canon_list(cfg, 0, tree).0;
    lemma_canon_bodies(cfg, 0, tree);
    let w = list_text(cfg, kept, 0);
    let out = finished(cfg, w);
    lemma_without_trailing_newlines_prefix(w);
    let b = opaque_body_text(lua_bodies(tree)[k]);
    assert(lua_bodies(kept)[k] == lua_bodies(tree)[k]);
    let (o, p) = lemma_body_in_list_text(cfg, kept, 0, k);
    assert(body_at(w, o, p, b));
    if !cfg.trailing_newline {
        assert(w[p] != '\n');
        assert(p < out.len());
    }
    assert forall|i: int| 0 <= i < b.len() implies out[o + i] == #[trigger] b[i] by {
        assert(w[o + i] == b[i]);
        if cfg.trailing_newline && !ends_with_char(w, '\n') {
            assert(out == w.push('\n'));
        }
    }
    assert(occurs_at(out, o, b));
    o
}

/// The output holds no carriage return.
pub proof fn law_output_has_no_cr(s: Seq<char>, cfg: Config)
    requires
        parse_spec(normalized(s)) is Ok,
    ensures
        format_spec(s, cfg) is Ok,
        no_cr(format_spec(s, cfg)->Ok_0),
{
    lemma_output_is_kept_text(s, cfg);
    let tree = parse_spec(normalized(s))->Ok_0;
    lemma_canon_list_plain(cfg, 0, tree);
    let kept = canon_list(cfg, 0, tree).0;
    let w = list_text(cfg, kept, 0);
    lemma_no_cr_list(cfg, kept, 0);
    lemma_without_trailing_newlines_prefix(w);
    let out = finished(cfg, w);
    assert forall|i: int| 0 <= i < out.len() implies #[trigger] out[i] != '\r' by {
        if i < w.len() {
            assert(w[i] != '\r');
        }
        if cfg.trailing_newline && !ends_with_char(w, '\n') {
            assert(out == w.push('\n'));
        }
    }
}

/// Check mode accepts what the formatter wrote: formatting the output gives the
/// output with its line endings normalised, for every input that parses and whose
/// output does not open with a blank line followed by more.
pub proof fn law_check_accepts_formatted_output(s: Seq<char>, cfg: Config)
    requires
        parse_spec(normalized(s)) is Ok,
        !opens_with_blank_line(cfg, parse_spec(normalized(s))->Ok_0),
    ensures
        format_spec(s, cfg) is Ok,
        format_spec(format_spec(s, cfg)->Ok_0, cfg) == Ok::<Seq<char>, ParseFailure>(
            normalized(format_spec(s, cfg)->Ok_0),
        ),
{
    law_format_idempotent(s, cfg);
    law_output_has_no_cr(s, cfg);
    lemma_normalized_identity(format_spec(s, cfg)->Ok_0);
}

/// What the parser gives, at any depth: a statement closed by `{` is a Lua block
/// exactly when its name is a Lua block name (its header the words joined by single
/// spaces) and a block otherwise, a statement closed by `;` is a directive whatever
/// its name, and comments stand as nodes of their own only at the end of a list of
/// nodes (those before a statement are its leading comments); every name is a bare
/// word, every argument a bare or quoted word, every comment a `#` and the rest of
/// its line, and no block carries an inline comment.
pub proof fn law_parse_shape(s: Seq<char>)
    requires
        parse_spec(normalized(s)) is Ok,
    ensures
        plain_list(parse_spec(normalized(s))->Ok_0),
{
    lemma_output_is_kept_text(s, crate::config::default_config());
}


proof fn lemma_newline_pushed(w: Seq<char>)
    ensures
        without_trailing_newlines(w.push('\n')) == without_trailing_newlines(w),
{
    assert(w.push('\n').drop_last() =~= w);
}

/// With `trailing_newline` off, the output is the output with it on, less its
/// trailing newlines; the two options agree on every other field, and on which
/// inputs fail and how.
pub proof fn law_trailing_newline_off(s: Seq<char>, with_nl: Config, without_nl: Config)
    requires
        same_layout(with_nl, without_nl),
        with_nl.trailing_newline,
        !without_nl.trailing_newline,
    ensures
        format_spec(s, without_nl) == match format_spec(s, with_nl) {
            Ok(out) => Ok::<Seq<char>, ParseFailure>(without_trailing_newlines(out)),
            Err(e) => Err(e),
        },
{
    if parse_spec(normalized(s)) is Ok {
        let nodes = parse_spec(normalized(s))->Ok_0;
        let st = FmtState { out: seq![], blank: 0 };
        lemma_nodes_written_layout(with_nl, without_nl, st, nodes, 0);
        let w = nodes_written(with_nl, st, nodes, 0).out;
        if !ends_with_char(w, '\n') {
            lemma_newline_pushed(w);
        }
        assert(format_nodes(without_nl, nodes) == without_trailing_newlines(
            format_nodes(with_nl, nodes),
        ));
    }
}

/// Dropping inline comments is keeping them on nodes that have none: with
/// `preserve_inline_comments` off the formatter writes of any nodes what, with
/// it on and every other option alike, it writes of the same nodes with every
/// inline comment, at any depth, removed.
pub proof fn law_inline_comments_dropped_alike(ns: Seq<NodeView>, dropping: Config, keeping: Config)
    requires
        drops_what_keeps(dropping, keeping),
        dropping.trailing_newline == keeping.trailing_newline,
    ensures
        format_nodes(dropping, ns) == format_nodes(keeping, without_inline(ns)),
{
    lemma_nodes_written_stripped(dropping, keeping, FmtState { out: seq![], blank: 0 }, ns, 0);
}

/// No more than `max_blank_lines` empty lines stand in a row anywhere in the
/// output of an input without Lua blocks: no run of newlines in it is longer than
/// one more than the maximum.
pub proof fn law_blank_line_runs_in_text(s: Seq<char>, cfg: Config)
    requires
        parse_spec(normalized(s)) is Ok,
        lua_bodies(parse_spec(normalized(s))->Ok_0).len() == 0,
    ensures
        format_spec(s, cfg) is Ok,
        longest_newline_run(format_spec(s, cfg)->Ok_0) <= cfg.max_blank_lines + 1,
{
    let tree = parse_spec(normalized(s))->Ok_0;
    lemma_output_is_kept_text(s, cfg);
    let kept = canon_list(cfg, 0, tree).0;
    lemma_canon_runs(cfg, 0, 0, tree);
    crate::printed::lemma_plain_shaped(tree);
    crate::printed::lemma_canon_shaped(cfg, 0, tree);
    lemma_canon_bodies(cfg, 0, tree);
    let w = list_text(cfg, kept, 0);
    lemma_list_runs(cfg, seq![], kept, 0, 0);
    assert(Seq::<char>::empty() + w =~= w);
    if cfg.trailing_newline {
        if !ends_with_char(w, '\n') {
            lemma_after_newline(w);
            assert(w.push('\n') =~= w + seq!['\n']);
        }
    } else {
        lemma_without_trailing_runs(w);
    }
}

/// What the parser makes of each statement, wherever it stands: the words up to
/// the first token that is no word, then, past newlines and at most one comment,
/// a `;` makes a directive of the first word and the rest, whatever its name; a
/// `{` makes a Lua block, whose header is the words joined by single spaces,
/// exactly when the first word names one, and a block of the first word and the
/// rest otherwise; the comments waiting before the statement are its leading
/// comments, in order.
pub proof fn law_statement_kinds(s: Seq<char>, ls: Seq<Lexeme>, k: int, pending: Seq<Seq<char>>)
    requires
        parse_statement_at(s, ls, k, pending) is Ok,
    ensures
        ({
            let node = parse_statement_at(s, ls, k, pending)->Ok_0.0;
            let w = words_end(ls, k + 1);
            let parts = texts(s, ls, k, w);
            let a = past_comment(ls, newlines_end(ls, w));
            &&& kind_is(ls, a, TokenKind::Semicolon) || kind_is(ls, a, TokenKind::LBrace)
            &&& kind_is(ls, a, TokenKind::Semicolon) ==> (node matches NodeView::Directive {
                leading,
                name,
                args,
                ..
            } && leading == pending && name == parts[0] && args == parts.drop_first())
            &&& kind_is(ls, a, TokenKind::LBrace) && is_lua_name(parts[0]) ==> (node matches NodeView::Opaque {
                leading,
                header,
                ..
            } && leading == pending && header == joined(parts, " "@))
            &&& kind_is(ls, a, TokenKind::LBrace) && !is_lua_name(parts[0]) ==> (node matches NodeView::Block {
                leading,
                name,
                args,
                ..
            } && leading == pending && name == parts[0] && args == parts.drop_first())
        }),
{
}

/// The limit on blank lines holds of the formatter's output for the nodes the
/// parser gives of any text, carriage returns included: where no Lua block
/// stands among them, no run of newlines in the output is longer than one more
/// than `max_blank_lines`.
pub proof fn law_parsed_blank_line_runs(s: Seq<char>, cfg: Config)
    requires
        parse_spec(s) is Ok,
        lua_bodies(parse_spec(s)->Ok_0).len() == 0,
    ensures
        longest_newline_run(format_nodes(cfg, parse_spec(s)->Ok_0)) <= cfg.max_blank_lines + 1,
{
    let tree = parse_spec(s)->Ok_0;
    let ls = lex(s)->Ok_0;
    assert(lex_from(s, 0, LexContext::Start) == Ok::<Seq<Lexeme>, ParseFailure>(ls));
    crate::shape::lemma_lex_shaped(s, 0, LexContext::Start);
    crate::shape::lemma_parse_shaped(s, ls, 0, seq![], seq![]);
    let empty = FmtState { out: seq![], blank: 0 };
    lemma_written_list(cfg, empty, tree, 0);
    let kept = canon_list(cfg, 0, tree).0;
    lemma_canon_runs(cfg, 0, 0, tree);
    crate::printed::lemma_canon_shaped(cfg, 0, tree);
    lemma_canon_bodies(cfg, 0, tree);
    let w = list_text(cfg, kept, 0);
    assert(Seq::<char>::empty() + w =~= w);
    lemma_list_runs(cfg, seq![], kept, 0, 0);
    if cfg.trailing_newline {
        if !ends_with_char(w, '\n') {
            lemma_after_newline(w);
            assert(w.push('\n') =~= w + seq!['\n']);
        }
    } else {
        lemma_without_trailing_runs(w);
    }
}

/// Formatting is idempotent, with no exception, for every input whose parse does
/// not open with a blank line: one that opens with a statement or a comment, or
/// that holds nothing.
pub proof fn law_format_idempotent_from_a_statement(s: Seq<char>, cfg: Config)
    requires
        parse_spec(normalized(s)) is Ok,
        parse_spec(normalized(s))->Ok_0.len() == 0 || !(parse_spec(normalized(s))->Ok_0[0] is BlankLine),
    ensures
        format_spec(s, cfg) is Ok,
        format_spec(format_spec(s, cfg)->Ok_0, cfg) == format_spec(s, cfg),
{
    let tree = parse_spec(normalized(s))->Ok_0;
    law_format_idempotent(s, cfg);
    if tree.len() > 0 {
        let h = crate::printed::canon_node(cfg, 0, tree[0]);
        let t = canon_list(cfg, h.1, tree.drop_first());
        assert(canon_list(cfg, 0, tree).0 == h.0 + t.0);
        assert(h.0.len() == 1);
        assert(!(h.0[0] is BlankLine));
        assert((h.0 + t.0)[0] == h.0[0]);
    }
    assert(!opens_with_blank_line(cfg, tree));
}

/// In Lua code a quoted string is passed over whole: opened by one quote
/// character, it is closed only by that same character, so whatever it holds
/// (braces, the other quote) counts for nothing, and the scan for the closing
/// brace goes on after it as if it were not there.
pub proof fn law_lua_quoted_string_skipped(s: Seq<char>, j: int, n: int, d: int)
    requires
        0 <= j,
        0 <= n,
        j + n + 1 < s.len(),
        s[j] == '\'' || s[j] == '"',
        s[j + n + 1] == s[j],
        forall|i: int|
            j < i <= j + n ==> #[trigger] s[i] != s[j] && s[i] != '\\' && s[i] != '\n',
    ensures
        lua_close(s, j, LuaMode::Code, d) == lua_close(s, j + n + 2, LuaMode::Code, d),
{
    let q = s[j];
    assert(lua_close(s, j, LuaMode::Code, d) == lua_close(s, j + 1, LuaMode::Str(q), d));
    lemma_lua_in_string(s, j + 1, j + n + 1, q, d);
}

proof fn lemma_lua_in_string(s: Seq<char>, i: int, e: int, q: char, d: int)
    requires
        0 <= i <= e < s.len(),
        s[e] == q,
        q != '\\',
        q != '\n',
        forall|k: int| i <= k < e ==> #[trigger] s[k] != q && s[k] != '\\' && s[k] != '\n',
    ensures
        lua_close(s, i, LuaMode::Str(q), d) == lua_close(s, e + 1, LuaMode::Code, d),
    decreases e - i,
{
    if i < e {
        assert(s[i] != q && s[i] != '\\' && s[i] != '\n');
        lemma_lua_in_string(s, i + 1, e, q, d);
    }
}

/// A command-line flag given without its negation sets its option, whatever the
/// options file says; its negation alone clears it; given both or neither, the
/// file's value stands.
pub proof fn law_flags_override_file(yes: bool, no: bool, from_file: bool)
    ensures
        yes && !no ==> overridden(from_file, flag_pair(yes, no)) == true,
        !yes && no ==> overridden(from_file, flag_pair(yes, no)) == false,
        yes == no ==> overridden(from_file, flag_pair(yes, no)) == from_file,
{
}

/// The browser entry point formats with the options it is given: asked not to
/// keep inline comments, it gives, for an input that parses, the text of nodes
/// none of which carries an inline comment; asked to keep them, it keeps the
/// inline comment of every directive as the parser gives it.
pub proof fn law_web_inline_comments(
    s: Seq<char>,
    indent_style: Seq<char>,
    indent_width: u8,
    brace_style: Seq<char>,
    max_blank_lines: u8,
    trailing_newline: bool,
)
    requires
        parse_spec(normalized(s)) is Ok,
    ensures
        ({
            let dropping = web_config(
                indent_style,
                indent_width,
                brace_style,
                max_blank_lines,
                trailing_newline,
                false,
            );
            let keeping = web_config(
                indent_style,
                indent_width,
                brace_style,
                max_blank_lines,
                trailing_newline,
                true,
            );
            let tree = parse_spec(normalized(s))->Ok_0;
            &&& format_spec(s, dropping) == Ok::<Seq<char>, ParseFailure>(
                finished(dropping, list_text(dropping, canon_list(dropping, 0, tree).0, 0)),
            )
            &&& no_inline_comments(canon_list(dropping, 0, tree).0)
            &&& canon_list(keeping, 0, tree).0 == canon_list(
                Config { preserve_inline_comments: true, ..dropping },
                0,
                tree,
            ).0
            &&& format_nodes(dropping, tree) == format_nodes(keeping, without_inline(tree))
        }),
{
    let dropping = web_config(
        indent_style,
        indent_width,
        brace_style,
        max_blank_lines,
        trailing_newline,
        false,
    );
    let keeping = web_config(
        indent_style,
        indent_width,
        brace_style,
        max_blank_lines,
        trailing_newline,
        true,
    );
    law_inline_comments_dropped(s, dropping);
    law_inline_comments_dropped_alike(parse_spec(normalized(s))->Ok_0, dropping, keeping);
}

} // verus!
