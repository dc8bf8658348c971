//! Runs of newlines in the text the formatter writes: a run of `k` newlines in a
//! row is `k - 1` empty lines.
use vstd::prelude::*;

use crate::ast::NodeView;
use crate::config::{indent_spec, BraceStyle, Config};
use crate::formatter::{comment_line, header_text};
use crate::lexer::{quote_scan, spec_is_atom_char, QuoteEnd};
use crate::printed::{
    blank_runs_within, comment_lines, inline_text, list_text, lua_bodies, lua_bodies_node,
    node_text, opening_text, shaped_list, shaped_node,
};
use crate::roundtrip::{atom_text, comment_text, string_text, word_text};
use crate::text::{ends_with_char, joined};

verus! {

/// How many newlines `t` ends with.
pub open spec fn trailing_newlines(t: Seq<char>) -> nat
    decreases t.len(),
{
    if ends_with_char(t, '\n') {
        trailing_newlines(t.drop_last()) + 1
    } else {
        0
    }
}

/// The longest run of newlines in a row in `t`.
pub open spec fn longest_newline_run(t: Seq<char>) -> nat
    decreases t.len(),
{
    if t.len() == 0 {
        0
    } else {
        let before = longest_newline_run(t.drop_last());
        let here = trailing_newlines(t);
        if before >= here {
            before
        } else {
            here
        }
    }
}

/// No two newlines stand next to each other in `x`.
pub open spec fn single_breaks(x: Seq<char>) -> bool {
    forall|i: int| 0 <= i < x.len() - 1 && x[i] == '\n' ==> #[trigger] x[i + 1] != '\n'
}

/// A piece of a line: it neither starts nor ends with a newline, and holds no
/// two newlines in a row.
pub open spec fn segment(x: Seq<char>) -> bool {
    x.len() == 0 || (x[0] != '\n' && x.last() != '\n' && single_breaks(x))
}

/// Whole lines, none of them empty.
pub open spec fn lines(q: Seq<char>) -> bool {
    q.len() == 0 || (q[0] != '\n' && q.last() == '\n' && single_breaks(q))
}

proof fn lemma_push(t: Seq<char>, c: char)
    ensures
        trailing_newlines(t.push(c)) == if c == '\n' {
            trailing_newlines(t) + 1
        } else {
            0
        },
        longest_newline_run(t.push(c)) == if longest_newline_run(t) >= trailing_newlines(
            t.push(c),
        ) {
            longest_newline_run(t)
        } else {
            trailing_newlines(t.push(c))
        },
{
    assert(t.push(c).drop_last() =~= t);
}

/// Text that starts with no newline and holds no two in a row, after `p`.
proof fn lemma_after_single_breaks(p: Seq<char>, q: Seq<char>)
    requires
        q.len() > 0,
        q[0] != '\n',
        single_breaks(q),
    ensures
        longest_newline_run(p + q) <= if longest_newline_run(p) >= 1 {
            longest_newline_run(p)
        } else {
            1
        },
        trailing_newlines(p + q) == if q.last() == '\n' {
            1nat
        } else {
            0nat
        },
    decreases q.len(),
{
    if q.len() == 1 {
        assert(p + q =~= p.push(q[0]));
        lemma_push(p, q[0]);
    } else {
        let r = q.drop_last();
        assert(r[0] == q[0]);
        assert forall|i: int| 0 <= i < r.len() - 1 && r[i] == '\n' implies #[trigger] r[i + 1]
            != '\n' by {
            assert(q[i] == r[i]);
            assert(q[i + 1] == r[i + 1]);
        }
        lemma_after_single_breaks(p, r);
        assert(p + q =~= (p + r).push(q.last()));
        lemma_push(p + r, q.last());
        if q.last() == '\n' {
            let i = q.len() - 2;
            assert(q[i + 1] == '\n');
            assert(r.last() == q[i]);
        }
    }
}

/// Whole lines after `p` end the text with one newline, and make no run longer
/// than those of `p` or one.
pub proof fn lemma_after_lines(p: Seq<char>, q: Seq<char>)
    requires
        lines(q),
    ensures
        longest_newline_run(p + q) <= if longest_newline_run(p) >= 1 {
            longest_newline_run(p)
        } else {
            1
        },
        q.len() > 0 ==> trailing_newlines(p + q) == 1,
        q.len() == 0 ==> p + q == p,
{
    if q.len() == 0 {
        assert(p + q =~= p);
    } else {
        lemma_after_single_breaks(p, q);
    }
}

/// A newline after `p`.
pub proof fn lemma_after_newline(p: Seq<char>)
    ensures
        trailing_newlines(p + seq!['\n']) == trailing_newlines(p) + 1,
        longest_newline_run(p + seq!['\n']) == if longest_newline_run(p) >= trailing_newlines(p)
            + 1 {
            longest_newline_run(p)
        } else {
            trailing_newlines(p) + 1
        },
{
    assert(p + seq!['\n'] =~= p.push('\n'));
    lemma_push(p, '\n');
}

/// Pieces of a line put together are a piece of a line.
pub proof fn lemma_segment_concat(a: Seq<char>, b: Seq<char>)
    requires
        segment(a),
        segment(b),
    ensures
        segment(a + b),
{
    let c = a + b;
    if a.len() > 0 && b.len() > 0 {
        assert(c[0] == a[0]);
        assert(c.last() == b.last());
        assert forall|i: int| 0 <= i < c.len() - 1 && c[i] == '\n' implies #[trigger] c[i + 1]
            != '\n' by {
            if i < a.len() - 1 {
                assert(c[i] == a[i]);
                assert(c[i + 1] == a[i + 1]);
            } else if i == a.len() - 1 {
                assert(c[i] == a.last());
            } else {
                let j = i - a.len();
                assert(c[i] == b[j]);
                assert(c[i + 1] == b[j + 1]);
            }
        }
    } else if a.len() == 0 {
        assert(c =~= b);
    } else {
        assert(c =~= a);
    }
}

/// Lines put together are lines.
pub proof fn lemma_lines_concat(a: Seq<char>, b: Seq<char>)
    requires
        lines(a),
        lines(b),
    ensures
        lines(a + b),
{
    let c = a + b;
    if a.len() > 0 && b.len() > 0 {
        assert(c[0] == a[0]);
        assert(c.last() == b.last());
        assert forall|i: int| 0 <= i < c.len() - 1 && c[i] == '\n' implies #[trigger] c[i + 1]
            != '\n' by {
            if i < a.len() - 1 {
                assert(c[i] == a[i]);
                assert(c[i + 1] == a[i + 1]);
            } else if i == a.len() - 1 {
                assert(c[i + 1] == b[0]);
            } else {
                let j = i - a.len();
                assert(c[i] == b[j]);
                assert(c[i + 1] == b[j + 1]);
            }
        }
    } else if a.len() == 0 {
        assert(c =~= b);
    } else {
        assert(c =~= a);
    }
}

/// A piece of a line that is not empty, with a newline after it, is a line.
pub proof fn lemma_line(x: Seq<char>)
    requires
        segment(x),
        x.len() > 0,
    ensures
        lines(x + seq!['\n']),
{
    let c = x + seq!['\n'];
    assert(c[0] == x[0]);
    assert(c.last() == '\n');
    assert forall|i: int| 0 <= i < c.len() - 1 && c[i] == '\n' implies #[trigger] c[i + 1]
        != '\n' by {
        assert(c[i] == x[i]);
        if i < x.len() - 1 {
            assert(c[i + 1] == x[i + 1]);
        }
    }
}

/// Text with no newline in it is a piece of a line.
pub proof fn lemma_no_newline_segment(x: Seq<char>)
    requires
        forall|i: int| 0 <= i < x.len() ==> #[trigger] x[i] != '\n',
    ensures
        segment(x),
{
    if x.len() > 0 {
        assert(x.last() == x[x.len() - 1]);
    }
}

/// Dropping a last character never lengthens the longest run.
proof fn lemma_drop_last_runs(t: Seq<char>)
    requires
        t.len() > 0,
    ensures
        longest_newline_run(t.drop_last()) <= longest_newline_run(t),
{
}

/// Dropping trailing newlines never lengthens the longest run.
pub proof fn lemma_without_trailing_runs(t: Seq<char>)
    ensures
        longest_newline_run(crate::formatter::without_trailing_newlines(t))
            <= longest_newline_run(t),
    decreases t.len(),
{
    if ends_with_char(t, '\n') {
        lemma_without_trailing_runs(t.drop_last());
        lemma_drop_last_runs(t);
    }
}


proof fn lemma_indent_segment(cfg: Config, d: nat)
    ensures
        segment(indent_spec(cfg, d)),
{
    lemma_no_newline_segment(indent_spec(cfg, d));
}

proof fn lemma_quote_scan_breaks(t: Seq<char>, i: int, q: char)
    requires
        1 <= i,
        q != '\n',
        quote_scan(t, i, q) == QuoteEnd::Closed(t.len() as int),
    ensures
        i < t.len(),
        t[i] != '\n',
        t.last() == q,
        forall|j: int| i <= j < t.len() - 1 && t[j] == '\n' ==> #[trigger] t[j + 1] != '\n',
    decreases t.len() - i,
{
    if i < t.len() {
        if t[i] == '\\' {
            lemma_quote_scan_breaks(t, i + 2, q);
        } else if t[i] != q && t[i] != '\n' {
            lemma_quote_scan_breaks(t, i + 1, q);
        }
    }
}

/// A word, bare or quoted, is a piece of a line.
proof fn lemma_word_segment(w: Seq<char>)
    requires
        atom_text(w) || string_text(w),
    ensures
        segment(w),
        w.len() > 0,
{
    if atom_text(w) {
        assert forall|i: int| 0 <= i < w.len() implies #[trigger] w[i] != '\n' by {
            assert(spec_is_atom_char(w[i]));
        }
        lemma_no_newline_segment(w);
    } else {
        lemma_quote_scan_breaks(w, 1, w[0]);
    }
}

proof fn lemma_joined_segment(ws: Seq<Seq<char>>)
    requires
        forall|i: int| 0 <= i < ws.len() ==> word_text(#[trigger] ws[i]),
    ensures
        segment(joined(ws, seq![' '])),
    decreases ws.len(),
{
    if ws.len() == 1 {
        lemma_word_segment(ws[0]);
    } else if ws.len() > 1 {
        let init = ws.drop_last();
        assert forall|i: int| 0 <= i < init.len() implies word_text(#[trigger] init[i]) by {
            assert(init[i] == ws[i]);
        }
        lemma_joined_segment(init);
        lemma_word_segment(ws.last());
        lemma_no_newline_segment(seq![' ']);
        lemma_segment_concat(joined(init, seq![' ']), seq![' ']);
        lemma_segment_concat(joined(init, seq![' ']) + seq![' '], ws.last());
    }
}

proof fn lemma_header_segment(name: Seq<char>, args: Seq<Seq<char>>)
    requires
        atom_text(name),
        forall|i: int| 0 <= i < args.len() ==> word_text(#[trigger] args[i]),
    ensures
        segment(header_text(name, args)),
        header_text(name, args).len() > 0,
{
    lemma_word_segment(name);
    if args.len() > 0 {
        lemma_joined_segment(args);
        lemma_no_newline_segment(seq![' ']);
        lemma_segment_concat(name, seq![' ']);
        lemma_segment_concat(name + seq![' '], joined(args, seq![' ']));
    }
}

proof fn lemma_comment_line(cfg: Config, c: Seq<char>, d: nat)
    requires
        comment_text(c),
    ensures
        lines(comment_line(cfg, c, d)),
        comment_line(cfg, c, d).len() > 0,
{
    lemma_indent_segment(cfg, d);
    lemma_no_newline_segment(c);
    lemma_segment_concat(indent_spec(cfg, d), c);
    lemma_line(indent_spec(cfg, d) + c);
}

proof fn lemma_comment_lines(cfg: Config, cs: Seq<Seq<char>>, d: nat)
    requires
        forall|i: int| 0 <= i < cs.len() ==> comment_text(#[trigger] cs[i]),
    ensures
        lines(comment_lines(cfg, cs, d)),
    decreases cs.len(),
{
    if cs.len() > 0 {
        let rest = cs.drop_first();
        assert forall|i: int| 0 <= i < rest.len() implies comment_text(#[trigger] rest[i]) by {
            assert(rest[i] == cs[i + 1]);
        }
        assert(comment_text(cs[0]));
        lemma_comment_line(cfg, cs[0], d);
        lemma_comment_lines(cfg, rest, d);
        lemma_lines_concat(comment_line(cfg, cs[0], d), comment_lines(cfg, rest, d));
    }
}

proof fn lemma_opening_lines(cfg: Config, header: Seq<char>, d: nat)
    requires
        segment(header),
        header.len() > 0,
    ensures
        lines(opening_text(cfg, header, d)),
        opening_text(cfg, header, d).len() > 0,
{
    let ind = indent_spec(cfg, d);
    lemma_indent_segment(cfg, d);
    lemma_segment_concat(ind, header);
    match cfg.brace_style {
        BraceStyle::SameLine => {
            lemma_no_newline_segment(seq![' ', '{']);
            lemma_segment_concat(ind + header, seq![' ', '{']);
            lemma_line(ind + header + seq![' ', '{']);
            assert(opening_text(cfg, header, d) =~= (ind + header + seq![' ', '{']) + seq!['\n']);
        },
        BraceStyle::NextLine => {
            lemma_line(ind + header);
            lemma_no_newline_segment(seq!['{']);
            lemma_segment_concat(ind, seq!['{']);
            lemma_line(ind + seq!['{']);
            lemma_lines_concat((ind + header) + seq!['\n'], (ind + seq!['{']) + seq!['\n']);
            assert(opening_text(cfg, header, d) =~= ((ind + header) + seq!['\n']) + ((ind
                + seq!['{']) + seq!['\n']));
        },
    }
}

proof fn lemma_closing_lines(cfg: Config, d: nat)
    ensures
        lines(indent_spec(cfg, d) + seq!['}', '\n']),
        (indent_spec(cfg, d) + seq!['}', '\n']).len() > 0,
{
    let ind = indent_spec(cfg, d);
    lemma_indent_segment(cfg, d);
    lemma_no_newline_segment(seq!['}']);
    lemma_segment_concat(ind, seq!['}']);
    lemma_line(ind + seq!['}']);
    assert(ind + seq!['}', '\n'] =~= (ind + seq!['}']) + seq!['\n']);
}

/// The text of a directive or comment is whole lines.
proof fn lemma_line_node(cfg: Config, n: NodeView, d: nat)
    requires
        shaped_node(n),
        n is Directive || n is Comment,
    ensures
        lines(node_text(cfg, n, d)),
        node_text(cfg, n, d).len() > 0,
{
    match n {
        NodeView::Directive { leading, name, args, inline } => {
            let ind = indent_spec(cfg, d);
            let h = header_text(name, args);
            let it = inline_text(inline);
            lemma_indent_segment(cfg, d);
            lemma_header_segment(name, args);
            lemma_no_newline_segment(seq![';']);
            if let Some(c) = inline {
                lemma_no_newline_segment(c);
                lemma_no_newline_segment(seq![' ']);
                lemma_segment_concat(seq![' '], c);
            }
            lemma_segment_concat(ind, h);
            lemma_segment_concat(ind + h, seq![';']);
            lemma_segment_concat(ind + h + seq![';'], it);
            let x = ind + h + seq![';'] + it;
            lemma_line(x);
            lemma_comment_lines(cfg, leading, d);
            lemma_lines_concat(comment_lines(cfg, leading, d), x + seq!['\n']);
            assert(node_text(cfg, n, d) =~= comment_lines(cfg, leading, d) + (x + seq!['\n']));
        },
        NodeView::Comment(c) => {
            lemma_comment_line(cfg, c, d);
        },
        _ => {},
    }
}

/// After text whose runs are within one more than the maximum, and that ends
/// with no more newlines than one more than the `c` blank lines just before the
/// nodes, the text of nodes, shaped as parsed, without Lua blocks keeps its runs within one
/// more than the maximum.
pub proof fn lemma_list_runs(cfg: Config, p: Seq<char>, ns: Seq<NodeView>, c: int, d: nat)
    requires
        shaped_list(ns),
        lua_bodies(ns).len() == 0,
        blank_runs_within(ns, c, cfg.max_blank_lines as int),
        0 <= c,
        trailing_newlines(p) <= c + 1,
        longest_newline_run(p) <= cfg.max_blank_lines + 1,
    ensures
        longest_newline_run(p + list_text(cfg, ns, d)) <= cfg.max_blank_lines + 1,
    decreases ns,
{
    let max = cfg.max_blank_lines as int;
    if ns.len() == 0 {
        assert(p + list_text(cfg, ns, d) =~= p);
    } else {
        let n = ns[0];
        let rest = ns.drop_first();
        assert(shaped_node(n));
        assert forall|i: int| 0 <= i < rest.len() implies shaped_node(#[trigger] rest[i]) by {
            assert(rest[i] == ns[i + 1]);
        }
        assert(lua_bodies(ns) == lua_bodies_node(n) + lua_bodies(rest));
        let p2 = p + node_text(cfg, n, d);
        assert(p + list_text(cfg, ns, d) =~= p2 + list_text(cfg, rest, d));
        match n {
            NodeView::BlankLine => {
                assert(blank_runs_within(rest, c + 1, max));
                assert(c + 1 <= max);
                assert(node_text(cfg, n, d) == seq!['\n']);
                lemma_after_newline(p);
                lemma_list_runs(cfg, p2, rest, c + 1, d);
            },
            NodeView::Block { leading, name, args, children, inline } => {
                lemma_comment_lines(cfg, leading, d);
                lemma_header_segment(name, args);
                lemma_opening_lines(cfg, header_text(name, args), d);
                let head = comment_lines(cfg, leading, d) + opening_text(
                    cfg,
                    header_text(name, args),
                    d,
                );
                lemma_lines_concat(
                    comment_lines(cfg, leading, d),
                    opening_text(cfg, header_text(name, args), d),
                );
                lemma_after_lines(p, head);
                lemma_list_runs(cfg, p + head, children, 0, d + 1);
                let inner = p + head + list_text(cfg, children, d + 1);
                let close = indent_spec(cfg, d) + seq!['}', '\n'];
                lemma_closing_lines(cfg, d);
                lemma_after_lines(inner, close);
                assert(p2 =~= inner + close);
                lemma_list_runs(cfg, p2, rest, 0, d);
            },
            NodeView::Opaque { .. } => {
                assert(lua_bodies_node(n).len() == 1);
            },
            _ => {
                lemma_line_node(cfg, n, d);
                lemma_after_lines(p, node_text(cfg, n, d));
                lemma_list_runs(cfg, p2, rest, 0, d);
            },
        }
    }
}

} // verus!
