use vstd::prelude::*;

use crate::ast::{is_lua_name, NodeView};
use crate::config::{indent_spec, BraceStyle, Config};
use crate::formatter::{
    comment_line, comments_written, header_text, node_written, nodes_written, opaque_body_text,
    without_trailing_newlines, FmtState,
};
use crate::roundtrip::{atom_text, comment_text, word_text};
use crate::text::{ends_with_char, joined, normalized, spec_is_whitespace, trimmed_end};
use crate::lexer::{lua_close, LuaMode};

verus! {

// ---------------------------------------------------------------------------
// The text of a tree, node by node
// ---------------------------------------------------------------------------

/// Comments on lines of their own, first to last.
pub open spec fn comment_lines(cfg: Config, cs: Seq<Seq<char>>, d: nat) -> Seq<char>
    decreases cs.len(),
{
    if cs.len() == 0 {
        seq![]
    } else {
        comment_line(cfg, cs[0], d) + comment_lines(cfg, cs.drop_first(), d)
    }
}

/// An inline comment after a semicolon.
pub open spec fn inline_text(c: Option<Seq<char>>) -> Seq<char> {
    match c {
        Some(c) => seq![' '] + c,
        None => seq![],
    }
}

/// The line (or lines) that open a block without an inline comment.
pub open spec fn opening_text(cfg: Config, header: Seq<char>, d: nat) -> Seq<char> {
    match cfg.brace_style {
        BraceStyle::SameLine => indent_spec(cfg, d) + header + seq![' ', '{', '\n'],
        BraceStyle::NextLine => indent_spec(cfg, d) + header + seq!['\n'] + indent_spec(cfg, d)
            + seq!['{', '\n'],
    }
}

/// The text of one node at nesting depth `d`, every part of it written out.
pub open spec fn node_text(cfg: Config, n: NodeView, d: nat) -> Seq<char>
    decreases n,
{
    match n {
        NodeView::Directive { leading, name, args, inline } => comment_lines(cfg, leading, d)
            + indent_spec(cfg, d) + header_text(name, args) + seq![';'] + inline_text(inline)
            + seq!['\n'],
        NodeView::Block { leading, name, args, children, inline } => comment_lines(
            cfg,
            leading,
            d,
        ) + opening_text(cfg, header_text(name, args), d) + list_text(cfg, children, d + 1)
            + indent_spec(cfg, d) + seq!['}', '\n'],
        NodeView::Comment(c) => comment_line(cfg, c, d),
        NodeView::BlankLine => seq!['\n'],
        NodeView::Opaque { leading, header, body, inline } => comment_lines(cfg, leading, d)
            + opening_text(cfg, header, d) + opaque_body_text(body) + seq!['\n'] + indent_spec(
            cfg,
            d,
        ) + seq!['}', '\n'],
    }
}

/// The texts of the nodes, one after the other.
pub open spec fn list_text(cfg: Config, ns: Seq<NodeView>, d: nat) -> Seq<char>
    decreases ns,
{
    if ns.len() == 0 {
        seq![]
    } else {
        node_text(cfg, ns[0], d) + list_text(cfg, ns.drop_first(), d)
    }
}

// ---------------------------------------------------------------------------
// The tree that the formatter actually writes
// ---------------------------------------------------------------------------

/// An inline comment as the configuration keeps it.
pub open spec fn kept_inline(cfg: Config, c: Option<Seq<char>>) -> Option<Seq<char>> {
    if cfg.preserve_inline_comments {
        c
    } else {
        None
    }
}

/// The nodes that stand for `n` in the output, after `b` blank lines in a row,
/// and the count of blank lines in a row after it: blank lines beyond the
/// maximum go, and inline comments go when they are not kept.
pub open spec fn canon_node(cfg: Config, b: int, n: NodeView) -> (Seq<NodeView>, int)
    decreases n,
{
    match n {
        NodeView::Directive { leading, name, args, inline } => (
            seq![NodeView::Directive { leading, name, args, inline: kept_inline(cfg, inline) }],
            0,
        ),
        NodeView::Block { leading, name, args, children, inline } => {
            let r = canon_list(cfg, 0, children);
            (seq![NodeView::Block { leading, name, args, children: r.0, inline }], 0)
        },
        NodeView::Comment(c) => (seq![n], 0),
        NodeView::BlankLine => if b >= cfg.max_blank_lines {
            (seq![], b)
        } else {
            (seq![n], b + 1)
        },
        NodeView::Opaque { .. } => (seq![n], 0),
    }
}

/// The nodes that stand for `ns` in the output, after `b` blank lines in a row,
/// and the count of blank lines in a row at the end.
pub open spec fn canon_list(cfg: Config, b: int, ns: Seq<NodeView>) -> (Seq<NodeView>, int)
    decreases ns,
{
    if ns.len() == 0 {
        (seq![], b)
    } else {
        let h = canon_node(cfg, b, ns[0]);
        let t = canon_list(cfg, h.1, ns.drop_first());
        (h.0 + t.0, t.1)
    }
}

// ---------------------------------------------------------------------------
// Trees that print and read back
// ---------------------------------------------------------------------------

pub open spec fn no_cr(t: Seq<char>) -> bool {
    forall|i: int| 0 <= i < t.len() ==> #[trigger] t[i] != '\r'
}

pub open spec fn comment_ok(t: Seq<char>) -> bool {
    comment_text(t) && no_cr(t)
}

pub open spec fn word_ok(t: Seq<char>) -> bool {
    word_text(t) && no_cr(t)
}

pub open spec fn comments_ok(cs: Seq<Seq<char>>) -> bool {
    forall|i: int| 0 <= i < cs.len() ==> comment_ok(#[trigger] cs[i])
}

pub open spec fn words_ok(ws: Seq<Seq<char>>) -> bool {
    forall|i: int| 0 <= i < ws.len() ==> word_ok(#[trigger] ws[i])
}

/// The body of a Lua block as written: followed by a newline and a closing
/// brace, read as Lua code, that brace is the one that closes it.
pub open spec fn lua_body_ok(b: Seq<char>) -> bool {
    &&& no_cr(b)
    &&& lua_close(b + seq!['\n', '}'], 0, LuaMode::Code, 1) == Some(b.len() + 1int)
}

/// A header of a Lua block: words joined by single spaces, the first a bare Lua name.
pub open spec fn lua_header_ok(header: Seq<char>) -> bool {
    exists|ws: Seq<Seq<char>>|
        {
            &&& ws.len() >= 1
            &&& #[trigger] joined(ws, seq![' ']) == header
            &&& atom_text(ws[0])
            &&& is_lua_name(ws[0])
            &&& words_ok(ws)
        }
}

/// A node as the parser gives it.
pub open spec fn plain_node(n: NodeView) -> bool
    decreases n,
{
    match n {
        NodeView::Directive { leading, name, args, inline } => {
            &&& comments_ok(leading)
            &&& atom_text(name)
            &&& words_ok(args)
            &&& inline matches Some(c) ==> comment_ok(c)
        },
        NodeView::Block { leading, name, args, children, inline } => {
            &&& comments_ok(leading)
            &&& atom_text(name)
            &&& !is_lua_name(name)
            &&& words_ok(args)
            &&& inline is None
            &&& plain_list(children)
        },
        NodeView::Comment(c) => comment_ok(c),
        NodeView::BlankLine => true,
        NodeView::Opaque { leading, header, body, inline } => {
            &&& comments_ok(leading)
            &&& lua_header_ok(header)
            &&& inline is None
            &&& lua_body_ok(opaque_body_text(body))
        },
    }
}

/// Plain nodes, where comment nodes come only at the end.
pub open spec fn plain_list(ns: Seq<NodeView>) -> bool
    decreases ns,
{
    &&& forall|i: int| 0 <= i < ns.len() ==> plain_node(#[trigger] ns[i])
    &&& forall|i: int, j: int|
        #![trigger ns[i], ns[j]]
        0 <= i < j < ns.len() && ns[i] is Comment ==> ns[j] is Comment
}

/// A node whose words, comments and nesting are as the parser gives them,
/// whatever characters its words and comments hold besides newlines.
pub open spec fn shaped_node(n: NodeView) -> bool
    decreases n,
{
    match n {
        NodeView::Directive { leading, name, args, inline } => {
            &&& forall|i: int| 0 <= i < leading.len() ==> comment_text(#[trigger] leading[i])
            &&& atom_text(name)
            &&& forall|i: int| 0 <= i < args.len() ==> word_text(#[trigger] args[i])
            &&& inline matches Some(c) ==> comment_text(c)
        },
        NodeView::Block { leading, name, args, children, inline } => {
            &&& forall|i: int| 0 <= i < leading.len() ==> comment_text(#[trigger] leading[i])
            &&& atom_text(name)
            &&& forall|i: int| 0 <= i < args.len() ==> word_text(#[trigger] args[i])
            &&& inline is None
            &&& shaped_list(children)
        },
        NodeView::Comment(c) => comment_text(c),
        NodeView::Opaque { inline, .. } => inline is None,
        NodeView::BlankLine => true,
    }
}

/// Nodes each shaped as the parser gives them.
pub open spec fn shaped_list(ns: Seq<NodeView>) -> bool
    decreases ns,
{
    forall|i: int| 0 <= i < ns.len() ==> shaped_node(#[trigger] ns[i])
}

proof fn lemma_plain_shaped_node(n: NodeView)
    requires
        plain_node(n),
    ensures
        shaped_node(n),
    decreases n, 1int,
{
    if let NodeView::Block { children, .. } = n {
        lemma_plain_shaped(children);
    }
}

/// Plain nodes are shaped.
pub proof fn lemma_plain_shaped(ns: Seq<NodeView>)
    requires
        plain_list(ns),
    ensures
        shaped_list(ns),
    decreases ns, 0int,
{
    assert forall|i: int| 0 <= i < ns.len() implies shaped_node(#[trigger] ns[i]) by {
        lemma_plain_shaped_node(ns[i]);
    }
}

proof fn lemma_canon_shaped_node(cfg: Config, b: int, n: NodeView)
    requires
        shaped_node(n),
    ensures
        shaped_list(canon_node(cfg, b, n).0),
    decreases n, 1int,
{
    if let NodeView::Block { children, .. } = n {
        lemma_canon_shaped(cfg, 0, children);
    }
}

/// What the formatter keeps of shaped nodes is shaped.
pub proof fn lemma_canon_shaped(cfg: Config, b: int, ns: Seq<NodeView>)
    requires
        shaped_list(ns),
    ensures
        shaped_list(canon_list(cfg, b, ns).0),
    decreases ns, 0int,
{
    if ns.len() > 0 {
        let h = canon_node(cfg, b, ns[0]);
        let rest = ns.drop_first();
        assert(shaped_node(ns[0]));
        assert forall|i: int| 0 <= i < rest.len() implies shaped_node(#[trigger] rest[i]) by {
            assert(rest[i] == ns[i + 1]);
        }
        lemma_canon_shaped_node(cfg, b, ns[0]);
        lemma_canon_shaped(cfg, h.1, rest);
        let t = canon_list(cfg, h.1, rest).0;
        assert forall|i: int| 0 <= i < (h.0 + t).len() implies shaped_node(#[trigger] (h.0 + t)[i]) by {
            if i < h.0.len() {
                assert((h.0 + t)[i] == h.0[i]);
            } else {
                assert((h.0 + t)[i] == t[i - h.0.len()]);
            }
        }
    }
}

// ---------------------------------------------------------------------------
// What the formatter writes is the text of the tree it keeps
// ---------------------------------------------------------------------------

proof fn lemma_comment_lines_last(cfg: Config, cs: Seq<Seq<char>>, d: nat)
    requires
        cs.len() > 0,
    ensures
        comment_lines(cfg, cs, d) == comment_lines(cfg, cs.drop_last(), d) + comment_line(
            cfg,
            cs.last(),
            d,
        ),
    decreases cs.len(),
{
    let line0 = comment_line(cfg, cs[0], d);
    if cs.len() == 1 {
        assert(cs.drop_first().len() == 0);
        assert(cs.drop_last().len() == 0);
        assert(comment_lines(cfg, cs.drop_first(), d) == Seq::<char>::empty());
        assert(comment_lines(cfg, cs.drop_last(), d) == Seq::<char>::empty());
        assert(comment_lines(cfg, cs, d) == line0 + Seq::<char>::empty());
        assert(line0 + Seq::<char>::empty() =~= Seq::<char>::empty() + line0);
    } else {
        lemma_comment_lines_last(cfg, cs.drop_first(), d);
        assert(cs.drop_first().drop_last() == cs.drop_last().drop_first());
        assert(cs.drop_first().last() == cs.last());
        assert(cs.drop_last()[0] == cs[0]);
        let mid = comment_lines(cfg, cs.drop_first().drop_last(), d);
        let last = comment_line(cfg, cs.last(), d);
        assert(comment_lines(cfg, cs, d) == line0 + (mid + last));
        assert(comment_lines(cfg, cs.drop_last(), d) == line0 + mid);
        assert(line0 + (mid + last) =~= (line0 + mid) + last);
    }
}

/// Comments written after some text are that text and their lines.
pub proof fn lemma_comments_written(cfg: Config, out: Seq<char>, cs: Seq<Seq<char>>, d: nat)
    ensures
        comments_written(cfg, out, cs, d) == out + comment_lines(cfg, cs, d),
    decreases cs.len(),
{
    if cs.len() > 0 {
        lemma_comments_written(cfg, out, cs.drop_last(), d);
        lemma_comment_lines_last(cfg, cs, d);
    }
}

/// The text of a node followed by more nodes.
pub proof fn lemma_list_text_cons(cfg: Config, n: NodeView, ns: Seq<NodeView>, d: nat)
    ensures
        list_text(cfg, seq![n] + ns, d) == node_text(cfg, n, d) + list_text(cfg, ns, d),
{
    assert((seq![n] + ns)[0] == n);
    assert((seq![n] + ns).drop_first() == ns);
}

/// The text of a single node.
pub proof fn lemma_list_text_single(cfg: Config, n: NodeView, d: nat)
    ensures
        list_text(cfg, seq![n], d) == node_text(cfg, n, d),
{
    lemma_list_text_cons(cfg, n, seq![], d);
    assert(seq![n] + Seq::<NodeView>::empty() == seq![n]);
    assert(node_text(cfg, n, d) + Seq::<char>::empty() == node_text(cfg, n, d));
}

proof fn lemma_written_directive(
    cfg: Config,
    st: FmtState,
    leading: Seq<Seq<char>>,
    name: Seq<char>,
    args: Seq<Seq<char>>,
    inline: Option<Seq<char>>,
    d: nat,
)
    ensures
        node_written(cfg, st, NodeView::Directive { leading, name, args, inline }, d).out == st.out
            + node_text(
            cfg,
            NodeView::Directive { leading, name, args, inline: kept_inline(cfg, inline) },
            d,
        ),
{
    lemma_comments_written(cfg, st.out, leading, d);
    let x = comments_written(cfg, st.out, leading, d) + indent_spec(cfg, d) + header_text(name, args)
        + seq![';'];
    assert(crate::text::ends_with_char(x, ';'));
    assert(crate::formatter::inline_written(cfg, x, inline) == x + inline_text(
        kept_inline(cfg, inline),
    ));
    let cl = comment_lines(cfg, leading, d);
    let ind = indent_spec(cfg, d);
    let hd = header_text(name, args);
    let it = inline_text(kept_inline(cfg, inline));
    assert((st.out + cl + ind + hd + seq![';'] + it).push('\n') =~= st.out + (cl + ind + hd + seq![
        ';',
    ] + it + seq!['\n']));
}

proof fn lemma_written_block(
    cfg: Config,
    st: FmtState,
    leading: Seq<Seq<char>>,
    name: Seq<char>,
    args: Seq<Seq<char>>,
    children: Seq<NodeView>,
    d: nat,
)
    requires
        shaped_list(children),
    ensures
        node_written(cfg, st, NodeView::Block { leading, name, args, children, inline: None }, d)
            == (FmtState {
            out: st.out + node_text(
                cfg,
                NodeView::Block {
                    leading,
                    name,
                    args,
                    children: canon_list(cfg, 0, children).0,
                    inline: None,
                },
                d,
            ),
            blank: 0,
        }),
    decreases children, 3int,
{
    lemma_comments_written(cfg, st.out, leading, d);
    let opened = crate::formatter::opening_written(
        cfg,
        comments_written(cfg, st.out, leading, d),
        header_text(name, args),
        None,
        d,
    );
    lemma_written_list(cfg, FmtState { out: opened, blank: 0 }, children, d + 1);
    let cl = comment_lines(cfg, leading, d);
    let op = opening_text(cfg, header_text(name, args), d);
    let lt = list_text(cfg, canon_list(cfg, 0, children).0, d + 1);
    let ind = indent_spec(cfg, d);
    assert(opened =~= st.out + cl + op);
    assert(st.out + cl + op + lt + ind + seq!['}', '\n'] =~= st.out + (cl + op + lt + ind + seq![
        '}',
        '\n',
    ]));
}

/// Writing a plain node appends the text of what stands for it in the output.
#[verifier::spinoff_prover]
#[verifier::rlimit(40)]
pub proof fn lemma_written_node(cfg: Config, st: FmtState, n: NodeView, d: nat)
    requires
        shaped_node(n),
    ensures
        node_written(cfg, st, n, d) == (FmtState {
            out: st.out + list_text(cfg, canon_node(cfg, st.blank, n).0, d),
            blank: canon_node(cfg, st.blank, n).1,
        }),
    decreases n, 1int,
{
    let c = canon_node(cfg, st.blank, n).0;
    if c.len() == 1 {
        assert(c == seq![c[0]]);
        lemma_list_text_single(cfg, c[0], d);
    } else {
        assert(c.len() == 0);
    }
    match n {
        NodeView::Directive { leading, name, args, inline } => {
            lemma_written_directive(cfg, st, leading, name, args, inline, d);
        },
        NodeView::Block { leading, name, args, children, inline } => {
            lemma_written_block(cfg, st, leading, name, args, children, d);
        },
        NodeView::BlankLine => {
            assert(st.out.push('\n') =~= st.out + seq!['\n']);
            assert(st.out + Seq::<char>::empty() =~= st.out);
        },
        NodeView::Opaque { leading, header, body, inline } => {
            lemma_comments_written(cfg, st.out, leading, d);
            let cl = comment_lines(cfg, leading, d);
            let op = opening_text(cfg, header, d);
            let bt = opaque_body_text(body);
            let ind = indent_spec(cfg, d);
            let opened = crate::formatter::opening_written(
                cfg,
                comments_written(cfg, st.out, leading, d),
                header,
                inline,
                d,
            );
            assert(opened =~= st.out + cl + op);
            assert(st.out + cl + op + bt + seq!['\n'] + ind + seq!['}', '\n'] =~= st.out + (cl + op
                + bt + seq!['\n'] + ind + seq!['}', '\n']));
        },
        _ => {},
    }
}

/// Writing plain nodes appends the text of what stands for them in the output.
pub proof fn lemma_written_list(cfg: Config, st: FmtState, ns: Seq<NodeView>, d: nat)
    requires
        shaped_list(ns),
    ensures
        nodes_written(cfg, st, ns, d) == (FmtState {
            out: st.out + list_text(cfg, canon_list(cfg, st.blank, ns).0, d),
            blank: canon_list(cfg, st.blank, ns).1,
        }),
    decreases ns, 2int,
{
    if ns.len() > 0 {
        let h = canon_node(cfg, st.blank, ns[0]);
        let st1 = node_written(cfg, st, ns[0], d);
        lemma_written_node(cfg, st, ns[0], d);
        let rest = ns.drop_first();
        assert forall|i: int| 0 <= i < rest.len() implies shaped_node(#[trigger] rest[i]) by {
            assert(rest[i] == ns[i + 1]);
        }
        lemma_written_list(cfg, st1, rest, d);
        let t = canon_list(cfg, h.1, rest);
        if h.0.len() == 0 {
            assert(h.0 + t.0 == t.0);
            assert(list_text(cfg, h.0, d) == Seq::<char>::empty());
            assert(st.out + Seq::<char>::empty() =~= st.out);
        } else {
            assert(h.0 == seq![h.0[0]]);
            lemma_list_text_single(cfg, h.0[0], d);
            lemma_list_text_cons(cfg, h.0[0], t.0, d);
            let a = node_text(cfg, h.0[0], d);
            let b = list_text(cfg, t.0, d);
            assert(st.out + a + b =~= st.out + (a + b));
        }
    }
}

// ---------------------------------------------------------------------------
// What the formatter keeps, kept again, is the same
// ---------------------------------------------------------------------------

proof fn lemma_canon_node_idem(cfg: Config, b: int, n: NodeView)
    ensures
        canon_node(cfg, b, n).0.len() <= 1,
        canon_node(cfg, b, n).0.len() == 0 ==> canon_node(cfg, b, n).1 == b,
        canon_node(cfg, b, n).0.len() == 1 ==> canon_node(cfg, b, canon_node(cfg, b, n).0[0])
            == canon_node(cfg, b, n),
    decreases n, 1int,
{
    if let NodeView::Block { leading, name, args, children, inline } = n {
        lemma_canon_list_idem(cfg, 0, children);
    }
}

/// Keeping what the formatter keeps changes nothing more.
pub proof fn lemma_canon_list_idem(cfg: Config, b: int, ns: Seq<NodeView>)
    ensures
        canon_list(cfg, b, canon_list(cfg, b, ns).0) == canon_list(cfg, b, ns),
    decreases ns, 0int,
{
    if ns.len() > 0 {
        let h = canon_node(cfg, b, ns[0]);
        let rest = ns.drop_first();
        let t = canon_list(cfg, h.1, rest);
        lemma_canon_node_idem(cfg, b, ns[0]);
        lemma_canon_list_idem(cfg, h.1, rest);
        if h.0.len() == 0 {
            assert(h.0 + t.0 == t.0);
        } else {
            let m = h.0[0];
            assert((h.0 + t.0)[0] == m);
            assert((h.0 + t.0).drop_first() == t.0);
        }
    }
}

/// All the nodes of `ns` are comments.
pub open spec fn all_comment_nodes(ns: Seq<NodeView>) -> bool {
    forall|i: int| 0 <= i < ns.len() ==> #[trigger] ns[i] is Comment
}

proof fn lemma_canon_node_plain(cfg: Config, b: int, n: NodeView)
    requires
        plain_node(n),
    ensures
        forall|i: int|
            0 <= i < canon_node(cfg, b, n).0.len() ==> plain_node(#[trigger] canon_node(cfg, b, n).0[i])
                && (canon_node(cfg, b, n).0[i] is Comment <==> n is Comment),
    decreases n, 1int,
{
    if let NodeView::Block { leading, name, args, children, inline } = n {
        lemma_canon_list_plain(cfg, 0, children);
    }
}

/// What the formatter keeps of plain nodes is plain.
pub proof fn lemma_canon_list_plain(cfg: Config, b: int, ns: Seq<NodeView>)
    requires
        plain_list(ns),
    ensures
        plain_list(canon_list(cfg, b, ns).0),
        all_comment_nodes(ns) ==> canon_list(cfg, b, ns).0 == ns,
    decreases ns, 0int,
{
    if ns.len() > 0 {
        let h = canon_node(cfg, b, ns[0]);
        let rest = ns.drop_first();
        let t = canon_list(cfg, h.1, rest);
        let out = h.0 + t.0;
        assert(plain_node(ns[0]));
        assert forall|i: int, j: int|
            #![trigger rest[i], rest[j]]
            0 <= i < j < rest.len() && rest[i] is Comment implies rest[j] is Comment by {
            assert(rest[i] == ns[i + 1] && rest[j] == ns[j + 1]);
        }
        assert forall|i: int| 0 <= i < rest.len() implies plain_node(#[trigger] rest[i]) by {
            assert(rest[i] == ns[i + 1]);
        }
        lemma_canon_node_plain(cfg, b, ns[0]);
        lemma_canon_node_idem(cfg, b, ns[0]);
        lemma_canon_list_plain(cfg, h.1, rest);
        if ns[0] is Comment {
            assert forall|i: int| 0 <= i < rest.len() implies #[trigger] rest[i] is Comment by {
                assert(rest[i] == ns[i + 1]);
            }
            assert(t.0 == rest);
        }
        assert forall|i: int| 0 <= i < out.len() implies plain_node(#[trigger] out[i]) by {
            if i >= h.0.len() {
                assert(out[i] == t.0[i - h.0.len()]);
            }
        }
        assert forall|i: int, j: int|
            #![trigger out[i], out[j]]
            0 <= i < j < out.len() && out[i] is Comment implies out[j] is Comment by {
            if i >= h.0.len() {
                assert(out[i] == t.0[i - h.0.len()]);
                assert(out[j] == t.0[j - h.0.len()]);
            } else {
                assert(out[j] == t.0[j - h.0.len()]);
                assert(rest[j - 1] is Comment);
            }
        }
        if all_comment_nodes(ns) {
            assert(ns[0] is Comment);
            assert(out =~= ns);
        }
    }
}

// ---------------------------------------------------------------------------
// Facts about the printed text
// ---------------------------------------------------------------------------

proof fn lemma_no_cr_concat(a: Seq<char>, b: Seq<char>)
    requires
        no_cr(a),
        no_cr(b),
    ensures
        no_cr(a + b),
{
    assert forall|i: int| 0 <= i < (a + b).len() implies #[trigger] (a + b)[i] != '\r' by {
        if i < a.len() {
            assert((a + b)[i] == a[i]);
        } else {
            assert((a + b)[i] == b[i - a.len()]);
        }
    }
}

proof fn lemma_no_cr_indent(cfg: Config, d: nat)
    ensures
        no_cr(indent_spec(cfg, d)),
{
}

proof fn lemma_no_cr_joined(ws: Seq<Seq<char>>)
    requires
        words_ok(ws),
    ensures
        no_cr(joined(ws, seq![' '])),
    decreases ws.len(),
{
    assert(no_cr(seq![' '])) by {
        assert(seq![' '][0] == ' ');
    }
    if ws.len() == 1 {
        assert(word_ok(ws[0]));
    } else if ws.len() > 1 {
        let init = ws.drop_last();
        assert forall|i: int| 0 <= i < init.len() implies word_ok(#[trigger] init[i]) by {
            assert(init[i] == ws[i]);
        }
        lemma_no_cr_joined(init);
        assert(word_ok(ws[ws.len() - 1]));
        lemma_no_cr_concat(joined(init, seq![' ']), seq![' ']);
        lemma_no_cr_concat(joined(init, seq![' ']) + seq![' '], ws.last());
    }
}

proof fn lemma_no_cr_header(name: Seq<char>, args: Seq<Seq<char>>)
    requires
        atom_text(name),
        words_ok(args),
    ensures
        no_cr(header_text(name, args)),
{
    assert forall|i: int| 0 <= i < name.len() implies #[trigger] name[i] != '\r' by {
        assert(crate::lexer::spec_is_atom_char(name[i]));
    }
    if args.len() > 0 {
        lemma_no_cr_joined(args);
        assert(no_cr(seq![' '])) by {
            assert(seq![' '][0] == ' ');
        }
        lemma_no_cr_concat(name, seq![' ']);
        lemma_no_cr_concat(name + seq![' '], joined(args, seq![' ']));
    }
}

proof fn lemma_no_cr_comment_lines(cfg: Config, cs: Seq<Seq<char>>, d: nat)
    requires
        comments_ok(cs),
    ensures
        no_cr(comment_lines(cfg, cs, d)),
    decreases cs.len(),
{
    if cs.len() > 0 {
        let rest = cs.drop_first();
        assert forall|i: int| 0 <= i < rest.len() implies comment_ok(#[trigger] rest[i]) by {
            assert(rest[i] == cs[i + 1]);
        }
        lemma_no_cr_comment_lines(cfg, rest, d);
        assert(comment_ok(cs[0]));
        lemma_no_cr_indent(cfg, d);
        lemma_no_cr_concat(indent_spec(cfg, d), cs[0]);
        assert(no_cr(seq!['\n'])) by {
            assert(seq!['\n'][0] == '\n');
        }
        lemma_no_cr_concat(indent_spec(cfg, d) + cs[0], seq!['\n']);
        assert(no_cr(Seq::<char>::empty()));
        lemma_no_cr_concat(indent_spec(cfg, d) + cs[0], Seq::<char>::empty());
        lemma_no_cr_concat(comment_line(cfg, cs[0], d), comment_lines(cfg, rest, d));
    }
}

proof fn lemma_no_cr_lit2(a: char, b: char)
    requires
        a != '\r',
        b != '\r',
    ensures
        no_cr(seq![a, b]),
        no_cr(seq![a]),
{
    assert(seq![a, b][0] == a && seq![a, b][1] == b);
    assert(seq![a][0] == a);
}

proof fn lemma_no_cr_node(cfg: Config, n: NodeView, d: nat)
    requires
        plain_node(n),
    ensures
        no_cr(node_text(cfg, n, d)),
    decreases n, 1int,
{
    lemma_no_cr_lit2(';', '\n');
    lemma_no_cr_lit2('}', '\n');
    lemma_no_cr_lit2('{', '\n');
    lemma_no_cr_lit2('\n', '\n');
    lemma_no_cr_indent(cfg, d);
    assert(no_cr(seq![' ', '{', '\n'])) by {
        assert(seq![' ', '{', '\n'][0] == ' ' && seq![' ', '{', '\n'][1] == '{' && seq![
            ' ',
            '{',
            '\n',
        ][2] == '\n');
    }
    match n {
        NodeView::Directive { leading, name, args, inline } => {
            lemma_no_cr_comment_lines(cfg, leading, d);
            lemma_no_cr_header(name, args);
            let cl = comment_lines(cfg, leading, d);
            let ind = indent_spec(cfg, d);
            let hd = header_text(name, args);
            let it = inline_text(inline);
            assert(no_cr(it)) by {
                if let Some(c) = inline {
                    lemma_no_cr_lit2(' ', ' ');
                    lemma_no_cr_concat(seq![' '], c);
                }
            }
            lemma_no_cr_concat(cl, ind);
            lemma_no_cr_concat(cl + ind, hd);
            lemma_no_cr_concat(cl + ind + hd, seq![';']);
            lemma_no_cr_concat(cl + ind + hd + seq![';'], it);
            lemma_no_cr_concat(cl + ind + hd + seq![';'] + it, seq!['\n']);
        },
        NodeView::Block { leading, name, args, children, inline } => {
            lemma_no_cr_comment_lines(cfg, leading, d);
            lemma_no_cr_header(name, args);
            lemma_no_cr_list(cfg, children, d + 1);
            let cl = comment_lines(cfg, leading, d);
            let ind = indent_spec(cfg, d);
            let hd = header_text(name, args);
            let op = opening_text(cfg, hd, d);
            assert(no_cr(op)) by {
                lemma_no_cr_concat(ind, hd);
                lemma_no_cr_concat(ind + hd, seq![' ', '{', '\n']);
                lemma_no_cr_concat(ind + hd, seq!['\n']);
                lemma_no_cr_concat(ind + hd + seq!['\n'], ind);
                lemma_no_cr_concat(ind + hd + seq!['\n'] + ind, seq!['{', '\n']);
            }
            let lt = list_text(cfg, children, d + 1);
            lemma_no_cr_concat(cl, op);
            lemma_no_cr_concat(cl + op, lt);
            lemma_no_cr_concat(cl + op + lt, ind);
            lemma_no_cr_concat(cl + op + lt + ind, seq!['}', '\n']);
        },
        NodeView::Comment(c) => {
            lemma_no_cr_concat(indent_spec(cfg, d), c);
            lemma_no_cr_concat(indent_spec(cfg, d) + c, seq!['\n']);
            assert(no_cr(Seq::<char>::empty()));
            lemma_no_cr_concat(indent_spec(cfg, d) + c, Seq::<char>::empty());
        },
        NodeView::Opaque { leading, header, body, inline } => {
            lemma_no_cr_comment_lines(cfg, leading, d);
            let ws = choose|ws: Seq<Seq<char>>|
                {
                    &&& ws.len() >= 1
                    &&& #[trigger] joined(ws, seq![' ']) == header
                    &&& atom_text(ws[0])
                    &&& is_lua_name(ws[0])
                    &&& words_ok(ws)
                };
            lemma_no_cr_joined(ws);
            let cl = comment_lines(cfg, leading, d);
            let ind = indent_spec(cfg, d);
            let op = opening_text(cfg, header, d);
            assert(no_cr(op)) by {
                lemma_no_cr_concat(ind, header);
                lemma_no_cr_concat(ind + header, seq![' ', '{', '\n']);
                lemma_no_cr_concat(ind + header, seq!['\n']);
                lemma_no_cr_concat(ind + header + seq!['\n'], ind);
                lemma_no_cr_concat(ind + header + seq!['\n'] + ind, seq!['{', '\n']);
            }
            let bt = opaque_body_text(body);
            lemma_no_cr_concat(cl, op);
            lemma_no_cr_concat(cl + op, bt);
            lemma_no_cr_concat(cl + op + bt, seq!['\n']);
            lemma_no_cr_concat(cl + op + bt + seq!['\n'], ind);
            lemma_no_cr_concat(cl + op + bt + seq!['\n'] + ind, seq!['}', '\n']);
        },
        _ => {},
    }
}

/// The text of plain nodes holds no carriage return.
pub proof fn lemma_no_cr_list(cfg: Config, ns: Seq<NodeView>, d: nat)
    requires
        plain_list(ns),
    ensures
        no_cr(list_text(cfg, ns, d)),
    decreases ns, 0int,
{
    if ns.len() > 0 {
        let rest = ns.drop_first();
        assert(plain_list(rest)) by {
            assert forall|i: int| 0 <= i < rest.len() implies plain_node(#[trigger] rest[i]) by {
                assert(rest[i] == ns[i + 1]);
            }
            assert forall|i: int, j: int|
                #![trigger rest[i], rest[j]]
                0 <= i < j < rest.len() && rest[i] is Comment implies rest[j] is Comment by {
                assert(rest[i] == ns[i + 1]);
                assert(rest[j] == ns[j + 1]);
            }
        }
        lemma_no_cr_node(cfg, ns[0], d);
        lemma_no_cr_list(cfg, rest, d);
        lemma_no_cr_concat(node_text(cfg, ns[0], d), list_text(cfg, rest, d));
    }
}

/// The text of nodes ends with a newline when there are any.
pub proof fn lemma_list_text_ends(cfg: Config, ns: Seq<NodeView>, d: nat)
    requires
        ns.len() > 0,
    ensures
        ends_with_char(list_text(cfg, ns, d), '\n'),
    decreases ns.len(),
{
    let nt = node_text(cfg, ns[0], d);
    let rest = ns.drop_first();
    assert(ends_with_char(nt, '\n')) by {
        match ns[0] {
            NodeView::Comment(c) => {
                let ind = indent_spec(cfg, d);
                if ends_with_char(c, '\n') {
                    assert((ind + c).last() == c.last());
                    assert(ind + c + Seq::<char>::empty() == ind + c);
                }
            },
            _ => {},
        }
    }
    if rest.len() == 0 {
        assert(list_text(cfg, rest, d) == Seq::<char>::empty());
        assert(nt + Seq::<char>::empty() == nt);
    } else {
        lemma_list_text_ends(cfg, rest, d);
        let lt = list_text(cfg, rest, d);
        assert((nt + lt).last() == lt.last());
    }
}

// ---------------------------------------------------------------------------
// Output without its trailing newlines
// ---------------------------------------------------------------------------

/// The nodes without the blank lines that end them.
pub open spec fn trim_blank_tail(ns: Seq<NodeView>) -> Seq<NodeView>
    decreases ns.len(),
{
    if ns.len() > 0 && ns.last() is BlankLine {
        trim_blank_tail(ns.drop_last())
    } else {
        ns
    }
}

/// The text of nodes followed by one more node.
pub proof fn lemma_list_text_push(cfg: Config, ns: Seq<NodeView>, n: NodeView, d: nat)
    ensures
        list_text(cfg, ns.push(n), d) == list_text(cfg, ns, d) + node_text(cfg, n, d),
    decreases ns.len(),
{
    if ns.len() == 0 {
        assert(ns.push(n) == seq![n]);
        lemma_list_text_single(cfg, n, d);
        assert(Seq::<char>::empty() + node_text(cfg, n, d) == node_text(cfg, n, d));
    } else {
        lemma_list_text_push(cfg, ns.drop_first(), n, d);
        assert(ns.push(n)[0] == ns[0]);
        assert(ns.push(n).drop_first() == ns.drop_first().push(n));
        let a = node_text(cfg, ns[0], d);
        let b = list_text(cfg, ns.drop_first(), d);
        assert(a + (b + node_text(cfg, n, d)) =~= (a + b) + node_text(cfg, n, d));
    }
}

/// Trailing blank lines add only newlines, which the end of the output drops.
pub proof fn lemma_trim_blank_tail(cfg: Config, ns: Seq<NodeView>, d: nat)
    ensures
        without_trailing_newlines(list_text(cfg, ns, d)) == without_trailing_newlines(
            list_text(cfg, trim_blank_tail(ns), d),
        ),
        trim_blank_tail(ns).len() <= ns.len(),
        forall|i: int| 0 <= i < trim_blank_tail(ns).len() ==> #[trigger] trim_blank_tail(ns)[i] == ns[i],
        trim_blank_tail(ns).len() > 0 ==> !(trim_blank_tail(ns).last() is BlankLine),
        (exists|i: int| 0 <= i < ns.len() && !(#[trigger] ns[i] is BlankLine)) ==> trim_blank_tail(
            ns,
        ).len() > 0,
    decreases ns.len(),
{
    if ns.len() > 0 && ns.last() is BlankLine {
        let init = ns.drop_last();
        lemma_trim_blank_tail(cfg, init, d);
        assert(ns == init.push(NodeView::BlankLine));
        lemma_list_text_push(cfg, init, NodeView::BlankLine, d);
        let x = list_text(cfg, init, d);
        assert((x + seq!['\n']).drop_last() == x);
        assert(ends_with_char(x + seq!['\n'], '\n'));
        if exists|i: int| 0 <= i < ns.len() && !(#[trigger] ns[i] is BlankLine) {
            let i = choose|i: int| 0 <= i < ns.len() && !(#[trigger] ns[i] is BlankLine);
            assert(i < init.len());
            assert(init[i] == ns[i]);
        }
    }
}

/// The last two characters of a node's text: a newline after something else.
proof fn lemma_node_text_end(cfg: Config, n: NodeView, d: nat)
    requires
        plain_node(n),
        !(n is BlankLine),
    ensures
        node_text(cfg, n, d).len() >= 2,
        node_text(cfg, n, d).last() == '\n',
        node_text(cfg, n, d)[node_text(cfg, n, d).len() - 2] != '\n',
{
    let nt = node_text(cfg, n, d);
    match n {
        NodeView::Directive { leading, name, args, inline } => {
            let x = comment_lines(cfg, leading, d) + indent_spec(cfg, d) + header_text(name, args)
                + seq![';'];
            match inline {
                Some(c) => {
                    assert(comment_ok(c));
                    let y = x + (seq![' '] + c);
                    assert(nt == y + seq!['\n']);
                    assert(y.last() == c.last());
                    assert(c[c.len() - 1] != '\n');
                },
                None => {
                    assert(nt == x + Seq::<char>::empty() + seq!['\n']);
                    assert((x + Seq::<char>::empty()).last() == ';');
                },
            }
        },
        NodeView::Comment(c) => {
            assert(comment_ok(c));
            assert(c[c.len() - 1] != '\n');
            assert(!ends_with_char(c, '\n'));
            assert(nt == indent_spec(cfg, d) + c + seq!['\n']);
            assert((indent_spec(cfg, d) + c).last() == c.last());
        },
        _ => {},
    }
}

/// Without its trailing newlines, the text of nodes that end in no blank line
/// loses just its last newline.
pub proof fn lemma_without_trailing_newlines_text(cfg: Config, ns: Seq<NodeView>, d: nat)
    requires
        plain_list(ns),
        ns.len() > 0,
        !(ns.last() is BlankLine),
    ensures
        without_trailing_newlines(list_text(cfg, ns, d)) == list_text(cfg, ns, d).drop_last(),
{
    let init = ns.drop_last();
    let last = ns.last();
    assert(ns == init.push(last));
    lemma_list_text_push(cfg, init, last, d);
    assert(plain_node(last));
    lemma_node_text_end(cfg, last, d);
    let x = list_text(cfg, init, d);
    let nt = node_text(cfg, last, d);
    let t = x + nt;
    assert(t.last() == '\n');
    assert(t.drop_last().last() == nt[nt.len() - 2]);
    assert(!ends_with_char(t.drop_last(), '\n'));
    assert(without_trailing_newlines(t.drop_last()) == t.drop_last());
}

/// What the formatter keeps of nodes one after the other.
pub proof fn lemma_canon_concat(cfg: Config, b: int, x: Seq<NodeView>, y: Seq<NodeView>)
    ensures
        canon_list(cfg, b, x + y) == (
            canon_list(cfg, b, x).0 + canon_list(cfg, canon_list(cfg, b, x).1, y).0,
            canon_list(cfg, canon_list(cfg, b, x).1, y).1,
        ),
        canon_list(cfg, b, x).0.len() <= x.len(),
    decreases x.len(),
{
    if x.len() == 0 {
        assert(x + y == y);
        assert(Seq::<NodeView>::empty() + canon_list(cfg, b, y).0 == canon_list(cfg, b, y).0);
    } else {
        let h = canon_node(cfg, b, x[0]);
        lemma_canon_node_idem(cfg, b, x[0]);
        lemma_canon_concat(cfg, h.1, x.drop_first(), y);
        assert((x + y)[0] == x[0]);
        assert((x + y).drop_first() == x.drop_first() + y);
        let c = canon_list(cfg, h.1, x.drop_first());
        let z = canon_list(cfg, c.1, y);
        assert(h.0 + (c.0 + z.0) =~= (h.0 + c.0) + z.0);
    }
}

/// A prefix of what the formatter keeps is kept as it is.
pub proof fn lemma_canon_prefix(cfg: Config, ns: Seq<NodeView>, n: int)
    requires
        canon_list(cfg, 0, ns).0 == ns,
        0 <= n <= ns.len(),
    ensures
        canon_list(cfg, 0, ns.take(n)).0 == ns.take(n),
{
    let x = ns.take(n);
    let y = ns.skip(n);
    assert(x + y == ns);
    lemma_canon_concat(cfg, 0, x, y);
    let cx = canon_list(cfg, 0, x);
    lemma_canon_concat(cfg, cx.1, y, Seq::<NodeView>::empty());
    assert(y + Seq::<NodeView>::empty() == y);
    let cy = canon_list(cfg, cx.1, y);
    assert(cy.0 + canon_list(cfg, cy.1, Seq::<NodeView>::empty()).0 == cy.0);
    assert(cx.0 + cy.0 == ns);
    assert(cx.0.len() == x.len());
    assert(cx.0 =~= (cx.0 + cy.0).take(x.len() as int));
}

// ---------------------------------------------------------------------------
// The tree that the text of a tree reads back as
// ---------------------------------------------------------------------------

/// A node as it reads back from its own text at depth `d`: the body of a Lua
/// block becomes what stands between its braces in that text.
pub open spec fn reread_node(cfg: Config, n: NodeView, d: nat) -> NodeView
    decreases n,
{
    match n {
        NodeView::Block { leading, name, args, children, inline } => NodeView::Block {
            leading,
            name,
            args,
            children: reread_list(cfg, children, d + 1),
            inline,
        },
        NodeView::Opaque { leading, header, body, inline } => NodeView::Opaque {
            leading,
            header,
            body: seq!['\n'] + opaque_body_text(body) + seq!['\n'] + indent_spec(cfg, d),
            inline,
        },
        _ => n,
    }
}

/// Nodes as they read back from their own text at depth `d`.
pub open spec fn reread_list(cfg: Config, ns: Seq<NodeView>, d: nat) -> Seq<NodeView>
    decreases ns,
{
    if ns.len() == 0 {
        seq![]
    } else {
        seq![reread_node(cfg, ns[0], d)] + reread_list(cfg, ns.drop_first(), d)
    }
}

pub proof fn lemma_reread_index(cfg: Config, ns: Seq<NodeView>, d: nat)
    ensures
        reread_list(cfg, ns, d).len() == ns.len(),
        forall|i: int|
            0 <= i < ns.len() ==> #[trigger] reread_list(cfg, ns, d)[i] == reread_node(cfg, ns[i], d),
    decreases ns.len(),
{
    if ns.len() > 0 {
        lemma_reread_index(cfg, ns.drop_first(), d);
        assert forall|i: int| 0 <= i < ns.len() implies #[trigger] reread_list(cfg, ns, d)[i]
            == reread_node(cfg, ns[i], d) by {
            if i > 0 {
                assert(reread_list(cfg, ns, d)[i] == reread_list(cfg, ns.drop_first(), d)[i - 1]);
                assert(ns.drop_first()[i - 1] == ns[i]);
            }
        }
    }
}

proof fn lemma_trimmed_idem(x: Seq<char>)
    ensures
        trimmed_end(trimmed_end(x)) == trimmed_end(x),
    decreases x.len(),
{
    if x.len() > 0 && spec_is_whitespace(x.last()) {
        lemma_trimmed_idem(x.drop_last());
    }
}

proof fn lemma_trimmed_ws_suffix(x: Seq<char>, w: Seq<char>)
    requires
        forall|i: int| 0 <= i < w.len() ==> spec_is_whitespace(#[trigger] w[i]),
    ensures
        trimmed_end(x + w) == trimmed_end(x),
    decreases w.len(),
{
    if w.len() == 0 {
        assert(x + w == x);
    } else {
        assert((x + w).last() == w[w.len() - 1]);
        assert((x + w).drop_last() == x + w.drop_last());
        lemma_trimmed_ws_suffix(x, w.drop_last());
    }
}

/// The body of a Lua block as it reads back writes as the body did.
proof fn lemma_reread_body(cfg: Config, body: Seq<char>, d: nat)
    requires
        lua_body_ok(opaque_body_text(body)),
    ensures
        opaque_body_text(seq!['\n'] + opaque_body_text(body) + seq!['\n'] + indent_spec(cfg, d))
            == opaque_body_text(body),
{
    let b = opaque_body_text(body);
    let ind = indent_spec(cfg, d);
    let x = seq!['\n'] + b + seq!['\n'] + ind;
    lemma_no_cr_indent(cfg, d);
    assert(no_cr(seq!['\n'])) by {
        assert(seq!['\n'][0] == '\n');
    }
    lemma_no_cr_concat(seq!['\n'], b);
    lemma_no_cr_concat(seq!['\n'] + b, seq!['\n']);
    lemma_no_cr_concat(seq!['\n'] + b + seq!['\n'], ind);
    crate::laws::lemma_normalized_identity(x);
    assert(x[0] == '\n');
    assert(x.drop_first() =~= b + (seq!['\n'] + ind));
    let w = seq!['\n'] + ind;
    assert forall|i: int| 0 <= i < w.len() implies spec_is_whitespace(#[trigger] w[i]) by {
        if i > 0 {
            assert(w[i] == ind[i - 1]);
        }
    }
    lemma_trimmed_ws_suffix(b, w);
    lemma_trimmed_idem(
        if normalized(body).len() > 0 && normalized(body)[0] == '\n' {
            normalized(body).drop_first()
        } else {
            normalized(body)
        },
    );
}

proof fn lemma_reread_node(cfg: Config, n: NodeView, d: nat)
    requires
        plain_node(n),
    ensures
        plain_node(reread_node(cfg, n, d)),
        node_text(cfg, reread_node(cfg, n, d), d) == node_text(cfg, n, d),
        reread_node(cfg, n, d) is Comment <==> n is Comment,
    decreases n, 1int,
{
    match n {
        NodeView::Block { leading, name, args, children, inline } => {
            lemma_reread_list(cfg, children, d + 1);
        },
        NodeView::Opaque { leading, header, body, inline } => {
            lemma_reread_body(cfg, body, d);
        },
        _ => {},
    }
}

/// Plain nodes read back as plain nodes with the same text.
pub proof fn lemma_reread_list(cfg: Config, ns: Seq<NodeView>, d: nat)
    requires
        plain_list(ns),
    ensures
        plain_list(reread_list(cfg, ns, d)),
        list_text(cfg, reread_list(cfg, ns, d), d) == list_text(cfg, ns, d),
    decreases ns, 0int,
{
    lemma_reread_index(cfg, ns, d);
    let r = reread_list(cfg, ns, d);
    assert forall|i: int| 0 <= i < r.len() implies plain_node(#[trigger] r[i]) && (r[i] is Comment
        <==> ns[i] is Comment) by {
        lemma_reread_node(cfg, ns[i], d);
    }
    assert forall|i: int, j: int|
        #![trigger r[i], r[j]]
        0 <= i < j < r.len() && r[i] is Comment implies r[j] is Comment by {
        assert(ns[i] is Comment);
        assert(ns[j] is Comment);
    }
    if ns.len() > 0 {
        let rest = ns.drop_first();
        assert(plain_list(rest)) by {
            assert forall|i: int| 0 <= i < rest.len() implies plain_node(#[trigger] rest[i]) by {
                assert(rest[i] == ns[i + 1]);
            }
            assert forall|i: int, j: int|
                #![trigger rest[i], rest[j]]
                0 <= i < j < rest.len() && rest[i] is Comment implies rest[j] is Comment by {
                assert(rest[i] == ns[i + 1]);
                assert(rest[j] == ns[j + 1]);
            }
        }
        lemma_reread_list(cfg, rest, d);
        lemma_reread_node(cfg, ns[0], d);
        lemma_list_text_cons(cfg, reread_node(cfg, ns[0], d), reread_list(cfg, rest, d), d);
    }
}

proof fn lemma_reread_canon_node(cfg: Config, b: int, n: NodeView, d: nat)
    ensures
        canon_node(cfg, b, reread_node(cfg, n, d)) == (
            reread_list(cfg, canon_node(cfg, b, n).0, d),
            canon_node(cfg, b, n).1,
        ),
    decreases n, 1int,
{
    let h = canon_node(cfg, b, n);
    if h.0.len() == 1 {
        assert(h.0.drop_first().len() == 0);
        assert(reread_list(cfg, h.0.drop_first(), d) == Seq::<NodeView>::empty());
        assert(reread_list(cfg, h.0, d) =~= seq![reread_node(cfg, h.0[0], d)]);
    }
    if let NodeView::Block { leading, name, args, children, inline } = n {
        lemma_reread_canon_list(cfg, 0, children, d + 1);
    }
}

/// Reading back commutes with what the formatter keeps.
pub proof fn lemma_reread_canon_list(cfg: Config, b: int, ns: Seq<NodeView>, d: nat)
    ensures
        canon_list(cfg, b, reread_list(cfg, ns, d)) == (
            reread_list(cfg, canon_list(cfg, b, ns).0, d),
            canon_list(cfg, b, ns).1,
        ),
    decreases ns, 0int,
{
    if ns.len() > 0 {
        let h = canon_node(cfg, b, ns[0]);
        let rest = ns.drop_first();
        let t = canon_list(cfg, h.1, rest);
        lemma_reread_canon_node(cfg, b, ns[0], d);
        lemma_reread_canon_list(cfg, h.1, rest, d);
        lemma_canon_node_idem(cfg, b, ns[0]);
        let r = reread_list(cfg, ns, d);
        assert(r[0] == reread_node(cfg, ns[0], d));
        assert(r.drop_first() == reread_list(cfg, rest, d));
        if h.0.len() == 0 {
            assert(h.0 + t.0 == t.0);
            assert(reread_list(cfg, h.0, d) == Seq::<NodeView>::empty());
            assert(Seq::<NodeView>::empty() + reread_list(cfg, t.0, d) == reread_list(cfg, t.0, d));
        } else {
            assert((h.0 + t.0)[0] == h.0[0]);
            assert((h.0 + t.0).drop_first() == t.0);
            assert(h.0.drop_first().len() == 0);
            assert(reread_list(cfg, h.0.drop_first(), d) == Seq::<NodeView>::empty());
            assert(reread_list(cfg, h.0, d) =~= seq![reread_node(cfg, h.0[0], d)]);
        }
    }
}

// ---------------------------------------------------------------------------
// Runs of blank lines
// ---------------------------------------------------------------------------

/// With `b` blank lines in a row just before them, no run of blank lines among
/// the nodes, or among the children of a block, is longer than `max`.
pub open spec fn blank_runs_within(ns: Seq<NodeView>, b: int, max: int) -> bool
    decreases ns,
{
    if ns.len() == 0 {
        b <= max
    } else {
        &&& b <= max
        &&& match ns[0] {
            NodeView::BlankLine => blank_runs_within(ns.drop_first(), b + 1, max),
            NodeView::Block { children, .. } => blank_runs_within(children, 0, max)
                && blank_runs_within(ns.drop_first(), 0, max),
            _ => blank_runs_within(ns.drop_first(), 0, max),
        }
    }
}

proof fn lemma_canon_node_bound(cfg: Config, b: int, n: NodeView)
    requires
        0 <= b <= cfg.max_blank_lines,
    ensures
        0 <= canon_node(cfg, b, n).1 <= cfg.max_blank_lines,
    decreases n, 1int,
{
    if let NodeView::Block { children, .. } = n {
        lemma_canon_list_bound(cfg, 0, children);
    }
}

/// The formatter's count of blank lines in a row stays within the maximum.
pub proof fn lemma_canon_list_bound(cfg: Config, b: int, ns: Seq<NodeView>)
    requires
        0 <= b <= cfg.max_blank_lines,
    ensures
        0 <= canon_list(cfg, b, ns).1 <= cfg.max_blank_lines,
    decreases ns, 0int,
{
    if ns.len() > 0 {
        lemma_canon_node_bound(cfg, b, ns[0]);
        lemma_canon_list_bound(cfg, canon_node(cfg, b, ns[0]).1, ns.drop_first());
    }
}

/// What the formatter keeps has no run of blank lines longer than the maximum:
/// its count of blank lines in a row, `b`, is never below the true count `c`.
pub proof fn lemma_canon_runs(cfg: Config, b: int, c: int, ns: Seq<NodeView>)
    requires
        0 <= c <= b <= cfg.max_blank_lines,
    ensures
        blank_runs_within(canon_list(cfg, b, ns).0, c, cfg.max_blank_lines as int),
    decreases ns,
{
    let max = cfg.max_blank_lines as int;
    if ns.len() > 0 {
        let h = canon_node(cfg, b, ns[0]);
        let rest = ns.drop_first();
        let t = canon_list(cfg, h.1, rest);
        let out = h.0 + t.0;
        lemma_canon_node_idem(cfg, b, ns[0]);
        if h.0.len() == 0 {
            assert(out == t.0);
            lemma_canon_runs(cfg, b, c, rest);
        } else {
            assert(out[0] == h.0[0]);
            assert(out.drop_first() == t.0);
            match ns[0] {
                NodeView::BlankLine => {
                    lemma_canon_runs(cfg, b + 1, c + 1, rest);
                },
                NodeView::Block { leading, name, args, children, inline } => {
                    lemma_canon_runs(cfg, 0, 0, children);
                    lemma_canon_list_bound(cfg, 0, children);
                    lemma_canon_runs(cfg, h.1, 0, rest);
                },
                _ => {
                    lemma_canon_runs(cfg, 0, 0, rest);
                },
            }
        }
    }
}

// ---------------------------------------------------------------------------
// Inline comments
// ---------------------------------------------------------------------------

/// The node carries no inline comment, nor does any node inside it.
pub open spec fn no_inline_node(n: NodeView) -> bool
    decreases n,
{
    match n {
        NodeView::Directive { inline, .. } => inline is None,
        NodeView::Block { children, inline, .. } => inline is None && no_inline_comments(children),
        NodeView::Opaque { inline, .. } => inline is None,
        _ => true,
    }
}

/// No node carries an inline comment, at any depth.
pub open spec fn no_inline_comments(ns: Seq<NodeView>) -> bool
    decreases ns,
{
    forall|i: int| 0 <= i < ns.len() ==> no_inline_node(#[trigger] ns[i])
}

/// Where inline comments are not kept, what the formatter keeps of plain nodes
/// carries none.
pub proof fn lemma_canon_drops_inline(cfg: Config, b: int, ns: Seq<NodeView>)
    requires
        plain_list(ns),
        !cfg.preserve_inline_comments,
    ensures
        no_inline_comments(canon_list(cfg, b, ns).0),
    decreases ns,
{
    if ns.len() > 0 {
        let h = canon_node(cfg, b, ns[0]);
        let rest = ns.drop_first();
        let t = canon_list(cfg, h.1, rest);
        let out = h.0 + t.0;
        assert(plain_node(ns[0]));
        assert(plain_list(rest)) by {
            assert forall|i: int| 0 <= i < rest.len() implies plain_node(#[trigger] rest[i]) by {
                assert(rest[i] == ns[i + 1]);
            }
            assert forall|i: int, j: int|
                #![trigger rest[i], rest[j]]
                0 <= i < j < rest.len() && rest[i] is Comment implies rest[j] is Comment by {
                assert(rest[i] == ns[i + 1]);
                assert(rest[j] == ns[j + 1]);
            }
        }
        lemma_canon_drops_inline(cfg, h.1, rest);
        lemma_canon_node_idem(cfg, b, ns[0]);
        if let NodeView::Block { leading, name, args, children, inline } = ns[0] {
            lemma_canon_drops_inline(cfg, 0, children);
        }
        assert forall|i: int| 0 <= i < out.len() implies no_inline_node(#[trigger] out[i]) by {
            if i < h.0.len() {
                assert(out[i] == h.0[0]);
            } else {
                assert(out[i] == t.0[i - h.0.len()]);
            }
        }
    }
}

// ---------------------------------------------------------------------------
// Lua bodies
// ---------------------------------------------------------------------------

/// The bodies of the Lua blocks in a node, at any depth, in order.
pub open spec fn lua_bodies_node(n: NodeView) -> Seq<Seq<char>>
    decreases n,
{
    match n {
        NodeView::Block { children, .. } => lua_bodies(children),
        NodeView::Opaque { body, .. } => seq![body],
        _ => seq![],
    }
}

/// The bodies of the Lua blocks among the nodes, at any depth, in order.
pub open spec fn lua_bodies(ns: Seq<NodeView>) -> Seq<Seq<char>>
    decreases ns,
{
    if ns.len() == 0 {
        seq![]
    } else {
        lua_bodies_node(ns[0]) + lua_bodies(ns.drop_first())
    }
}

/// `b` stands in `w` at `o`, and a closing brace stands after it, at `p`.
pub open spec fn body_at(w: Seq<char>, o: int, p: int, b: Seq<char>) -> bool {
    &&& crate::roundtrip::occurs_at(w, o, b)
    &&& o + b.len() <= p < w.len()
    &&& w[p] == '}'
}

proof fn lemma_body_at_shift(y: Seq<char>, x: Seq<char>, z: Seq<char>, o: int, p: int, b: Seq<char>)
    requires
        body_at(x, o, p, b),
    ensures
        body_at(y + x + z, y.len() + o, y.len() + p, b),
{
    let w = y + x + z;
    assert forall|i: int| 0 <= i < b.len() implies w[y.len() + o + i] == #[trigger] b[i] by {
        assert(x[o + i] == b[i]);
        assert(w[y.len() + (o + i)] == x[o + i]);
    }
    assert(w[y.len() + p] == x[p]);
}

proof fn lemma_canon_bodies_node(cfg: Config, b: int, n: NodeView)
    ensures
        lua_bodies(canon_node(cfg, b, n).0) == lua_bodies_node(n),
    decreases n, 1int,
{
    let h = canon_node(cfg, b, n).0;
    if h.len() == 1 {
        assert(h.drop_first().len() == 0);
        assert(lua_bodies(h.drop_first()) == Seq::<Seq<char>>::empty());
        assert(lua_bodies(h) =~= lua_bodies_node(h[0]));
    }
    if let NodeView::Block { leading, name, args, children, inline } = n {
        lemma_canon_bodies(cfg, 0, children);
    }
}

/// What the formatter keeps holds the same Lua bodies, in the same order.
pub proof fn lemma_canon_bodies(cfg: Config, b: int, ns: Seq<NodeView>)
    ensures
        lua_bodies(canon_list(cfg, b, ns).0) == lua_bodies(ns),
    decreases ns, 0int,
{
    if ns.len() > 0 {
        let h = canon_node(cfg, b, ns[0]);
        let rest = ns.drop_first();
        let t = canon_list(cfg, h.1, rest);
        lemma_canon_bodies_node(cfg, b, ns[0]);
        lemma_canon_bodies(cfg, h.1, rest);
        lemma_canon_node_idem(cfg, b, ns[0]);
        if h.0.len() == 0 {
            assert(h.0 + t.0 == t.0);
            assert(lua_bodies(h.0) == Seq::<Seq<char>>::empty());
            assert(Seq::<Seq<char>>::empty() + lua_bodies(t.0) == lua_bodies(t.0));
        } else {
            assert((h.0 + t.0)[0] == h.0[0]);
            assert((h.0 + t.0).drop_first() == t.0);
            assert(h.0.drop_first().len() == 0);
            assert(lua_bodies(h.0.drop_first()) == Seq::<Seq<char>>::empty());
            assert(lua_bodies(h.0) =~= lua_bodies_node(h.0[0]));
        }
    }
}

proof fn lemma_body_in_node_text(cfg: Config, n: NodeView, d: nat, k: int) -> (r: (int, int))
    requires
        0 <= k < lua_bodies_node(n).len(),
    ensures
        body_at(node_text(cfg, n, d), r.0, r.1, opaque_body_text(lua_bodies_node(n)[k])),
    decreases n, 1int,
{
    let nt = node_text(cfg, n, d);
    match n {
        NodeView::Block { leading, name, args, children, inline } => {
            let (o, p) = lemma_body_in_list_text(cfg, children, d + 1, k);
            let cl = comment_lines(cfg, leading, d);
            let op = opening_text(cfg, header_text(name, args), d);
            let lt = list_text(cfg, children, d + 1);
            let tail = indent_spec(cfg, d) + seq!['}', '\n'];
            assert(nt =~= (cl + op) + lt + tail);
            let b = opaque_body_text(lua_bodies(children)[k]);
            lemma_body_at_shift(cl + op, lt, tail, o, p, b);
            ((cl + op).len() + o, (cl + op).len() + p)
        },
        NodeView::Opaque { leading, header, body, inline } => {
            let cl = comment_lines(cfg, leading, d);
            let op = opening_text(cfg, header, d);
            let b = opaque_body_text(body);
            let ind = indent_spec(cfg, d);
            let o = (cl + op).len() as int;
            let p = o + b.len() + 1 + ind.len();
            let x = b + seq!['\n'] + ind + seq!['}'];
            assert(body_at(x, 0, p - o, b)) by {
                assert forall|i: int| 0 <= i < b.len() implies x[0 + i] == #[trigger] b[i] by {
                    assert(x[i] == b[i]);
                }
                assert(x[p - o] == '}');
            }
            lemma_body_at_shift(cl + op, x, seq!['\n'], 0, p - o, b);
            assert((cl + op) + x + seq!['\n'] =~= nt);
            assert(lua_bodies_node(n)[0] == body);
            (o, p)
        },
        _ => (0, 0),
    }
}

/// A Lua body of the nodes, as written, stands in their text, a closing brace after it.
pub proof fn lemma_body_in_list_text(cfg: Config, ns: Seq<NodeView>, d: nat, k: int) -> (r: (
    int,
    int,
))
    requires
        0 <= k < lua_bodies(ns).len(),
    ensures
        body_at(list_text(cfg, ns, d), r.0, r.1, opaque_body_text(lua_bodies(ns)[k])),
    decreases ns, 0int,
{
    let rest = ns.drop_first();
    let nt = node_text(cfg, ns[0], d);
    let lt = list_text(cfg, rest, d);
    let hb = lua_bodies_node(ns[0]);
    let tb = lua_bodies(rest);
    assert(list_text(cfg, ns, d) == nt + lt);
    if k < hb.len() {
        assert(lua_bodies(ns)[k] == hb[k]);
        let (o, p) = lemma_body_in_node_text(cfg, ns[0], d, k);
        lemma_body_at_shift(Seq::<char>::empty(), nt, lt, o, p, opaque_body_text(hb[k]));
        assert(Seq::<char>::empty() + nt + lt == nt + lt);
        (o, p)
    } else {
        assert(lua_bodies(ns)[k] == tb[k - hb.len()]);
        let (o, p) = lemma_body_in_list_text(cfg, rest, d, k - hb.len());
        lemma_body_at_shift(nt, lt, Seq::<char>::empty(), o, p, opaque_body_text(tb[k - hb.len()]));
        assert(nt + lt + Seq::<char>::empty() == nt + lt);
        (nt.len() + o, nt.len() + p)
    }
}

/// Nodes that the formatter keeps as they are after `b` blank lines in a row are
/// kept as they are after fewer.
pub proof fn lemma_canon_lower(cfg: Config, b: int, b2: int, ns: Seq<NodeView>)
    requires
        canon_list(cfg, b, ns).0 == ns,
        b2 <= b,
    ensures
        canon_list(cfg, b2, ns).0 == ns,
    decreases ns.len(),
{
    if ns.len() > 0 {
        let rest = ns.drop_first();
        let h = canon_node(cfg, b, ns[0]);
        let t = canon_list(cfg, h.1, rest);
        lemma_canon_node_idem(cfg, b, ns[0]);
        lemma_canon_concat(cfg, h.1, rest, Seq::<NodeView>::empty());
        assert(rest + Seq::<NodeView>::empty() == rest);
        if h.0.len() == 0 {
            assert(h.0 + t.0 == t.0);
            assert(t.0.len() <= rest.len());
            assert(false);
        }
        assert((h.0 + t.0)[0] == h.0[0]);
        assert(h.0[0] == ns[0]);
        assert((h.0 + t.0).drop_first() == t.0);
        assert(t.0 == rest);
        let h2 = canon_node(cfg, b2, ns[0]);
        lemma_canon_node_idem(cfg, b2, ns[0]);
        if ns[0] is BlankLine {
            lemma_canon_lower(cfg, b + 1, b2 + 1, rest);
        } else {
            assert(h2 == h);
        }
        let t2 = canon_list(cfg, h2.1, rest);
        assert(h2.0 + t2.0 =~= ns);
    }
}

// ---------------------------------------------------------------------------
// Options that the written text does not read
// ---------------------------------------------------------------------------

/// Two configurations that lay text out alike: they differ at most in
/// `trailing_newline`.
pub open spec fn same_layout(c1: Config, c2: Config) -> bool {
    &&& c1.indent_style == c2.indent_style
    &&& c1.indent_width == c2.indent_width
    &&& c1.brace_style == c2.brace_style
    &&& c1.max_blank_lines == c2.max_blank_lines
    &&& c1.preserve_inline_comments == c2.preserve_inline_comments
}

proof fn lemma_comments_written_layout(
    c1: Config,
    c2: Config,
    out: Seq<char>,
    cs: Seq<Seq<char>>,
    d: nat,
)
    requires
        c1.indent_style == c2.indent_style,
        c1.indent_width == c2.indent_width,
    ensures
        comments_written(c1, out, cs, d) == comments_written(c2, out, cs, d),
    decreases cs.len(),
{
    if cs.len() > 0 {
        lemma_comments_written_layout(c1, c2, out, cs.drop_last(), d);
    }
}

proof fn lemma_node_written_layout(c1: Config, c2: Config, st: FmtState, n: NodeView, d: nat)
    requires
        same_layout(c1, c2),
    ensures
        node_written(c1, st, n, d) == node_written(c2, st, n, d),
    decreases n, 1int,
{
    match n {
        NodeView::Directive { leading, .. } => {
            lemma_comments_written_layout(c1, c2, st.out, leading, d);
        },
        NodeView::Block { leading, name, args, children, inline } => {
            lemma_comments_written_layout(c1, c2, st.out, leading, d);
            let opened = crate::formatter::opening_written(
                c1,
                comments_written(c1, st.out, leading, d),
                header_text(name, args),
                inline,
                d,
            );
            lemma_nodes_written_layout(c1, c2, FmtState { out: opened, blank: 0 }, children, d + 1);
        },
        NodeView::Opaque { leading, .. } => {
            lemma_comments_written_layout(c1, c2, st.out, leading, d);
        },
        _ => {},
    }
}

/// What is written does not depend on `trailing_newline`.
pub proof fn lemma_nodes_written_layout(
    c1: Config,
    c2: Config,
    st: FmtState,
    ns: Seq<NodeView>,
    d: nat,
)
    requires
        same_layout(c1, c2),
    ensures
        nodes_written(c1, st, ns, d) == nodes_written(c2, st, ns, d),
    decreases ns, 0int,
{
    if ns.len() > 0 {
        lemma_node_written_layout(c1, c2, st, ns[0], d);
        lemma_nodes_written_layout(c1, c2, node_written(c1, st, ns[0], d), ns.drop_first(), d);
    }
}

/// A node with its inline comments, and those of the nodes inside it, removed.
pub open spec fn without_inline_node(n: NodeView) -> NodeView
    decreases n,
{
    match n {
        NodeView::Directive { leading, name, args, inline } => NodeView::Directive {
            leading,
            name,
            args,
            inline: None,
        },
        NodeView::Block { leading, name, args, children, inline } => NodeView::Block {
            leading,
            name,
            args,
            children: without_inline(children),
            inline: None,
        },
        NodeView::Opaque { leading, header, body, inline } => NodeView::Opaque {
            leading,
            header,
            body,
            inline: None,
        },
        _ => n,
    }
}

/// Nodes with every inline comment, at any depth, removed.
pub open spec fn without_inline(ns: Seq<NodeView>) -> Seq<NodeView>
    decreases ns,
{
    if ns.len() == 0 {
        seq![]
    } else {
        seq![without_inline_node(ns[0])] + without_inline(ns.drop_first())
    }
}

/// `c1` drops inline comments and `c2` keeps them; otherwise they are alike.
pub open spec fn drops_what_keeps(c1: Config, c2: Config) -> bool {
    &&& c1.indent_style == c2.indent_style
    &&& c1.indent_width == c2.indent_width
    &&& c1.brace_style == c2.brace_style
    &&& c1.max_blank_lines == c2.max_blank_lines
    &&& !c1.preserve_inline_comments
    &&& c2.preserve_inline_comments
}

proof fn lemma_node_written_stripped(c1: Config, c2: Config, st: FmtState, n: NodeView, d: nat)
    requires
        drops_what_keeps(c1, c2),
    ensures
        node_written(c1, st, n, d) == node_written(c2, st, without_inline_node(n), d),
    decreases n, 1int,
{
    match n {
        NodeView::Directive { leading, .. } => {
            lemma_comments_written_layout(c1, c2, st.out, leading, d);
        },
        NodeView::Block { leading, name, args, children, inline } => {
            lemma_comments_written_layout(c1, c2, st.out, leading, d);
            let opened = crate::formatter::opening_written(
                c1,
                comments_written(c1, st.out, leading, d),
                header_text(name, args),
                inline,
                d,
            );
            assert(opened == crate::formatter::opening_written(
                c2,
                comments_written(c2, st.out, leading, d),
                header_text(name, args),
                None,
                d,
            ));
            lemma_nodes_written_stripped(c1, c2, FmtState { out: opened, blank: 0 }, children, d + 1);
        },
        NodeView::Opaque { leading, .. } => {
            lemma_comments_written_layout(c1, c2, st.out, leading, d);
        },
        _ => {},
    }
}

/// Writing without inline comments is writing, with them kept, the nodes whose
/// inline comments are removed.
pub proof fn lemma_nodes_written_stripped(
    c1: Config,
    c2: Config,
    st: FmtState,
    ns: Seq<NodeView>,
    d: nat,
)
    requires
        drops_what_keeps(c1, c2),
    ensures
        nodes_written(c1, st, ns, d) == nodes_written(c2, st, without_inline(ns), d),
    decreases ns, 0int,
{
    if ns.len() > 0 {
        let w = without_inline(ns);
        assert(w[0] == without_inline_node(ns[0]));
        assert(w.drop_first() == without_inline(ns.drop_first()));
        lemma_node_written_stripped(c1, c2, st, ns[0], d);
        lemma_nodes_written_stripped(c1, c2, node_written(c1, st, ns[0], d), ns.drop_first(), d);
    }
}

} // verus!
