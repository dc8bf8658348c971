use vstd::prelude::*;

use crate::ast::{
    lemma_nodes_view_index, lemma_nodes_view_len, node_view, nodes_view, Block, Directive, Node,
    NodeView, OpaqueBlock,
};
use crate::config::{indent_spec, BraceStyle, Config};
use crate::text::{
    ends_with_char, joined, normalize_chars, normalized, opt_string_view, push_chars, push_joined,
    push_string, string_from_chars, strings_view, trim_end_chars, trimmed_end, vec_ends_with,
};

verus! {

// ---------------------------------------------------------------------------
// What the formatter writes
// ---------------------------------------------------------------------------

/// The text written so far, and how many blank lines in a row end it.
pub struct FmtState {
    pub out: Seq<char>,
    pub blank: int,
}

/// `out` with the inline comment `c` after it, when comments are kept; a space
/// separates the comment from text that does not end in a space or a newline.
pub open spec fn inline_written(cfg: Config, out: Seq<char>, c: Option<Seq<char>>) -> Seq<char> {
    if !cfg.preserve_inline_comments {
        out
    } else {
        match c {
            None => out,
            Some(c) => (if !ends_with_char(out, ' ') && !ends_with_char(out, '\n') {
                out.push(' ')
            } else {
                out
            }) + c,
        }
    }
}

/// A comment on a line of its own at nesting depth `depth`.
pub open spec fn comment_line(cfg: Config, c: Seq<char>, depth: nat) -> Seq<char> {
    indent_spec(cfg, depth) + c + if ends_with_char(c, '\n') {
        seq![]
    } else {
        seq!['\n']
    }
}

/// `out` followed by the comments `cs`, each on a line of its own.
pub open spec fn comments_written(cfg: Config, out: Seq<char>, cs: Seq<Seq<char>>, depth: nat) -> Seq<
    char,
>
    decreases cs.len(),
{
    if cs.len() == 0 {
        out
    } else {
        comments_written(cfg, out, cs.drop_last(), depth) + comment_line(cfg, cs.last(), depth)
    }
}

/// A name followed by its arguments, separated by single spaces.
pub open spec fn header_text(name: Seq<char>, args: Seq<Seq<char>>) -> Seq<char> {
    if args.len() == 0 {
        name
    } else {
        name + seq![' '] + joined(args, seq![' '])
    }
}

/// `out` followed by the line that opens a block with the given header.
pub open spec fn opening_written(
    cfg: Config,
    out: Seq<char>,
    header: Seq<char>,
    inline: Option<Seq<char>>,
    depth: nat,
) -> Seq<char> {
    match cfg.brace_style {
        BraceStyle::SameLine => inline_written(
            cfg,
            out + indent_spec(cfg, depth) + header + seq![' '],
            inline,
        ) + seq!['{', '\n'],
        BraceStyle::NextLine => inline_written(cfg, out + indent_spec(cfg, depth) + header, inline)
            + seq!['\n'] + indent_spec(cfg, depth) + seq!['{', '\n'],
    }
}

/// The body of a Lua block as it is written: line endings normalised, one
/// leading newline and all trailing whitespace removed.
pub open spec fn opaque_body_text(body: Seq<char>) -> Seq<char> {
    let n = normalized(body);
    trimmed_end(
        if n.len() > 0 && n[0] == '\n' {
            n.drop_first()
        } else {
            n
        },
    )
}

/// The state after writing `node` at nesting depth `depth`.
pub open spec fn node_written(cfg: Config, st: FmtState, node: NodeView, depth: nat) -> FmtState
    decreases node,
{
    match node {
        NodeView::Directive { leading, name, args, inline } => FmtState {
            out: inline_written(
                cfg,
                comments_written(cfg, st.out, leading, depth) + indent_spec(cfg, depth)
                    + header_text(name, args) + seq![';'],
                inline,
            ).push('\n'),
            blank: 0,
        },
        NodeView::Block { leading, name, args, children, inline } => {
            let opened = opening_written(
                cfg,
                comments_written(cfg, st.out, leading, depth),
                header_text(name, args),
                inline,
                depth,
            );
            let inner = nodes_written(cfg, FmtState { out: opened, blank: 0 }, children, depth + 1);
            FmtState { out: inner.out + indent_spec(cfg, depth) + seq!['}', '\n'], blank: 0 }
        },
        NodeView::Comment(c) => FmtState { out: st.out + comment_line(cfg, c, depth), blank: 0 },
        NodeView::BlankLine => if st.blank >= cfg.max_blank_lines {
            st
        } else {
            FmtState { out: st.out.push('\n'), blank: st.blank + 1 }
        },
        NodeView::Opaque { leading, header, body, inline } => FmtState {
            out: opening_written(
                cfg,
                comments_written(cfg, st.out, leading, depth),
                header,
                inline,
                depth,
            ) + opaque_body_text(body) + seq!['\n'] + indent_spec(cfg, depth) + seq!['}', '\n'],
            blank: 0,
        },
    }
}

/// The state after writing `nodes`, in order, at nesting depth `depth`.
pub open spec fn nodes_written(cfg: Config, st: FmtState, nodes: Seq<NodeView>, depth: nat) -> FmtState
    decreases nodes,
{
    if nodes.len() == 0 {
        st
    } else {
        nodes_written(cfg, node_written(cfg, st, nodes[0], depth), nodes.drop_first(), depth)
    }
}

/// `st` with newlines dropped from the end of its text, one at a time while the
/// text ends with two newlines and more blank lines than `max` stand in a row,
/// each dropped newline counting one blank line less.
pub open spec fn collapsed_tail(st: FmtState, max: int) -> FmtState
    decreases st.out.len(),
{
    let n = st.out.len();
    if n >= 2 && st.out[n - 1] == '\n' && st.out[n - 2] == '\n' && st.blank > max {
        collapsed_tail(
            FmtState { out: st.out.drop_last(), blank: if st.blank > 0 { st.blank - 1 } else { 0 } },
            max,
        )
    } else {
        st
    }
}

/// `s` without its trailing newlines.
pub open spec fn without_trailing_newlines(s: Seq<char>) -> Seq<char>
    decreases s.len(),
{
    if ends_with_char(s, '\n') {
        without_trailing_newlines(s.drop_last())
    } else {
        s
    }
}

/// The end of the output: one newline exactly when `trailing_newline` is set.
pub open spec fn finished(cfg: Config, out: Seq<char>) -> Seq<char> {
    if cfg.trailing_newline {
        if ends_with_char(out, '\n') {
            out
        } else {
            out.push('\n')
        }
    } else {
        without_trailing_newlines(out)
    }
}

/// The text the formatter gives for `nodes`.
pub open spec fn format_nodes(cfg: Config, nodes: Seq<NodeView>) -> Seq<char> {
    finished(cfg, nodes_written(cfg, FmtState { out: seq![], blank: 0 }, nodes, 0).out)
}

/// How deeply blocks nest in a node.
pub open spec fn view_height(n: NodeView) -> nat
    decreases n,
{
    match n {
        NodeView::Block { children, .. } => 1 + views_height(children),
        _ => 0,
    }
}

/// How deeply blocks nest in a sequence of nodes.
pub open spec fn views_height(ns: Seq<NodeView>) -> nat
    decreases ns,
{
    if ns.len() == 0 {
        0
    } else {
        let a = view_height(ns[0]);
        let b = views_height(ns.drop_first());
        if a >= b {
            a
        } else {
            b
        }
    }
}


pub proof fn lemma_nodes_written_step(cfg: Config, st: FmtState, nodes: Seq<NodeView>, i: int, depth: nat)
    requires
        0 <= i < nodes.len(),
    ensures
        nodes_written(cfg, st, nodes.skip(i), depth) == nodes_written(
            cfg,
            node_written(cfg, st, nodes[i], depth),
            nodes.skip(i + 1),
            depth,
        ),
{
    assert(nodes.skip(i).drop_first() == nodes.skip(i + 1));
    assert(nodes.skip(i)[0] == nodes[i]);
}

pub proof fn lemma_views_height_index(ns: Seq<NodeView>, k: int)
    requires
        0 <= k < ns.len(),
    ensures
        view_height(ns[k]) <= views_height(ns),
    decreases ns.len(),
{
    if k > 0 {
        lemma_views_height_index(ns.drop_first(), k - 1);
    }
}

/// A bound on every node's height bounds the sequence's height.
pub proof fn lemma_views_height_bound(ns: Seq<NodeView>, b: int)
    requires
        0 <= b,
        forall|i: int| 0 <= i < ns.len() ==> view_height(#[trigger] ns[i]) <= b,
    ensures
        views_height(ns) <= b,
    decreases ns.len(),
{
    if ns.len() > 0 {
        assert forall|i: int| 0 <= i < ns.drop_first().len() implies view_height(
            #[trigger] ns.drop_first()[i],
        ) <= b by {
            assert(ns.drop_first()[i] == ns[i + 1]);
        }
        lemma_views_height_bound(ns.drop_first(), b);
        assert(view_height(ns[0]) <= b);
    }
}

/// Writing keeps the count of blank lines in a row within the configured maximum.
pub proof fn lemma_blank_bound(cfg: Config, st: FmtState, node: NodeView, depth: nat)
    requires
        0 <= st.blank <= cfg.max_blank_lines,
    ensures
        0 <= node_written(cfg, st, node, depth).blank <= cfg.max_blank_lines,
    decreases node,
{
    match node {
        NodeView::Block { leading, name, args, children, inline } => {
            let opened = opening_written(
                cfg,
                comments_written(cfg, st.out, leading, depth),
                header_text(name, args),
                inline,
                depth,
            );
            lemma_blank_bound_all(cfg, FmtState { out: opened, blank: 0 }, children, depth + 1);
        },
        _ => {},
    }
}

pub proof fn lemma_blank_bound_all(cfg: Config, st: FmtState, nodes: Seq<NodeView>, depth: nat)
    requires
        0 <= st.blank <= cfg.max_blank_lines,
    ensures
        0 <= nodes_written(cfg, st, nodes, depth).blank <= cfg.max_blank_lines,
    decreases nodes,
{
    if nodes.len() > 0 {
        lemma_blank_bound(cfg, st, nodes[0], depth);
        lemma_blank_bound_all(cfg, node_written(cfg, st, nodes[0], depth), nodes.drop_first(), depth);
    }
}

// ---------------------------------------------------------------------------
// Exec
// ---------------------------------------------------------------------------

pub struct Formatter<'a> {
    config: &'a Config,
    output: Vec<char>,
    blank_run: u8,
}

/// The block header: the name, then the arguments, separated by single spaces.
fn format_block_header(name: &String, args: &Vec<String>) -> (h: Vec<char>)
    ensures
        h@ == header_text(name@, strings_view(args@)),
{
    let mut h: Vec<char> = Vec::new();
    push_string(&mut h, name);
    if args.len() > 0 {
        h.push(' ');
        push_joined(&mut h, args, " ");
        proof {
            reveal_strlit(" ");
            assert(" "@ == seq![' ']);
        }
    }
    proof {
        if args.len() == 0 {
            assert(h@ == name@);
        }
    }
    h
}

impl<'a> Formatter<'a> {
    /// The state the formatter has reached.
    pub closed spec fn state(&self) -> FmtState {
        FmtState { out: self.output@, blank: self.blank_run as int }
    }

    /// The options the formatter writes with.
    pub closed spec fn options(&self) -> Config {
        *self.config
    }

    /// The count of blank lines in a row stays within the configured maximum.
    pub closed spec fn wf(&self) -> bool {
        self.blank_run <= self.config.max_blank_lines
    }

    pub fn new(config: &'a Config) -> (f: Self)
        ensures
            f.wf(),
            f.options() == *config,
            f.state() == (FmtState { out: seq![], blank: 0 }),
    {
        Self { config, output: Vec::new(), blank_run: 0 }
    }

    pub fn format(self, nodes: &[Node]) -> (s: String)
        requires
            self.wf(),
            views_height(nodes_view(nodes@)) < usize::MAX,
        ensures
            s@ == finished(
                self.options(),
                nodes_written(self.options(), self.state(), nodes_view(nodes@), 0).out,
            ),
    {
        let mut f = self;
        f.write_nodes(nodes, 0);
        f.collapse_trailing_blank_lines();
        if f.config.trailing_newline && !vec_ends_with(&f.output, '\n') {
            f.output.push('\n');
        } else if !f.config.trailing_newline {
            let ghost before = f.output@;
            while vec_ends_with(&f.output, '\n')
                invariant
                    without_trailing_newlines(before) == without_trailing_newlines(f.output@),
                decreases f.output@.len(),
            {
                let ghost o = f.output@;
                f.output.pop();
                assert(f.output@ == o.drop_last());
            }
        }
        string_from_chars(&f.output)
    }

    fn write_nodes(&mut self, nodes: &[Node], depth: usize)
        requires
            old(self).wf(),
            depth + views_height(nodes_view(nodes@)) <= usize::MAX,
        ensures
            final(self).wf(),
            final(self).options() == old(self).options(),
            final(self).state() == nodes_written(
                old(self).options(),
                old(self).state(),
                nodes_view(nodes@),
                depth as nat,
            ),
        decreases nodes@,
    {
        let ghost views = nodes_view(nodes@);
        let ghost cfg = self.options();
        proof {
            lemma_nodes_view_len(nodes@);
            assert(views.skip(0) == views);
        }
        let mut i: usize = 0;
        while i < nodes.len()
            invariant
                self.wf(),
                self.options() == cfg,
                cfg == old(self).options(),
                views == nodes_view(nodes@),
                views.len() == nodes@.len(),
                i <= nodes@.len(),
                depth + views_height(views) <= usize::MAX,
                nodes_written(cfg, old(self).state(), views, depth as nat) == nodes_written(
                    cfg,
                    self.state(),
                    views.skip(i as int),
                    depth as nat,
                ),
            decreases nodes@.len() - i,
        {
            proof {
                lemma_nodes_view_index(nodes@, i as int);
                lemma_nodes_written_step(cfg, self.state(), views, i as int, depth as nat);
                lemma_views_height_index(views, i as int);
            }
            self.write_node(&nodes[i], depth);
            i = i + 1;
        }
        proof {
            assert(views.skip(i as int) == Seq::<NodeView>::empty());
        }
    }

    fn write_node(&mut self, node: &Node, depth: usize)
        requires
            old(self).wf(),
            depth + view_height(node_view(*node)) <= usize::MAX,
        ensures
            final(self).wf(),
            final(self).options() == old(self).options(),
            final(self).state() == node_written(
                old(self).options(),
                old(self).state(),
                node_view(*node),
                depth as nat,
            ),
        decreases node,
    {
        match node {
            Node::Directive(directive) => self.write_directive(directive, depth),
            Node::Block(block) => self.write_block(block, depth),
            Node::OpaqueBlock(block) => self.write_opaque_block(block, depth),
            Node::Comment(comment) => self.write_comment_line(comment, depth),
            Node::BlankLine => self.write_blank_line(),
        }
    }

    fn write_leading_comments(&mut self, comments: &Vec<String>, depth: usize)
        requires
            old(self).wf(),
        ensures
            final(self).wf(),
            final(self).options() == old(self).options(),
            final(self).output@ == comments_written(
                old(self).options(),
                old(self).output@,
                strings_view(comments@),
                depth as nat,
            ),
            final(self).blank_run == if comments@.len() > 0 {
                0
            } else {
                old(self).blank_run
            },
    {
        let ghost cs = strings_view(comments@);
        let ghost cfg = self.options();
        let ghost out0 = self.output@;
        let mut k: usize = 0;
        proof {
            assert(cs.take(0) == Seq::<Seq<char>>::empty());
        }
        while k < comments.len()
            invariant
                self.wf(),
                self.options() == cfg,
                cfg == old(self).options(),
                out0 == old(self).output@,
                cs == strings_view(comments@),
                k <= comments@.len(),
                self.output@ == comments_written(cfg, out0, cs.take(k as int), depth as nat),
                self.blank_run == if k > 0 {
                    0
                } else {
                    old(self).blank_run
                },
            decreases comments@.len() - k,
        {
            self.write_comment_line(&comments[k], depth);
            proof {
                assert(cs.take(k + 1).drop_last() == cs.take(k as int));
                assert(cs.take(k + 1).last() == comments@[k as int]@);
            }
            k = k + 1;
        }
        proof {
            assert(cs.take(k as int) == cs);
        }
    }

    fn write_directive(&mut self, directive: &Directive, depth: usize)
        requires
            old(self).wf(),
        ensures
            final(self).wf(),
            final(self).options() == old(self).options(),
            final(self).state() == node_written(
                old(self).options(),
                old(self).state(),
                node_view(Node::Directive(*directive)),
                depth as nat,
            ),
    {
        let ghost cfg = self.options();
        self.blank_run = 0;
        self.write_leading_comments(&directive.leading_comments, depth);
        let ghost o1 = self.output@;
        self.config.push_indent(&mut self.output, depth);
        let header = format_block_header(&directive.name, &directive.args);
        push_chars(&mut self.output, &header);
        let ghost o3 = self.output@;
        self.output.push(';');
        assert(self.output@ == o3 + seq![';']);
        self.write_inline_comment(&directive.inline_comment);
        self.output.push('\n');
        self.blank_run = 0;
        proof {
            assert(o3 == o1 + indent_spec(cfg, depth as nat) + header_text(
                directive.name@,
                strings_view(directive.args@),
            ));
        }
    }

    fn write_block(&mut self, block: &Block, depth: usize)
        requires
            old(self).wf(),
            depth + view_height(node_view(Node::Block(*block))) <= usize::MAX,
        ensures
            final(self).wf(),
            final(self).options() == old(self).options(),
            final(self).state() == node_written(
                old(self).options(),
                old(self).state(),
                node_view(Node::Block(*block)),
                depth as nat,
            ),
        decreases block,
    {
        let ghost cfg = self.options();
        self.blank_run = 0;
        self.write_leading_comments(&block.leading_comments, depth);
        let header = format_block_header(&block.name, &block.args);
        self.write_opening(&header, &block.inline_comment, depth);
        self.blank_run = 0;
        let ghost opened = self.state();
        proof {
            lemma_nodes_view_len(block.children@);
        }
        self.write_nodes(block.children.as_slice(), depth + 1);
        let ghost inner = self.state();
        self.config.push_indent(&mut self.output, depth);
        self.output.push('}');
        self.output.push('\n');
        self.blank_run = 0;
        proof {
            assert(self.output@ == inner.out + indent_spec(cfg, depth as nat) + seq!['}', '\n']);
        }
    }

    fn write_opaque_block(&mut self, block: &OpaqueBlock, depth: usize)
        requires
            old(self).wf(),
        ensures
            final(self).wf(),
            final(self).options() == old(self).options(),
            final(self).state() == node_written(
                old(self).options(),
                old(self).state(),
                node_view(Node::OpaqueBlock(*block)),
                depth as nat,
            ),
    {
        let ghost cfg = self.options();
        self.blank_run = 0;
        self.write_leading_comments(&block.leading_comments, depth);
        self.write_opaque_opening(block, depth);
        let ghost o1 = self.output@;
        let raw = crate::text::str_chars(block.body.as_str());
        let normal = normalize_chars(&raw);
        let mut stripped: Vec<char> = Vec::new();
        let mut k: usize = if normal.len() > 0 && normal[0] == '\n' {
            1
        } else {
            0
        };
        let ghost from = k as int;
        while k < normal.len()
            invariant
                0 <= from <= k <= normal@.len(),
                from == 0 || (from == 1 && normal@.len() > 0 && normal@[0] == '\n'),
                from == 0 ==> !(normal@.len() > 0 && normal@[0] == '\n'),
                stripped@ == normal@.subrange(from, k as int),
            decreases normal@.len() - k,
        {
            stripped.push(normal[k]);
            k = k + 1;
            assert(stripped@ =~= normal@.subrange(from, k as int));
        }
        proof {
            if from == 1 {
                assert(stripped@ == normal@.drop_first());
            } else {
                assert(stripped@ == normal@);
            }
        }
        let body = trim_end_chars(&stripped);
        if body.len() > 0 {
            push_chars(&mut self.output, &body);
        }
        assert(self.output@ == o1 + opaque_body_text(block.body@));
        let ghost o2 = self.output@;
        self.output.push('\n');
        self.config.push_indent(&mut self.output, depth);
        self.output.push('}');
        self.output.push('\n');
        self.blank_run = 0;
        proof {
            assert(self.output@ == o2 + seq!['\n'] + indent_spec(cfg, depth as nat) + seq![
                '}',
                '\n',
            ]);
        }
    }

    fn write_opaque_opening(&mut self, block: &OpaqueBlock, depth: usize)
        requires
            old(self).wf(),
        ensures
            final(self).wf(),
            final(self).options() == old(self).options(),
            final(self).blank_run == old(self).blank_run,
            final(self).output@ == opening_written(
                old(self).options(),
                old(self).output@,
                block.header@,
                opt_string_view(block.inline_comment),
                depth as nat,
            ),
    {
        let header = crate::text::str_chars(block.header.as_str());
        self.write_opening(&header, &block.inline_comment, depth);
    }

    /// Writes the line that opens a block with the given header.
    fn write_opening(&mut self, header: &Vec<char>, inline_comment: &Option<String>, depth: usize)
        requires
            old(self).wf(),
        ensures
            final(self).wf(),
            final(self).options() == old(self).options(),
            final(self).blank_run == old(self).blank_run,
            final(self).output@ == opening_written(
                old(self).options(),
                old(self).output@,
                header@,
                opt_string_view(*inline_comment),
                depth as nat,
            ),
    {
        match self.config.brace_style {
            BraceStyle::SameLine => {
                self.config.push_indent(&mut self.output, depth);
                push_chars(&mut self.output, header);
                self.output.push(' ');
                self.write_inline_comment(inline_comment);
                self.output.push('{');
                self.output.push('\n');
            },
            BraceStyle::NextLine => {
                self.config.push_indent(&mut self.output, depth);
                push_chars(&mut self.output, header);
                self.write_inline_comment(inline_comment);
                self.output.push('\n');
                self.config.push_indent(&mut self.output, depth);
                self.output.push('{');
                self.output.push('\n');
            },
        }
    }

    fn write_comment_line(&mut self, comment: &String, depth: usize)
        requires
            old(self).wf(),
        ensures
            final(self).wf(),
            final(self).options() == old(self).options(),
            final(self).output@ == old(self).output@ + comment_line(
                old(self).options(),
                comment@,
                depth as nat,
            ),
            final(self).blank_run == 0,
    {
        self.blank_run = 0;
        self.config.push_indent(&mut self.output, depth);
        push_string(&mut self.output, comment);
        let c = crate::text::str_chars(comment.as_str());
        if !vec_ends_with(&c, '\n') {
            self.output.push('\n');
        }
    }

    fn write_blank_line(&mut self)
        requires
            old(self).wf(),
        ensures
            final(self).wf(),
            final(self).options() == old(self).options(),
            final(self).state() == node_written(
                old(self).options(),
                old(self).state(),
                NodeView::BlankLine,
                0,
            ),
    {
        if self.blank_run >= self.config.max_blank_lines {
            return;
        }
        self.blank_run = self.blank_run + 1;
        self.output.push('\n');
    }

    fn write_inline_comment(&mut self, comment: &Option<String>)
        requires
            old(self).wf(),
        ensures
            final(self).wf(),
            final(self).options() == old(self).options(),
            final(self).blank_run == old(self).blank_run,
            final(self).output@ == inline_written(
                old(self).options(),
                old(self).output@,
                opt_string_view(*comment),
            ),
    {
        if !self.config.preserve_inline_comments {
            return;
        }
        if let Some(comment) = comment {
            if !vec_ends_with(&self.output, ' ') && !vec_ends_with(&self.output, '\n') {
                self.output.push(' ');
            }
            push_string(&mut self.output, comment);
        }
    }

    fn collapse_trailing_blank_lines(&mut self)
        ensures
            final(self).options() == old(self).options(),
            final(self).state() == collapsed_tail(old(self).state(), old(self).options().max_blank_lines as int),
            old(self).wf() ==> final(self).wf(),
    {
        let ghost max = self.config.max_blank_lines as int;
        while self.output.len() >= 2 && self.output[self.output.len() - 1] == '\n'
            && self.output[self.output.len() - 2] == '\n' && self.blank_run
            > self.config.max_blank_lines
            invariant
                self.options() == old(self).options(),
                max == self.options().max_blank_lines as int,
                collapsed_tail(self.state(), max) == collapsed_tail(old(self).state(), max),
                old(self).wf() ==> self.state() == old(self).state(),
            decreases self.output@.len(),
        {
            let ghost before = self.state();
            self.output.pop();
            self.blank_run = if self.blank_run > 0 {
                self.blank_run - 1
            } else {
                0
            };
            assert(self.output@ == before.out.drop_last());
            assert(self.state() == (FmtState { out: before.out.drop_last(), blank: before.blank - 1 }));
        }
    }
}

} // verus!
