use vstd::prelude::*;

use crate::text::{opt_string_view, str_chars, strings_view};

verus! {

#[derive(Debug, PartialEq, Eq)]
pub enum Node {
    Directive(Directive),
    Block(Block),
    Comment(String),
    BlankLine,
    OpaqueBlock(OpaqueBlock),
}

#[derive(Debug, Clone, PartialEq, Eq)]
pub struct Directive {
    pub leading_comments: Vec<String>,
    pub name: String,
    pub args: Vec<String>,
    pub inline_comment: Option<String>,
}

#[derive(Debug, PartialEq, Eq)]
pub struct Block {
    pub leading_comments: Vec<String>,
    pub name: String,
    pub args: Vec<String>,
    pub children: Vec<Node>,
    pub inline_comment: Option<String>,
}

#[derive(Debug, Clone, PartialEq, Eq)]
pub struct OpaqueBlock {
    pub leading_comments: Vec<String>,
    pub header: String,
    pub body: String,
    pub inline_comment: Option<String>,
}

/// A node with its strings taken as character sequences.
pub enum NodeView {
    Directive {
        leading: Seq<Seq<char>>,
        name: Seq<char>,
        args: Seq<Seq<char>>,
        inline: Option<Seq<char>>,
    },
    Block {
        leading: Seq<Seq<char>>,
        name: Seq<char>,
        args: Seq<Seq<char>>,
        children: Seq<NodeView>,
        inline: Option<Seq<char>>,
    },
    Comment(Seq<char>),
    BlankLine,
    Opaque { leading: Seq<Seq<char>>, header: Seq<char>, body: Seq<char>, inline: Option<Seq<char>> },
}

pub open spec fn node_view(n: Node) -> NodeView
    decreases n,
{
    match n {
        Node::Directive(d) => NodeView::Directive {
            leading: strings_view(d.leading_comments@),
            name: d.name@,
            args: strings_view(d.args@),
            inline: opt_string_view(d.inline_comment),
        },
        Node::Block(b) => NodeView::Block {
            leading: strings_view(b.leading_comments@),
            name: b.name@,
            args: strings_view(b.args@),
            children: nodes_view(b.children@),
            inline: opt_string_view(b.inline_comment),
        },
        Node::Comment(c) => NodeView::Comment(c@),
        Node::BlankLine => NodeView::BlankLine,
        Node::OpaqueBlock(o) => NodeView::Opaque {
            leading: strings_view(o.leading_comments@),
            header: o.header@,
            body: o.body@,
            inline: opt_string_view(o.inline_comment),
        },
    }
}

pub open spec fn nodes_view(v: Seq<Node>) -> Seq<NodeView>
    decreases v,
{
    if v.len() == 0 {
        seq![]
    } else {
        seq![node_view(v[0])] + nodes_view(v.drop_first())
    }
}

pub proof fn lemma_nodes_view_len(v: Seq<Node>)
    ensures
        nodes_view(v).len() == v.len(),
    decreases v.len(),
{
    if v.len() > 0 {
        lemma_nodes_view_len(v.drop_first());
    }
}

pub proof fn lemma_nodes_view_index(v: Seq<Node>, k: int)
    requires
        0 <= k < v.len(),
    ensures
        nodes_view(v)[k] == node_view(v[k]),
    decreases v.len(),
{
    lemma_nodes_view_len(v.drop_first());
    if k > 0 {
        lemma_nodes_view_index(v.drop_first(), k - 1);
    }
}

pub proof fn lemma_nodes_view_push(v: Seq<Node>, n: Node)
    ensures
        nodes_view(v.push(n)) == nodes_view(v).push(node_view(n)),
    decreases v.len(),
{
    if v.len() == 0 {
        assert(v.push(n).drop_first() == Seq::<Node>::empty());
        assert(nodes_view(Seq::<Node>::empty()) == Seq::<NodeView>::empty());
    } else {
        assert(v.push(n).drop_first() == v.drop_first().push(n));
        lemma_nodes_view_push(v.drop_first(), n);
    }
}

fn clone_strings(v: &Vec<String>) -> (r: Vec<String>)
    ensures
        strings_view(r@) == strings_view(v@),
{
    let mut r: Vec<String> = Vec::new();
    let mut i: usize = 0;
    while i < v.len()
        invariant
            i <= v@.len(),
            r@.len() == i,
            forall|j: int| 0 <= j < i ==> r@[j]@ == v@[j]@,
        decreases v@.len() - i,
    {
        r.push(v[i].clone());
        i = i + 1;
    }
    assert(strings_view(r@) =~= strings_view(v@));
    r
}

fn clone_opt_string(o: &Option<String>) -> (r: Option<String>)
    ensures
        opt_string_view(r) == opt_string_view(*o),
{
    match o {
        Some(c) => Some(c.clone()),
        None => None,
    }
}

fn clone_node(n: &Node) -> (r: Node)
    ensures
        node_view(r) == node_view(*n),
    decreases n,
{
    match n {
        Node::Directive(d) => Node::Directive(
            Directive {
                leading_comments: clone_strings(&d.leading_comments),
                name: d.name.clone(),
                args: clone_strings(&d.args),
                inline_comment: clone_opt_string(&d.inline_comment),
            },
        ),
        Node::Block(b) => Node::Block(
            Block {
                leading_comments: clone_strings(&b.leading_comments),
                name: b.name.clone(),
                args: clone_strings(&b.args),
                children: clone_nodes(&b.children),
                inline_comment: clone_opt_string(&b.inline_comment),
            },
        ),
        Node::Comment(c) => Node::Comment(c.clone()),
        Node::BlankLine => Node::BlankLine,
        Node::OpaqueBlock(o) => Node::OpaqueBlock(
            OpaqueBlock {
                leading_comments: clone_strings(&o.leading_comments),
                header: o.header.clone(),
                body: o.body.clone(),
                inline_comment: clone_opt_string(&o.inline_comment),
            },
        ),
    }
}

fn clone_nodes(v: &Vec<Node>) -> (r: Vec<Node>)
    ensures
        nodes_view(r@) == nodes_view(v@),
    decreases v,
{
    let mut r: Vec<Node> = Vec::new();
    let mut i: usize = 0;
    while i < v.len()
        invariant
            i <= v@.len(),
            r@.len() == i,
            forall|j: int| 0 <= j < i ==> node_view(#[trigger] r@[j]) == node_view(v@[j]),
        decreases v@.len() - i,
    {
        assert(decreases_to!(v => v@[i as int]));
        r.push(clone_node(&v[i]));
        i = i + 1;
    }
    proof {
        lemma_nodes_view_len(r@);
        lemma_nodes_view_len(v@);
        assert forall|k: int| 0 <= k < r@.len() implies nodes_view(r@)[k] == nodes_view(v@)[k] by {
            lemma_nodes_view_index(r@, k);
            lemma_nodes_view_index(v@, k);
        }
        assert(nodes_view(r@) =~= nodes_view(v@));
    }
    r
}

impl Clone for Node {
    /// A copy of the node, equal to it in every field at every depth.
    fn clone(&self) -> (r: Self)
        ensures
            node_view(r) == node_view(*self),
    {
        clone_node(self)
    }
}

impl Clone for Block {
    /// A copy of the block, equal to it in every field at every depth.
    fn clone(&self) -> (r: Self)
        ensures
            node_view(Node::Block(r)) == node_view(Node::Block(*self)),
    {
        Block {
            leading_comments: clone_strings(&self.leading_comments),
            name: self.name.clone(),
            args: clone_strings(&self.args),
            children: clone_nodes(&self.children),
            inline_comment: clone_opt_string(&self.inline_comment),
        }
    }
}


impl Directive {
    pub fn new(name: String, args: Vec<String>) -> (d: Self)
        ensures
            d.leading_comments@.len() == 0,
            d.name@ == name@,
            d.args@ == args@,
            d.inline_comment is None,
    {
        Self { leading_comments: Vec::new(), name, args, inline_comment: None }
    }
}

impl Block {
    pub fn new(name: String, args: Vec<String>, children: Vec<Node>) -> (b: Self)
        ensures
            b.leading_comments@.len() == 0,
            b.name@ == name@,
            b.args@ == args@,
            b.children@ == children@,
            b.inline_comment is None,
    {
        Self { leading_comments: Vec::new(), name, args, children, inline_comment: None }
    }
}

impl OpaqueBlock {
    pub fn new(header: String, body: String) -> (o: Self)
        ensures
            o.leading_comments@.len() == 0,
            o.header@ == header@,
            o.body@ == body@,
            o.inline_comment is None,
    {
        Self { leading_comments: Vec::new(), header, body, inline_comment: None }
    }
}

/// The suffix that marks a directive whose block holds Lua code.
pub open spec fn lua_suffix() -> Seq<char> {
    "_by_lua_block"@
}

/// Whether `name` ends with `_by_lua_block`.
pub open spec fn is_lua_name(name: Seq<char>) -> bool {
    name.len() >= lua_suffix().len() && name.subrange(
        name.len() - lua_suffix().len(),
        name.len() as int,
    ) == lua_suffix()
}

pub fn is_lua_block_name(name: &str) -> (b: bool)
    ensures
        b == is_lua_name(name@),
{
    let n = str_chars(name);
    let suffix = str_chars("_by_lua_block");
    if n.len() < suffix.len() {
        return false;
    }
    let offset = n.len() - suffix.len();
    let mut k: usize = 0;
    while k < suffix.len()
        invariant
            k <= suffix@.len(),
            offset as int + suffix@.len() == n@.len(),
            suffix@ == lua_suffix(),
            n@ == name@,
            forall|j: int| 0 <= j < k ==> n@[offset + j] == suffix@[j],
        decreases suffix@.len() - k,
    {
        assert(offset + k < n.len());
        if n[offset + k] != suffix[k] {
            proof {
                assert(name@.subrange(offset as int, name@.len() as int)[k as int] != lua_suffix()[k as int]);
            }
            return false;
        }
        k = k + 1;
    }
    assert(name@.subrange(offset as int, name@.len() as int) =~= lua_suffix());
    true
}

} // verus!
