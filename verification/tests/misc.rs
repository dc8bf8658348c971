use nginxfmt::ast::{is_lua_block_name, Block, Directive, Node, OpaqueBlock};
use nginxfmt::error::Span;
use nginxfmt::wasm;
use nginxfmt::FormatError;

#[test]
fn lua_block_names() {
    assert!(is_lua_block_name("content_by_lua_block"));
    assert!(is_lua_block_name("_by_lua_block"));
    assert!(!is_lua_block_name("content_by_lua"));
    assert!(!is_lua_block_name("by_lua_block"));
    assert!(!is_lua_block_name("content_by_lua_block_x"));
}

#[test]
fn node_constructors() {
    let d = Directive::new("listen".to_string(), vec!["80".to_string()]);
    assert_eq!(d.name, "listen");
    assert!(d.leading_comments.is_empty() && d.inline_comment.is_none());
    let b = Block::new("server".to_string(), vec![], vec![Node::Directive(d)]);
    assert_eq!(b.children.len(), 1);
    let o = OpaqueBlock::new("x_by_lua_block".to_string(), "y".to_string());
    assert_eq!((o.header.as_str(), o.body.as_str()), ("x_by_lua_block", "y"));
}

#[test]
fn span_text() {
    let s = Span::new(12, 345, 6, 7890);
    assert_eq!(s.describe(), "line 6, column 7890 (bytes 12..345)");
    assert_eq!(Span::new(0, 0, 1, 1).describe(), "line 1, column 1 (bytes 0..0)");
}

#[test]
fn parse_error_constructor() {
    match FormatError::parse(3, 4, "bad".to_string()) {
        FormatError::Parse { line, column, message } => {
            assert_eq!((line, column, message.as_str()), (3, 4, "bad"))
        }
        other => panic!("unexpected {:?}", other),
    }
}

#[test]
fn web_options_by_name() {
    let out = wasm::format("a { b; }", "tabs", 4, "next_line", 1, true, true).unwrap();
    assert_eq!(out, "a\n{\n\tb;\n}\n");
    let out = wasm::format("a { b; }", "other", 2, "same", 1, false, true).unwrap();
    assert_eq!(out, "a {\n  b;\n}");
    assert!(wasm::format("a {", "tabs", 4, "next_line", 1, true, true).is_err());
}

#[test]
fn cloned_block_keeps_its_children() {
    let inner = Node::Directive(Directive::new("listen".to_string(), vec!["80".to_string()]));
    let mut block = Block::new("server".to_string(), vec![], vec![inner, Node::BlankLine]);
    block.inline_comment = Some("# edge".to_string());
    block.leading_comments.push("# front".to_string());
    let node = Node::Block(block.clone());
    assert_eq!(node.clone(), node);
    assert_eq!(Node::Block(block.clone()), node);
    match node.clone() {
        Node::Block(b) => {
            assert_eq!(b.children.len(), 2);
            assert_eq!(b.inline_comment.as_deref(), Some("# edge"));
            assert_eq!(b.leading_comments, vec!["# front".to_string()]);
        }
        _ => panic!("expected a block"),
    }
}
