use nginxfmt::ast::Node;
use nginxfmt::parser::Parser;
use nginxfmt::FormatError;

#[test]
fn parses_simple_directive() {
    let nodes = Parser::parse("worker_processes 4;").unwrap();
    assert_eq!(nodes.len(), 1);
    match &nodes[0] {
        Node::Directive(d) => {
            assert_eq!(d.name, "worker_processes");
            assert_eq!(d.args, vec!["4"]);
        }
        _ => panic!("expected directive"),
    }
}

#[test]
fn parses_nested_blocks() {
    let nodes = Parser::parse(
        r#"
server {
    location / {
        proxy_pass http://backend;
    }
}
"#,
    )
    .unwrap();
    assert_eq!(nodes.len(), 1);
    match &nodes[0] {
        Node::Block(server) => {
            assert_eq!(server.name, "server");
            assert_eq!(server.children.len(), 1);
        }
        _ => panic!("expected block"),
    }
}

#[test]
fn parses_lua_block_as_opaque() {
    let nodes = Parser::parse(
        r#"
content_by_lua_block {
    ngx.say("hello")
}
"#,
    )
    .unwrap();
    match &nodes[0] {
        Node::OpaqueBlock(block) => {
            assert!(block.header.contains("content_by_lua_block"));
            assert!(block.body.contains("ngx.say"));
        }
        _ => panic!("expected opaque block"),
    }
}

#[test]
fn parses_trailing_comments() {
    let nodes = Parser::parse("server { listen 80; }\n# trailing\n").unwrap();
    assert_eq!(nodes.len(), 2);
    match &nodes[1] {
        Node::Comment(text) => assert_eq!(text, "# trailing"),
        _ => panic!("expected trailing comment"),
    }
}

#[test]
fn parses_comment_before_closing_brace() {
    let nodes = Parser::parse("server { listen 80;\n# note\n}").unwrap();
    match &nodes[0] {
        Node::Block(block) => {
            assert_eq!(block.children.len(), 2);
            match &block.children[1] {
                Node::Comment(text) => assert_eq!(text, "# note"),
                _ => panic!("expected comment before brace"),
            }
        }
        _ => panic!("expected block"),
    }
}

#[test]
fn parses_comment_only_file() {
    let nodes = Parser::parse("# just a comment\n").unwrap();
    assert_eq!(nodes.len(), 1);
    match &nodes[0] {
        Node::Comment(text) => assert_eq!(text, "# just a comment"),
        _ => panic!("expected comment-only node"),
    }
}

fn parse_error(input: &str) -> (usize, usize, String) {
    match Parser::parse(input) {
        Err(FormatError::Parse { line, column, message }) => (line, column, message),
        other => panic!("expected a parse error, got {:?}", other),
    }
}

#[test]
fn leading_and_inline_comments_attach_to_statements() {
    let nodes = Parser::parse("# a\n# b\nlisten 80; # c\nx 1 # d\n;").unwrap_err();
    match nodes {
        FormatError::Parse { line, column, .. } => assert_eq!((line, column), (4, 8)),
        other => panic!("unexpected error {:?}", other),
    }
    let nodes = Parser::parse("# a\n# b\nlisten 80; # c\n").unwrap();
    assert_eq!(nodes.len(), 1);
    match &nodes[0] {
        Node::Directive(d) => {
            assert_eq!(d.leading_comments, vec!["# a", "# b"]);
            assert_eq!(d.inline_comment.as_deref(), Some("# c"));
        }
        _ => panic!("expected directive"),
    }
}

#[test]
fn blank_lines_become_nodes() {
    let nodes = Parser::parse("a 1;\n\n\nb 2;\n").unwrap();
    assert_eq!(nodes.len(), 4);
    assert_eq!(nodes[1], Node::BlankLine);
    assert_eq!(nodes[2], Node::BlankLine);
}

#[test]
fn missing_semicolon_is_an_error() {
    assert_eq!(
        parse_error("listen 80\n}"),
        (2, 1, "expected ';' or '{' after 'listen 80'".to_string())
    );
}

#[test]
fn missing_semicolon_at_end_of_input() {
    assert_eq!(
        parse_error("listen 80"),
        (1, 1, "expected ';' or '{' after 'listen 80'".to_string())
    );
}

#[test]
fn unexpected_token_is_an_error() {
    assert_eq!(
        parse_error("a;\n  ;"),
        (2, 3, "unexpected token ';'".to_string())
    );
}

#[test]
fn unclosed_block_is_an_error() {
    assert_eq!(
        parse_error("server { listen 80;"),
        (1, 1, "expected '}'".to_string())
    );
}

#[test]
fn unclosed_lua_block_is_an_error() {
    assert_eq!(
        parse_error("content_by_lua_block { a {"),
        (1, 1, "unterminated opaque block".to_string())
    );
}

#[test]
fn lua_body_is_kept_verbatim() {
    let nodes = Parser::parse("x_by_lua_block a { if x { y } }").unwrap();
    match &nodes[0] {
        Node::OpaqueBlock(block) => {
            assert_eq!(block.header, "x_by_lua_block a");
            assert_eq!(block.body, "if x { y } ");
        }
        _ => panic!("expected opaque block"),
    }
}

#[test]
fn stray_closing_brace_ends_the_input() {
    let nodes = Parser::parse("a 1;\n}\nb 2;").unwrap();
    assert_eq!(nodes.len(), 1);
}
