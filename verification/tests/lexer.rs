use nginxfmt::lexer::{Lexer, TokenKind};
use nginxfmt::FormatError;

fn kinds(input: &str) -> Vec<TokenKind> {
    Lexer::new(input)
        .tokenize()
        .unwrap()
        .into_iter()
        .map(|t| t.kind)
        .collect()
}

#[test]
fn tokenizes_directive() {
    assert_eq!(
        kinds("worker_processes 4;"),
        vec![TokenKind::Ident, TokenKind::Ident, TokenKind::Semicolon]
    );
}

#[test]
fn tokenizes_block() {
    assert_eq!(
        kinds("server {\n    listen 80;\n}"),
        vec![
            TokenKind::Ident,
            TokenKind::LBrace,
            TokenKind::Newline,
            TokenKind::Ident,
            TokenKind::Ident,
            TokenKind::Semicolon,
            TokenKind::Newline,
            TokenKind::RBrace
        ]
    );
}

#[test]
fn tokenizes_comments_and_strings() {
    assert_eq!(
        kinds(r#"root "/var/www"; # inline"#),
        vec![
            TokenKind::Ident,
            TokenKind::String,
            TokenKind::Semicolon,
            TokenKind::Comment
        ]
    );
}

#[test]
fn tokenizes_regex_location() {
    let tokens = Lexer::new("location ~ ^/api/.* { }").tokenize().unwrap();
    let texts: Vec<_> = tokens.iter().map(|t| t.text.as_str()).collect();
    assert!(texts.contains(&"location"));
    assert!(texts.contains(&"~"));
    assert!(texts.contains(&"^/api/.*"));
}

#[test]
fn token_spans_count_bytes_lines_and_columns() {
    let tokens = Lexer::new("a é;\n  b").tokenize().unwrap();
    assert_eq!(tokens.len(), 5);
    assert_eq!(tokens[1].text, "é");
    assert_eq!((tokens[1].span.start, tokens[1].span.end), (2, 4));
    assert_eq!((tokens[2].span.start, tokens[2].span.end), (4, 5));
    assert_eq!(tokens[3].kind, TokenKind::Newline);
    assert_eq!(tokens[4].text, "b");
    assert_eq!((tokens[4].span.line, tokens[4].span.column), (2, 3));
    assert_eq!(tokens[4].span.start, 8);
}

#[test]
fn quoted_strings_keep_quotes_and_escapes() {
    let tokens = Lexer::new(r#"x 'a\'b' "c d";"#).tokenize().unwrap();
    assert_eq!(tokens[1].kind, TokenKind::String);
    assert_eq!(tokens[1].text, r#"'a\'b'"#);
    assert_eq!(tokens[2].text, "\"c d\"");
}

#[test]
fn unterminated_string_is_reported_where_the_line_ends() {
    match Lexer::new("a \"bc\nd").tokenize() {
        Err(FormatError::Parse { line, column, message }) => {
            assert_eq!((line, column), (1, 6));
            assert_eq!(message, "unterminated string literal");
        }
        other => panic!("unexpected result {:?}", other),
    }
}

#[test]
fn unterminated_string_at_end_of_input() {
    match Lexer::new("a 'bc").tokenize() {
        Err(FormatError::Parse { line, column, message }) => {
            assert_eq!((line, column), (1, 6));
            assert_eq!(message, "unterminated string literal");
        }
        other => panic!("unexpected result {:?}", other),
    }
}

#[test]
fn trailing_backslash_in_string_is_an_unterminated_escape() {
    match Lexer::new("a 'b\\").tokenize() {
        Err(FormatError::Parse { line, column, message }) => {
            assert_eq!((line, column), (1, 6));
            assert_eq!(message, "unterminated escape in string");
        }
        other => panic!("unexpected result {:?}", other),
    }
}

#[test]
fn carriage_returns_and_tabs_separate_words() {
    assert_eq!(
        kinds("a\t\rb;"),
        vec![TokenKind::Ident, TokenKind::Ident, TokenKind::Semicolon]
    );
}

#[test]
fn lua_code_is_one_token() {
    let tokens = Lexer::new("content_by_lua_block {  ngx.say(\"}\") -- }\n}\nx;")
        .tokenize()
        .unwrap();
    let kinds: Vec<TokenKind> = tokens.iter().map(|t| t.kind).collect();
    assert_eq!(
        kinds,
        vec![
            TokenKind::Ident,
            TokenKind::LBrace,
            TokenKind::LuaBody,
            TokenKind::RBrace,
            TokenKind::Newline,
            TokenKind::Ident,
            TokenKind::Semicolon
        ]
    );
    assert_eq!(tokens[2].text, "ngx.say(\"}\") -- }\n");
    assert_eq!((tokens[2].span.line, tokens[2].span.column), (1, 25));
    assert_eq!((tokens[3].span.line, tokens[3].span.column), (2, 1));
}

#[test]
fn lua_name_as_a_later_word_opens_a_plain_block() {
    assert_eq!(
        kinds("location content_by_lua_block { a \"b\"; }"),
        vec![
            TokenKind::Ident,
            TokenKind::Ident,
            TokenKind::LBrace,
            TokenKind::Ident,
            TokenKind::String,
            TokenKind::Semicolon,
            TokenKind::RBrace
        ]
    );
}
