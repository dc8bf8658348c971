use nginxfmt::config::{BraceStyle, Config, IndentStyle};
use nginxfmt::formatter::Formatter;
use nginxfmt::parser::Parser;

fn format_with(input: &str, config: Config) -> String {
    let nodes = Parser::parse(input).unwrap();
    Formatter::new(&config).format(&nodes)
}

#[test]
fn formats_same_line_braces() {
    let output = format_with("server{listen 80;}", Config::default());
    assert!(output.contains("server {\n"));
    assert!(output.contains("    listen 80;\n"));
}

#[test]
fn formats_next_line_braces() {
    let config = Config {
        brace_style: BraceStyle::NextLine,
        ..Config::default()
    };
    let output = format_with("server{listen 80;}", config);
    assert!(output.contains("server\n"));
    assert!(output.contains("{\n"));
}

#[test]
fn formats_with_tabs() {
    let config = Config {
        indent_style: IndentStyle::Tabs,
        ..Config::default()
    };
    let output = format_with("server { listen 80; }", config);
    assert!(output.contains("\tlisten 80;\n"));
}

#[test]
fn formats_whole_output_exactly() {
    let output = format_with(
        "http{\n# web\nserver {listen 80;   # port\nlocation / { root /var/www; }}}",
        Config::default(),
    );
    assert_eq!(
        output,
        "http {\n    # web\n    server {\n        listen 80; # port\n        location / {\n            root /var/www;\n        }\n    }\n}\n"
    );
}

#[test]
fn blank_lines_are_collapsed_to_the_maximum() {
    let output = format_with("a 1;\n\n\n\nb 2;", Config::default());
    assert_eq!(output, "a 1;\n\nb 2;\n");
    let two = Config {
        max_blank_lines: 2,
        ..Config::default()
    };
    assert_eq!(format_with("a 1;\n\n\n\nb 2;", two), "a 1;\n\n\nb 2;\n");
    let none = Config {
        max_blank_lines: 0,
        ..Config::default()
    };
    assert_eq!(format_with("a 1;\n\n\n\nb 2;", none), "a 1;\nb 2;\n");
}

#[test]
fn inline_comments_can_be_dropped() {
    let config = Config {
        preserve_inline_comments: false,
        ..Config::default()
    };
    assert_eq!(format_with("a 1; # note\n", config), "a 1;\n");
}

#[test]
fn trailing_newline_can_be_omitted() {
    let config = Config {
        trailing_newline: false,
        ..Config::default()
    };
    assert_eq!(format_with("a 1;\n\n", config), "a 1;");
}

#[test]
fn empty_input_gives_a_single_newline() {
    assert_eq!(format_with("", Config::default()), "\n");
}

#[test]
fn lua_block_body_is_kept_and_rewrapped() {
    let output = format_with(
        "  access_by_lua_block {\r\n  local x = 1\n    ngx.say(x)   \n}",
        Config::default(),
    );
    assert_eq!(output, "access_by_lua_block {\n  local x = 1\n    ngx.say(x)\n}\n");
}

#[test]
fn next_line_braces_with_indent_width_two() {
    let config = Config {
        brace_style: BraceStyle::NextLine,
        indent_width: 2,
        ..Config::default()
    };
    assert_eq!(
        format_with("a { b { c; } }", config),
        "a\n{\n  b\n  {\n    c;\n  }\n}\n"
    );
}

#[test]
fn blank_line_after_a_block_is_kept() {
    let config = Config {
        max_blank_lines: 1,
        ..Config::default()
    };
    assert_eq!(
        format_with("a {\n b;\n\n}\n\nc;", config),
        "a {\n    b;\n\n}\n\nc;\n"
    );
}

#[test]
fn blank_line_after_a_server_block_is_kept() {
    assert_eq!(
        format_with("server {\n    listen 80;\n\n}\n\nroot /x;", Config::default()),
        "server {\n    listen 80;\n\n}\n\nroot /x;\n"
    );
}

#[test]
fn blank_line_limit_holds_for_text_with_carriage_returns() {
    let nodes = Parser::parse("a 1;\r\n\r\n\r\n\r\nserver {\r\n\r\n\r\n  b 2; # c\r\r\n}\r\n").unwrap();
    let out = Formatter::new(&Config::default()).format(&nodes);
    assert!(!out.contains("\n\n\n"));
    assert_eq!(out, "a 1;\n\nserver {\n\n    b 2; # c\r\r\n}\n");
}
