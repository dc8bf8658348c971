use nginxfmt::config::{BraceStyle, Config, IndentStyle};
use nginxfmt::formatter::Formatter;
use nginxfmt::parser::Parser;
use nginxfmt::{format_str, normalize_line_endings, FormatError};

#[test]
fn round_trip_basic_server_block() {
    let input = "server{listen 80;server_name example.com;}";
    let formatted = format_str(input, &Config::default()).unwrap();
    assert!(formatted.contains("server {\n"));
    assert!(formatted.contains("listen 80;\n"));
    assert!(formatted.contains("server_name example.com;\n"));
}

const BASIC_CONF: &str = "user  nginx;\nworker_processes auto;\n\nevents {\n  worker_connections 1024;\n}\n\n\nhttp {\n  include mime.types;\n  # servers\n  server {\n      listen 80; # plain\n      server_name example.com www.example.com;\n      location / { root /usr/share/nginx/html; index index.html; }\n      location ~ \\.php$ {\n        fastcgi_pass 127.0.0.1:9000;\n      }\n  }\n}\n";

#[test]
fn idempotent_default_config() {
    let input = BASIC_CONF;
    let once = format_str(input, &Config::default()).unwrap();
    let twice = format_str(&once, &Config::default()).unwrap();
    assert_eq!(once, twice);
}

#[test]
fn respects_indent_width_option() {
    let input = "server { listen 80; }";
    let config = Config {
        indent_width: 2,
        ..Config::default()
    };
    let formatted = format_str(input, &config).unwrap();
    assert!(formatted.contains("  listen 80;\n"));
}

#[test]
fn respects_brace_style_option() {
    let input = "server { listen 80; }";
    let config = Config {
        brace_style: BraceStyle::NextLine,
        ..Config::default()
    };
    let formatted = format_str(input, &config).unwrap();
    assert!(formatted.contains("server\n"));
    assert!(formatted.contains("{\n"));
}

#[test]
fn respects_tabs_option() {
    let input = "server { listen 80; }";
    let config = Config {
        indent_style: IndentStyle::Tabs,
        ..Config::default()
    };
    let formatted = format_str(input, &config).unwrap();
    assert!(formatted.contains("\tlisten 80;\n"));
}

#[test]
fn option_matrix_brace_styles() {
    let input = "server { listen 80; }";

    let same_line = format_str(
        input,
        &Config {
            brace_style: BraceStyle::SameLine,
            ..Config::default()
        },
    )
    .unwrap();
    assert!(same_line.contains("server {\n"));

    let next_line = format_str(
        input,
        &Config {
            brace_style: BraceStyle::NextLine,
            ..Config::default()
        },
    )
    .unwrap();
    assert!(next_line.contains("server\n{\n"));
}

#[test]
fn option_matrix_indent_styles() {
    let input = "server { listen 80; }";

    let spaces = format_str(
        input,
        &Config {
            indent_style: IndentStyle::Spaces,
            indent_width: 2,
            ..Config::default()
        },
    )
    .unwrap();
    assert!(spaces.contains("  listen 80;\n"));

    let tabs = format_str(
        input,
        &Config {
            indent_style: IndentStyle::Tabs,
            ..Config::default()
        },
    )
    .unwrap();
    assert!(tabs.contains("\tlisten 80;\n"));
}

#[test]
fn basic_conf_formats_exactly() {
    let once = format_str(BASIC_CONF, &Config::default()).unwrap();
    assert_eq!(
        once,
        "user nginx;\nworker_processes auto;\n\nevents {\n    worker_connections 1024;\n}\n\nhttp {\n    include mime.types;\n    # servers\n    server {\n        listen 80; # plain\n        server_name example.com www.example.com;\n        location / {\n            root /usr/share/nginx/html;\n            index index.html;\n        }\n        location ~ \\.php$ {\n            fastcgi_pass 127.0.0.1:9000;\n        }\n    }\n}\n"
    );
}

#[test]
fn snippets_are_idempotent_under_many_options() {
    let snippets = [
        "worker_processes 1;",
        "events { worker_connections 1024; }",
        "server { listen 80; location / { root /var/www; } }",
        "http { include mime.types; sendfile on; }",
    ];
    for tabs in [false, true] {
        for width in 1u8..=8 {
            for next_line in [false, true] {
                for max_blank in 1u8..=3 {
                    for trailing in [false, true] {
                        for preserve in [false, true] {
                            let config = Config {
                                indent_style: if tabs { IndentStyle::Tabs } else { IndentStyle::Spaces },
                                indent_width: width,
                                brace_style: if next_line { BraceStyle::NextLine } else { BraceStyle::SameLine },
                                max_blank_lines: max_blank,
                                trailing_newline: trailing,
                                preserve_inline_comments: preserve,
                            };
                            for input in snippets {
                                let once = format_str(input, &config).unwrap();
                                let twice = format_str(&once, &config).unwrap();
                                assert_eq!(once, twice);
                            }
                        }
                    }
                }
            }
        }
    }
}

#[test]
fn crlf_input_formats_like_lf_input() {
    let lf = format_str("a 1;\n\nb { c 2; }\n", &Config::default()).unwrap();
    let crlf = format_str("a 1;\r\n\r\nb { c 2; }\r\n", &Config::default()).unwrap();
    assert_eq!(lf, crlf);
}

#[test]
fn normalizes_all_line_endings() {
    assert_eq!(normalize_line_endings("a\r\nb\rc\n\r\r\n"), "a\nb\nc\n\n\n");
}

#[test]
fn parse_errors_pass_through() {
    match format_str("a {", &Config::default()) {
        Err(FormatError::Parse { line, column, message }) => {
            assert_eq!((line, column), (1, 1));
            assert_eq!(message, "expected '}'");
        }
        other => panic!("unexpected result {:?}", other),
    }
}

fn all_configs() -> Vec<Config> {
    let mut configs = Vec::new();
    for tabs in [false, true] {
        for width in [0u8, 1, 4] {
            for next_line in [false, true] {
                for max_blank in 0u8..=2 {
                    for trailing in [false, true] {
                        for preserve in [false, true] {
                            configs.push(Config {
                                indent_style: if tabs { IndentStyle::Tabs } else { IndentStyle::Spaces },
                                indent_width: width,
                                brace_style: if next_line { BraceStyle::NextLine } else { BraceStyle::SameLine },
                                max_blank_lines: max_blank,
                                trailing_newline: trailing,
                                preserve_inline_comments: preserve,
                            });
                        }
                    }
                }
            }
        }
    }
    configs
}

#[test]
fn comments_blank_lines_and_lua_blocks_are_idempotent() {
    let inputs = [
        "# header\nuser nginx; # who\n\n\n\nhttp {\n\n  # inner\n  server { listen 80;   }\n\n\n}\n# trailing\n",
        "location / {\n    content_by_lua_block {\n        local s = \"}\"  -- a brace in a string\n        if x then { y } end\n    }\n}\n",
        "access_by_lua_block {return 1}\nx 'a b' \"c;d\";\n\n",
        "a;\n# only comments follow\n# here",
        "rewrite_by_lua_block {\r\n  local t = {}\r\n\r\n}   \r\n",
        "",
        "\n\n",
        "events {}\n\n\n",
    ];
    for config in all_configs() {
        for input in inputs {
            let once = format_str(input, &config).unwrap();
            let twice = format_str(&once, &config).unwrap();
            assert_eq!(once, twice, "input {:?} under {:?}", input, config);
        }
    }
}

#[test]
fn leading_blank_line_does_not_survive_a_second_pass() {
    let config = Config::default();
    let once = format_str("# a\n\nlisten 80;", &config).unwrap();
    assert_eq!(once, "\n# a\nlisten 80;\n");
    let twice = format_str(&once, &config).unwrap();
    assert_eq!(twice, "# a\nlisten 80;\n");
    for config in all_configs() {
        for input in ["# a\n\nlisten 80;", "# a\n\n\n\nb { c; }\n\n"] {
            let once = format_str(input, &config).unwrap();
            let twice = format_str(&once, &config).unwrap();
            if config.max_blank_lines > 0 {
                assert_eq!(twice, &once[1..], "input {:?} under {:?}", input, config);
            } else {
                assert_eq!(twice, once, "input {:?} under {:?}", input, config);
            }
        }
    }
}

#[test]
fn nested_lua_body_keeps_its_own_indentation() {
    let out = format_str(
        "server {\ncontent_by_lua_block {\n  local a = 1\n      return a\n}\n}",
        &Config::default(),
    )
    .unwrap();
    assert_eq!(out, "server {\n    content_by_lua_block {\n  local a = 1\n      return a\n    }\n}\n");
}

#[test]
fn output_without_trailing_newline_is_output_with_it_trimmed() {
    let input = "events {\n  worker_connections 1024;\n}\n\n\n";
    let with = Config::default();
    let without = Config { trailing_newline: false, ..Config::default() };
    let a = format_str(input, &with).unwrap();
    let b = format_str(input, &without).unwrap();
    assert_eq!(a, "events {\n    worker_connections 1024;\n}\n\n");
    assert_eq!(b, "events {\n    worker_connections 1024;\n}");
    assert_eq!(b, a.trim_end_matches('\n'));
}

#[test]
fn dropping_inline_comments_is_formatting_without_them() {
    let input = "server {\n    listen 80; # l\n    root /x; # r\n}\n";
    let dropping = Config { preserve_inline_comments: false, ..Config::default() };
    let nodes = Parser::parse(input).unwrap();
    let dropped = Formatter::new(&dropping).format(&nodes);
    let stripped = Parser::parse("server {\n    listen 80;\n    root /x;\n}\n").unwrap();
    let kept = Formatter::new(&Config::default()).format(&stripped);
    assert_eq!(dropped, kept);
    assert_eq!(dropped, "server {\n    listen 80;\n    root /x;\n}\n");
}

#[test]
fn no_more_empty_lines_in_a_row_than_the_maximum() {
    let input = "a 1;\n\n\n\nserver {\n\n\n    listen 80;\n\n\n\n}\n\n\n# c\n";
    let out = format_str(input, &Config::default()).unwrap();
    assert_eq!(out, "a 1;\n\nserver {\n\n    listen 80;\n\n}\n\n# c\n");
    assert!(!out.contains("\n\n\n"));
    let two = Config { max_blank_lines: 2, ..Config::default() };
    let out2 = format_str(input, &two).unwrap();
    assert!(out2.contains("a 1;\n\n\nserver"));
    assert!(!out2.contains("\n\n\n\n"));
}

#[test]
fn lua_code_with_braces_and_quotes_is_kept_verbatim() {
    let input = "content_by_lua_block {\n    ngx.say(\"{\")\n}\n";
    assert_eq!(format_str(input, &Config::default()).unwrap(), input);
    let tricky = "server {\n  access_by_lua_block {\n    local t = { '}' } -- a } in a comment\n    if x then ngx.say(\"\\\"}\") end\n  }\n}\n";
    let out = format_str(tricky, &Config::default()).unwrap();
    assert_eq!(
        out,
        "server {\n    access_by_lua_block {\n    local t = { '}' } -- a } in a comment\n    if x then ngx.say(\"\\\"}\") end\n    }\n}\n"
    );
    assert_eq!(format_str(&out, &Config::default()).unwrap(), out);
}

#[test]
fn lua_block_whose_brace_stands_in_a_string_is_unclosed() {
    match format_str("content_by_lua_block {\n    ngx.say(\"}\")\n", &Config::default()) {
        Err(FormatError::Parse { line, column, message }) => {
            assert_eq!((line, column), (1, 1));
            assert_eq!(message, "unterminated opaque block");
        }
        other => panic!("unexpected result {:?}", other),
    }
}

#[test]
fn long_lua_strings_and_comments_hide_their_braces() {
    let input = "content_by_lua_block {\n    --[[ a } in\n    a long comment ]]\n    local s = [==[ } ]] } ]==]\n    local t = x[y]\n}\n";
    assert_eq!(format_str(input, &Config::default()).unwrap(), input);
}
