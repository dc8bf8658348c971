use nginxfmt::cli::{Action, BraceStyleArg, Cli, ShellArg};
use nginxfmt::config::{BraceStyle, Config, IndentStyle};
use nginxfmt::FormatError;

fn cli_with_file(file: Option<&str>) -> Cli {
    Cli {
        file: file.map(|f| f.to_string()),
        write: false,
        check: false,
        config: None,
        tabs: false,
        spaces: false,
        indent_width: None,
        brace_style: None,
        max_blank_lines: None,
        trailing_newline: false,
        no_trailing_newline: false,
        preserve_inline_comments: false,
        no_preserve_inline_comments: false,
        generate_completions: None,
    }
}

#[test]
fn cli_overrides_tabs() {
    let cli = Cli {
        tabs: true,
        ..cli_with_file(Some("nginx.conf"))
    };
    let overrides = cli.cli_overrides();
    assert_eq!(overrides.indent_style, Some(IndentStyle::Tabs));
}

#[test]
fn cli_overrides_pairs_of_flags() {
    let cli = Cli {
        spaces: true,
        indent_width: Some(2),
        brace_style: Some(BraceStyleArg::NextLine),
        max_blank_lines: Some(3),
        trailing_newline: true,
        no_trailing_newline: true,
        no_preserve_inline_comments: true,
        generate_completions: Some(ShellArg::Zsh),
        ..cli_with_file(None)
    };
    let o = cli.cli_overrides();
    assert_eq!(o.indent_style, Some(IndentStyle::Spaces));
    assert_eq!(o.indent_width, Some(2));
    assert_eq!(o.brace_style, Some(BraceStyle::NextLine));
    assert_eq!(o.max_blank_lines, Some(3));
    assert_eq!(o.trailing_newline, None);
    assert_eq!(o.preserve_inline_comments, Some(false));
    assert_eq!(BraceStyle::from(BraceStyleArg::SameLine), BraceStyle::SameLine);
}

#[test]
fn check_accepts_formatted_input_with_crlf() {
    let cli = Cli {
        check: true,
        ..cli_with_file(Some("-"))
    };
    let out = cli
        .decide("server {\r\n    listen 80;\r\n}\r\n", &Config::default())
        .unwrap();
    assert!(matches!(out, Action::Done));
}

#[test]
fn check_rejects_unformatted_input() {
    let cli = Cli {
        check: true,
        ..cli_with_file(Some("-"))
    };
    match cli.decide("server{listen 80;}", &Config::default()) {
        Err(FormatError::Config(m)) => {
            assert_eq!(m, "file is not formatted according to current options")
        }
        other => panic!("unexpected {:?}", other),
    }
}

#[test]
fn write_needs_a_real_file() {
    let stdin = Cli {
        write: true,
        ..cli_with_file(Some("-"))
    };
    match stdin.decide("a 1;", &Config::default()) {
        Err(FormatError::Config(m)) => {
            assert_eq!(m, "cannot write to stdin; omit --write to print to stdout")
        }
        other => panic!("unexpected {:?}", other),
    }
    let none = Cli {
        write: true,
        ..cli_with_file(None)
    };
    match none.decide("a 1;", &Config::default()) {
        Err(FormatError::Config(m)) => assert_eq!(m, "--write requires a file path"),
        other => panic!("unexpected {:?}", other),
    }
    let file = Cli {
        write: true,
        ..cli_with_file(Some("nginx.conf"))
    };
    match file.decide("server{listen 80;}", &Config::default()) {
        Ok(Action::Write { path, text }) => {
            assert_eq!(path, "nginx.conf");
            assert_eq!(text, "server {\n    listen 80;\n}\n");
        }
        other => panic!("unexpected {:?}", other),
    }
}

#[test]
fn prints_by_default() {
    let cli = cli_with_file(None);
    match cli.decide("server { listen 80; }", &Config::default()) {
        Ok(Action::Print(text)) => assert!(text.contains("listen 80;")),
        other => panic!("unexpected {:?}", other),
    }
}

#[test]
fn check_accepts_what_the_formatter_wrote() {
    let input = "http {\n# c\nserver { listen 80; # port 80\n content_by_lua_block { return 1 } }\n\n\n}\n";
    for next_line in [false, true] {
        for trailing in [false, true] {
            for preserve in [false, true] {
                let config = Config {
                    brace_style: if next_line { BraceStyle::NextLine } else { BraceStyle::SameLine },
                    trailing_newline: trailing,
                    preserve_inline_comments: preserve,
                    ..Config::default()
                };
                let printer = cli_with_file(Some("nginx.conf"));
                let out = match printer.decide(input, &config) {
                    Ok(Action::Print(text)) => text,
                    _ => panic!("expected printed output"),
                };
                let checker = Cli {
                    check: true,
                    ..cli_with_file(Some("nginx.conf"))
                };
                assert!(matches!(checker.decide(&out, &config), Ok(Action::Done)));
            }
        }
    }
}
