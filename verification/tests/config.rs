use nginxfmt::config::{
    default_indent_width, default_max_blank_lines, default_true, BraceStyle, CliOverrides, Config,
    IndentStyle, CONFIG_FILE_NAME,
};
use nginxfmt::config::{discover_step, DiscoverStep};

#[test]
fn merge_cli_overrides() {
    let mut cfg = Config::default();
    let overrides = CliOverrides {
        indent_style: Some(IndentStyle::Tabs),
        indent_width: Some(2),
        ..CliOverrides::default()
    };
    cfg.merge_cli_overrides(&overrides);
    assert_eq!(cfg.indent_style, IndentStyle::Tabs);
    assert_eq!(cfg.indent_width, 2);
}

#[test]
fn merge_keeps_values_that_are_not_overridden() {
    let mut cfg = Config {
        max_blank_lines: 3,
        trailing_newline: false,
        ..Config::default()
    };
    let overrides = CliOverrides {
        brace_style: Some(BraceStyle::NextLine),
        preserve_inline_comments: Some(false),
        ..CliOverrides::default()
    };
    cfg.merge_cli_overrides(&overrides);
    assert_eq!(
        cfg,
        Config {
            indent_style: IndentStyle::Spaces,
            indent_width: 4,
            brace_style: BraceStyle::NextLine,
            max_blank_lines: 3,
            trailing_newline: false,
            preserve_inline_comments: false,
        }
    );
}

#[test]
fn default_options() {
    let cfg = Config::default();
    assert_eq!(cfg.indent_style, IndentStyle::Spaces);
    assert_eq!(cfg.indent_width, default_indent_width());
    assert_eq!(cfg.brace_style, BraceStyle::SameLine);
    assert_eq!(cfg.max_blank_lines, default_max_blank_lines());
    assert_eq!(cfg.trailing_newline, default_true());
    assert!(cfg.preserve_inline_comments);
    assert_eq!(IndentStyle::default(), IndentStyle::Spaces);
    assert_eq!(BraceStyle::default(), BraceStyle::SameLine);
    assert_eq!(CONFIG_FILE_NAME, ".nginxfmt.toml");
}

#[test]
fn indentation_units() {
    let cfg = Config {
        indent_width: 3,
        ..Config::default()
    };
    assert_eq!(cfg.indent_unit(), "   ");
    assert_eq!(cfg.indent_at(2), "      ");
    assert_eq!(cfg.indent_at(0), "");
    let tabs = Config {
        indent_style: IndentStyle::Tabs,
        ..Config::default()
    };
    assert_eq!(tabs.indent_unit(), "\t");
    assert_eq!(tabs.indent_at(3), "\t\t\t");
}

#[test]
fn discovery_stops_at_the_first_options_file() {
    assert_eq!(discover_step(true, true), DiscoverStep::Load);
    assert_eq!(discover_step(true, false), DiscoverStep::Load);
    assert_eq!(discover_step(false, true), DiscoverStep::GoUp);
    assert_eq!(discover_step(false, false), DiscoverStep::NotFound);
}
