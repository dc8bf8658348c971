# nginxfmt

A formatter for NGINX configuration files, written in Verus: the lexer, the
parser, the formatter and the command-line decisions are proved against
mathematical specifications; `app/` holds the command-line program around them
(argument parsing, configuration files, reading and writing files).

## Layout

- `src/text.rs`, `src/config.rs`, `src/error.rs`, `src/ast.rs`: strings as character
  sequences, options, errors and the syntax tree with its view.
- `src/lexer.rs`: the token grammar (`lex`) and the lexer proved to follow it.
- `src/parser.rs`: the grammar over tokens (`parse_spec`) and the parser proved to follow it.
- `src/formatter.rs`: what the formatter writes (`format_nodes`) and the formatter proved to write it.
- `src/lib.rs`: `format_str`, whose result is `format_spec`.
- `src/cli.rs`, `src/wasm.rs`: the decisions of the command line and the browser entry point.
- `src/printed.rs`, `src/shape.rs`, `src/roundtrip.rs`: the text of a
  tree, the shape of what the parser gives, and the proof that printed text reads back.
- `src/embed.rs`: the scan of Lua code, which reads the same where a body is read and where it is written.
- `src/runs.rs`: runs of newlines in a text, and how the text of a tree keeps them short.
- `src/laws.rs`: properties of the whole formatter, among them:
  - formatting is idempotent, except that a blank line opening the output and followed by
    more is dropped by the second pass;
  - no more than `max_blank_lines` blank lines stand in a row, at any depth, and in the
    text of an input without Lua blocks, carriage returns and all, no more than that many
    empty lines;
  - each statement becomes a directive, a block or a Lua block by the token that closes
    it and the name of its first word;
  - a blank line after a block's closing brace starts a new run;
  - inline comments are dropped when they are not kept, and formatting without them is
    formatting, with them kept, the tree whose inline comments are removed;
  - Lua block bodies stand in the output as written, for every input whose NGINX part parses;
  - the output ends with a newline exactly when `trailing_newline` is set, and without it
    is the output with it, less its trailing newlines;
  - line endings do not matter.

The body of a Lua block (a statement whose first word ends in `_by_lua_block`,
closed by `{`) is not read with NGINX's token rules: the lexer scans it as Lua
code up to the brace that closes it, counting braces outside Lua strings and comments,
and keeps it as one token: quoted strings (`'...'` and `"..."`, with backslash
escapes) end at their quote or at the end of the line, `--` comments at the end of
the line, and long strings and comments (`[[ ... ]]`, `--[==[ ... ]==]`) at their
closing brackets.
