# shell

A small interactive POSIX-style shell whose logic is verified with Verus.

- `src/` is the verified library: the lexer (quotes, escapes, `$NAME`
  expansion, `>`/`>>`/`N>` redirections), the parser, the line editor's key
  handling and tab completion, completion candidates, the builtins'
  decisions (`echo`, `type`, `cd`) and the read loop's decisions. Each
  public function states its result over spec functions in `grammar.rs`,
  `parser.rs`, `line_editor.rs` and their neighbours; the `law_*` proof
  functions state properties that span calls.
- `app/main.rs` is the program: raw terminal mode, reading keys and lines,
  listing directories, the environment, opening redirection files and
  running programs. It hands plain values to the library and performs what
  the library decides.
- `tests/` runs the library on concrete inputs.
