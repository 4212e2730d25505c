# acord

The verified core of Acord, a markdown notepad whose notes carry Cordial
code. `src/` is a Verus library: every function there has a contract and
is proved against it. `app/` is ordinary Rust around it: file and
directory access, settings and note-index storage, syntax highlighting
through tree-sitter, and the Cordial evaluator, whose values are
floating-point numbers.

Main modules of `src/`:

- `lexer`, `parser`: the Cordial tokenizer and recursive-descent parser,
  each stated by spec functions (`lex`, `p_expr`, `p_stmt`, …) that the
  executable code is proved to compute; cell formulas and the cells they read.
- `doc`, `blocks`, `module`, `anchors`: note lines, blocks, modules and where
  inline results go.
- `eval_order`, `eval`, `formulas`, `uses`: the order in which modules and
  cell formulas are evaluated and what the interpreter is asked to run.
- `cells`, `num`, `text`: cell addresses, unit labels, numbers and strings.
- `editor`, `caret`, `undo`, `keys`, `shortcuts`, `browser`: editing
  helpers, undo history, keyboard input and the note browser.
- `persist`, `config`, `document`, `export`, `highlight`: the note index,
  settings, note files, crate export and highlight spans.

`tests/` runs the library on concrete values.
