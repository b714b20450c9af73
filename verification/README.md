# calc

An integer calculator. Text is split into tokens (`lexer`), converted to
reverse Polish notation by the shunting-yard algorithm (`compiler`), and
evaluated on a stack of 256 `i64` values (`rpn`); `expr` puts the three
together. `fast` recognises inputs of the form `a op b` for display,
`report` renders the answer line, `text` trims and prints numbers,
`repl` decides what the prompt does with a line, and `editor` is the
state machine of the full-screen editor.

Every function in `src/` is verified with Verus against a specification
of what it returns, except two trusted wrappers in `editor`:
`string_insert` and `string_remove`, whose contracts state what std's
`String::insert` and `String::remove` do. `grammar` relates every
well-formed expression tree to the value the calculator gives its text.
Where the calculator panics (an `i64` overflow, a
division by zero, a stack deeper than 256 values, an edit at a byte offset
inside a character), the function requires that the input is not such a
case, and a `try_` form or a `can_` check decides it.

`app/` holds the front ends: a REPL (default), the terminal editor
(`--tui`, with ratatui and crossterm), and the WebAssembly export.
