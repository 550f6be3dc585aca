# rift

A small scripting language (`show`, `store`, lists, `if`, `loop`, functions,
`input`), with its lexer, parser and interpreter written in Verus and proved
against their specifications.

- `src/lexer.rs`: `tokenize`, specified by `lex`, a function from the program
  text to its tokens.
- `src/parser.rs`: `Parser`, specified by `program`, a function from tokens to
  statements (`stmt`, `block`, `expr`, ...).
- `src/interpreter.rs`: `Interpreter`, a machine whose `step` is specified by
  `step_spec`. Numbers are IEEE doubles held as bit patterns; the interpreter
  asks its host for every operation on them, and for all input and output,
  through `Action`s, and takes the answers as `Event`s.
- `src/value.rs`: run-time values, how `show` writes them, and the list
  operations behind `remove`.
- `src/table.rs`: `Table`, a map from names to values.
- `src/laws.rs`: properties of the language proved over the specifications.
- `src/runs.rs`: whole runs driven by a host (`session`), and what they come
  to: running `a ++ b` is running `a` then `b`, an `if` runs its chosen branch,
  a loop runs its body `k` times over, a body stops at its first `return`, and
  a call binds its arguments in order and then runs its body.
- `app/main.rs`: the `rift` command, which reads a file, runs the program and
  does the floating-point work and the terminal input and output.
