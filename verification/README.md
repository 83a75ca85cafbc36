# sarateese

An interpreter for Sarateese, a small language whose programs are split into
named blocks that may require one another:

    block a { i32 x = 1; print(x); }
    block b requires[a] { print("after a"); }

The blocks run in rounds: a block runs once every block it requires has run,
and the blocks of one round run side by side.

## Layout

- `src/` — the verified library.
  - `tokenizer` turns program text into tokens; `parse` reads tokens into
    statements and expressions (operator precedence included).
  - `header` holds the grammar of block headers and requirement lists;
    `token_block` cuts a program into blocks and reads each block header;
    `dag` checks that the blocks form a graph, orders them into rounds and
    draws the graph.
  - `interpreter` evaluates expressions and runs statements one step at a
    time, leaving printing, sleeping and floating-point arithmetic to its
    caller; `llvm_ir` writes a program as LLVM IR text. Their contracts
    give the exact result where no floating-point value is involved
    (`eval_spec`, `exec_spec`, `step_spec`, `buffer_spec`); where one is,
    the kind of every value and every error that does not rest on the
    float values (`shape_spec`), and the statement logic for every value of
    that kind (`exec_given`, `step_given`, `buffer_given`).
  - `text` and `number` hold character and number helpers; `tokenize`,
    `lex` and `compiler` hold the types of earlier versions of the language.
- `app/` — the command line program: file reading, threads, timing,
  printing, floating-point arithmetic and calling `clang`.
- `tests/` — tests of the library.

Run a program with `sarateese FILE [-v | -vv]`.
