# toylang

A lexer, a Pratt parser and a small stack machine for a toy typed language,
written in Verus with their behaviour stated as contracts and proved.

- `src/text.rs`: characters, UTF-8 widths and byte offsets.
- `src/token.rs`: token kinds, the keyword and type-name table, literals.
- `src/lexer.rs`: the lexer, specified by `lex_next` (one token) and
  `lex_stream` (the whole stream), with laws about the stream.
- `src/ast.rs`: the syntax tree and its mathematical view.
- `src/parser.rs`: the parser, specified by a recursive spec parser over the
  token stream (`p_program` and the functions it calls); `parse_source`
  parses a whole source text.
- `src/vm.rs`: the bytecode machine, specified by `vm_run`; float arithmetic
  is handed to the caller, and `would_fault` tells ahead whether a run faults.
- `app/`: the command-line program: reads a file, parses it and prints the
  syntax tree as JSON (or the parse errors).
- `tests/`: tests of the library on concrete inputs.
