# rlox

A bytecode interpreter for a small part of the Lox language (expressions,
`print`, global variables), written in Verus: the library's functions carry
contracts that Verus proves.

Layout:

- `src/chunk/`: opcodes and their byte encoding, the run-length line table,
  values (doubles held by their bits), interned strings, and the chunk that
  holds code, constants and lines.
- `src/compiler/`: the scanner (stated byte by byte over the source), the
  grammar of the language with the code each construct compiles to, and the
  single-pass Pratt compiler, proved to produce exactly that code.
- `src/vm/`: one step of the virtual machine, stated as a function of the
  code, constants, line table, instruction pointer and stack.
- `app/`: the program around the library: reading files and the prompt,
  converting number literals, double arithmetic, printing and tracing.
- `tests/`: tests of the library.
