# oxython

A small Python-like language: a lexer, a single-pass compiler to bytecode,
and a stack-based virtual machine, with a command line that runs files or an
interactive prompt.

## Layout

- `src/` — the verified library (Verus):
  - `bytecode` — the instruction set and its byte encoding;
  - `walk` — code as a sequence of instructions: wholeness and instruction
    boundaries, and how appending, cutting, patching and rewriting keep them;
  - `jumps` — where jumps land: in whole code they lead to instruction
    starts, and emitting, cutting and patching code keeps it so;
  - `codegen` — emitting and patching jumps, variable access, and rewriting
    global accesses of comprehension variables into local ones;
  - `compiler` — the compiler from tokens to bytecode; it terminates on every
    input and produces only whole code whose jumps lead to instruction
    starts (while the code is within the reach of a jump's offset), in every
    nested function too. The contracts of its parts also fix the exact
    code of chains of literals and binary operators (folded from the left),
    of names, negations, calls, indexing, method calls, `print`, top-level
    assignments and compound assignments, inline function bodies and the
    comprehension loop, which first statements are refused, and when a
    definition or comprehension succeeds;
  - `scope` — function scopes, locals and closure capture;
  - `tokens` — the lookahead decisions of the parser;
  - `text` — indentation, whitespace, identifiers and f-string templates;
  - `collections`, `assoc`, `strings` — slicing and indexing, association
    lists, and the string operations of the machine;
  - `vm` — the value stack of the machine;
  - `cli`, `editor` — the decisions of the command line and the line editor
    of the interactive prompt.
- `app/` — the program around the library: the logos lexer, the object model
  and the interpreter loop (which compute with floating-point values), and
  terminal and file I/O.
- `tests/` — tests of the library.
