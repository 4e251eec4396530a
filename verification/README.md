# hex_encoder

An encoder for Hex Casting spells. It reads a `.hexpattern` file, splits it
into tokens (patterns, braces, Bookkeeper's Gambits, Numerical Reflections and
embedded iotas), and writes the spell as a compact binary program that an
in-game decoder can read back. The program can be shown as binary lines, as
octal digits (typed into the game by a macro) or as a table of dance moves.

Layout:

- `src/` is the library, verified with Verus. Each module states what its
  functions compute as specification functions over sequences of characters,
  and proves the implementations against them:
  - `text`, `binary`, `grammar`: character-level text operations, binary and
    decimal numerals, and the shapes of the words of a file;
  - `patterns`, `numbers`: the pattern table (read from a JSON array of
    names) and the binary forms of embedded numbers;
  - `tokenizer`, `iota`, `encoder`: from a file to tokens, from tokens to the
    binary program, and the choice of the chunk size that gives the shortest
    program;
  - `file_utils`, `cli`, `used_types`, `error`: the octal and dance forms,
    command-line decisions, small tools and the failures.
- `tests/` runs the library on concrete inputs.
- `app/` is the command-line program: terminal and file I/O, the
  floating-point work of writing numbers in binary, and the keyboard and
  mouse macro.
