# minmux

A terminal multiplexer that runs a program in a pseudo-terminal and runs
Lua snippets from a YAML configuration when what the user types, or what the
program prints, matches a trigger.

- `src/` is the verified library (Verus): rolling capture buffers
  (`buffer`, `session::Capture`), text handling (`text`), `ps` listings and
  line endings (`utilities`), process trees (`process_tree`), the
  configuration table (`config`), the trigger decisions of a session
  (`session`), and the trusted wrappers around `regex` and a few std string
  functions (`pattern`).
- `app/` is the program: command line, pseudo-terminal, `select` loop, file
  reading, `ps` and the Lua interpreter.
- `tests/` runs the library on concrete inputs, and compares its text
  handling with std's.
