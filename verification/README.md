# shell

A small interactive shell whose logic is verified with Verus.

- `src/` is the verified library:
  - `text`: characters, trimming, splitting and joining, decimal numbers;
  - `cmd`: quoting, escapes, arguments, redirections, command kinds and the
    plan for `cd`;
  - `cmds`: a simpler command classifier (`parse`, `cmd_type`);
  - `history`: the numbered command history, its text form and how it is
    read back;
  - `complete`: tab completion: `get_matches` lists the names a partly
    typed command can be completed to, and the pieces that the matching
    names share (their `_`-separated pieces, kept where every name has the
    same piece at the same place) are put together;
  - `editor`: the line editor as a state machine from key to action;
  - `builtin`: what the built-in commands print;
  - `solution`: the minimal `exit`/`echo` evaluator.
- `app/` is the program around it: the terminal, the file system, the
  search path and running programs.
- `tests/` holds the tests of the library.
