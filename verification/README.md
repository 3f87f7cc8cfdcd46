# shell

A small interactive shell whose logic is a Verus-verified library.

- `src/` — the verified library:
  - `tokenize` splits a command line into words with the shell's quoting rules;
  - `utils` splits words into pipeline stages, takes off a trailing
    redirection, and gives each stage its position in the pipeline;
  - `commands` holds the builtins (`echo`, `type`, `cd`, `declare`,
    `complete`, `jobs`, `history`) and the dispatch of a command line;
  - `history` the `history` builtin's requests, listing and file clean-up,
    over rustyline's `FileHistory`;
  - `trie`, `order` and `helper` the tab completion of command names,
    script output and file names;
  - `jobs` the table of background jobs;
  - `string_map` the map behind shell variables and completion scripts;
  - `text` character-level helpers.
- `app/` — the program around it: the line editor, files, pipes and processes.
- `tests/` — tests of the library on concrete inputs.
