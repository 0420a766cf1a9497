# grit_commands

The decisions and text handling behind four `grit` commands — `cherry-pick`, `clean`,
`clone` and `commit` — as a library verified with Verus, and a small command-line front end.

- `src/` is the verified library. Each public function states in its contract what it
  returns, over specification functions on sequences of characters or bytes:
  - `text` — the model of the string operations used throughout (trimming, searching, line
    splitting, UTF-8 byte offsets, decimal text) and verified helpers for them;
  - `message` — commit message cleanup (`stripspace` and its modes), comment prefixes,
    verbose cut lines, templates; with laws (a cleaned message is tidy, cleaning twice is
    cleaning once, comments are gone, cutting at an appended scissors block gives the
    message back);
  - `encoded` — the byte-level cleanups applied to UTF-8 encoded text give the encoding of
    the text-level cleanups;
  - `cherry_pick` — argument preprocessing, option checks, reflog and todo-list parsing, the
    sequencer's `opts` file (written and read back, with the round-trip law);
  - `commit`, `ident`, `date` — option checks, `--fixup` parsing, editor and cleanup
    decisions, identities and dates (the `time` crate is called behind trusted wrappers);
  - `clone`, `clean`, `glob`, `renames`, `summary` — option checks, URL and config-text
    parsing, path display, the order of removal, glob matching, directory-rename detection,
    commit summaries;
  - `gitdir` — the gitfile and `HEAD` reflog texts that the commands read.
- `tests/` runs the library on concrete values.
- `app/` parses the command line (with `clap`), reads the files around the repository, and
  hands plain values to the library. The work on objects, the index and refs belongs to the
  `grit_lib` repository backend, which this program does not link.
