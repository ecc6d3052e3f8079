# zill

An in-memory, deterministic Bash-like environment, verified with Verus: a virtual
file system, a shell parser and interpreter, and the builtins `pwd`, `cd`, `ls`, `cat`,
`echo`, `mkdir`, `touch`, `rm`, `rg` and `fd`.

## Layout

- `src/` — the verified library.
  - `fs.rs` — the file system, modelled as a map from normal paths to nodes;
    `fs_laws.rs` — what its operations keep (limits, read after write, ...).
  - `path.rs`, `order.rs`, `text.rs` — paths as strings, the order of names, text helpers.
  - `parser.rs` — words and grammar of command lines.
  - `session.rs` — the session state and variable expansion;
    `shell.rs` — running command lines; `shell_laws.rs` — what every command keeps.
  - `builtins/` — option parsing and the builtins; `rg` and `fd` call `grep-regex`,
    `grep-searcher`, `globset` and `ignore` through a few trusted wrappers.
  - `nested.rs` — the nested form in which a session is saved;
    `tree.rs`, `tree_laws.rs` — file systems shaped as trees, and the round trip.
- `app/` — the interactive shell and the JSON form of a session (serde).
- `tests/` — tests of the library.

## Behaviour worth knowing

- A session keeps its own clock: it starts at time 0 and each command line runs one
  second after the previous one, so sessions given the same command lines print the
  same output, `ls -l` included. (`VirtualFs` used on its own stamps with the system clock.)
- The standard output of a command line is the decoded text cut to at most
  `max_output_size` bytes of UTF-8, never inside a character; `rg` reports at most
  `max_match_count` matches, within a file too (none when it is 0).
- Option errors and `-h`/`--help` print what `clap` prints for these commands; the usage
  line of an error is the full one (clap shortens it after other arguments were used).
- `touch` sets the modification time of existing files and directories.
- A nested form whose root is a file is read as a file system holding that file at `/`.
