# lazier

A terminal user interface for git. The crate is written in Verus: the part
that decides what the program does is a library whose functions carry
`requires` / `ensures` contracts, and Verus proves them.

## Layout

- `src/` — the verified library.
  - `app.rs`: the state of the program and what each action, key and
    answer of git does to it; the requests for git wait in an outbox.
  - `keys.rs`, `event.rs`: the keys and the messages the loop hands over.
  - `tree.rs`: the file tree with directories that fold.
  - `sort.rs`, `text.rs`: sorting and text helpers with their models.
  - `git/`: the commit graph lanes, hunks and partial hunks, the parsers
    of git's output, the status rows, the interactive rebase list, the
    absorb planner, the file watcher's filters, the command lines, and
    the programs that differ from one system to the next.
  - `ui/`: window placement, the rows in view, the key hints that fit, the
    colors of marks and lanes, and the words that changed between lines.
- `tests/` — tests of the library, run against the compiled crate.
- `app/` — the program: the terminal, the threads that run git, read the
  repository with gix and watch the file system, and the drawing with
  ratatui. It hands plain values to the library and takes plain values
  back.
