# dupy

A duplicate-file finder whose decisions are verified with Verus.

`dupy` scans a directory tree and reports files with identical contents
(groups by size, then by a quick hash of the first 8 KB, then by comparing
contents), or, with `--names`, files that share a name.

## Layout

- `src/` — the verified library:
  - `glob.rs`: glob patterns (`*`, `?`) on file names, with their laws;
  - `scanner.rs`: exclude patterns and the depth-first walk of a tree, which
    decides what to visit and which files to keep while the caller reads the
    file system;
  - `grouping.rs`: grouping paths by a key, and keeping the groups that two
    or more paths share;
  - `grouper.rs`: grouping by size and by hash, the search for duplicates as
    a state machine that asks for hashes and comparisons, sorting by wasted
    space, and the laws of each stage;
  - `classes.rs`: what the comparisons add up to: the sets the search ends
    with when the answers follow an equivalence, which are its classes;
  - `hasher.rs`: the quick hash of a block and the verdict on two blocks;
  - `names.rs`: grouping by file name and sorting by name;
  - `formatter.rs`: human-readable sizes and the plain, CSV and names reports;
  - `cli.rs`: sizes such as `1MB` and the command line;
  - `error.rs`, `text.rs`: errors and building text.
- `app/main.rs` — the program: command line, file system, output.
- `tests/` — tests of the library.
