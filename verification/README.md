# git-chai

An automatic committer for git working trees: it scans `git status`, groups
the changes into directory commits and per-file commits, and commits each
group with a short message (`mod: src`, `add: new.txt`,
`rename: src/a.rs -> src/b.rs`), optionally pushing afterwards.

## Layout

- `src/` is the library, written in Verus and verified:
  - `types`: status letters, status pairs and change types;
  - `status`: parsing `git status --porcelain=v1 -z` and `git ls-files -u -z`
    output and choosing the paths that may be committed;
  - `grouping`: directory listings and the grouping of changes;
  - `commit`: commit messages, the commits a grouping asks for, and the
    outcome of a run;
  - `steps`: the steps that commit exactly a set of paths through a
    temporary index;
  - `components`: paths read as `std::path::Path` reads them (components,
    parent, file name), and path keys, whose equality and order are proved
    to be those of `Path`;
  - `config`: the logging filter taken from `RUST_LOG`;
  - `paths`, `text`, `error`: byte-string, path and text helpers, and the
    error type.
- `app/` is the command-line program: argument handling, running `git`,
  logging, and the headless loop.
- `tests/` holds the tests of the library.
