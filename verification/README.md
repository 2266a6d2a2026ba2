# crap4rust

The CRAP metric for the functions of a cargo workspace: `cc² · (1 − cov)³ + cc`,
where `cc` is the cyclomatic complexity of a function and `cov` the fraction of
its instrumented lines that was run.

```text
crap4rust [--lcov-path <PATH>] [--test-command <COMMAND>] [--filter <FRAGMENT>]...
          [--format table|json] <PATH>
```

The report is printed to the output stream, and everything that is to be said
about it to the error stream. The exit code is `0` on success, however high the
scores are, and `1` on an operational error.

## Layout

`src/` is the library. All of it is verified with Verus.

| Module | What it settles |
| --- | --- |
| `text`, `order`, `path` | texts, sorting, and paths as texts |
| `syntax` | the tree of a source text; parsing is `syn`'s |
| `product` | what a normal build compiles, and what exists for tests only |
| `complexity` | the decisions of a function |
| `coverage` | LCOV text, and which of its records a path matches |
| `join` | which file a record belongs to, and the lines of a function |
| `workspace`, `modgraph` | the crates of a workspace and the files of a crate |
| `runner` | where coverage comes from |
| `diagnostic` | what a run has to say |
| `filter` | narrowing a report |
| `report`, `json` | the table and the document |
| `cli` | a run as a whole |

`app/` is the program around it: arguments, files, commands, printing, and the
floating-point arithmetic, which the library is handed as a function.

`tests/` holds the tests of the library.

## What is taken on trust

The library calls `syn` to parse a source text and to walk what it found. What
the walk passes has the name `trace_of`; the tree is made from it by verified
code. The name takes in the conversions in `syntax`, from the types of `syn` to
those of the library, which the walk calls: they are not verified, and only tell
which variant a value is, what it holds, and where it stands. The standard library is
taken at its word for `String::push`. Everything else is proved, from the
contracts of `vstd` on.

## Limits

A source text has at most 2²⁸ characters: `proc_macro2` numbers them in 32 bits,
and some it reads several times over. How deeply a text may be nested depends on
the stack.

Paths are texts, so one that is no UTF-8 cannot be given. On Windows a path may
start with a drive or a share, and only with those.
