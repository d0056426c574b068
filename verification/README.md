# flats

A tiny embeddable vector database with a V-SQL shell, verified with Verus.

A database is a directory. Each collection in it has three stores, fed from one
log: a flat vector index (`src/index.rs`), a metadata index and a tuple store
(`src/metadata/`). Every mutation is a record that is checked before it is logged
and that can be applied again without harm, so recovery replays the log from a
position that every store has reached.

## Layout

- `src/` is the library. Every function of it is verified, but for the few that only
  call an outside crate or the standard library.
  - `index.rs`: the image of the flat index, its double-buffered header, top-k search
  - `metadata/`: schemas and rows, posting lists, snapshots, liveness
  - `engine/`: the catalog, what a write logs, applying and recovering, checkpoints
  - `compiler/`, `sql.rs`, `lexer.rs`, `query.rs`: from a plan to a checked program,
    and the stream of its rows
  - `editor/`, `shell/`: the line editor and the shell's decisions
  - `bitmap.rs`, `checksum.rs`, `text.rs`: the outside functions that the proofs
    rest on, with what is taken on trust about each
- `tests/` runs the library, also over a disk in memory that crashes.
- `app/` is the program: files, the log, the terminal, and floating point.

Floats are bit patterns in the library. What makes a program of a statement's text,
and what steps that program, plugs in at `app/execute.rs`.

## What is proved

Contracts say what each function returns, for every input. Laws that span
functions are public proof functions named `law_..`. Among them: replaying a log
over stores that have any prefixes of it gives what the whole log gives; a torn
header loses no checkpoint; the log is cut last, and no further than the slowest
store; a snapshot reads back as what was saved; no lookup shows a deleted row; lines
typed ahead are read one after the other; the pieces that input is split into are
the input, and the shell and the lexer agree on where a statement ends. What writes
a snapshot or a header slot promises that a change of one byte is noticed.
