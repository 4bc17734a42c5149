# twill

The core of an embeddable SQL engine, written in Verus: values and types, the SQL
front end, expression evaluation, queries over tables, joins, views and vector
indexes, an MVCC row store, row policies, the write-ahead log with its codec and its
replay, group commit, and the state machine of a connection.

- `src/` is the library. Every function states what it returns, and Verus proves
  it. What holds across functions (that a commit survives a restart, whoever else is
  writing, that readers see one snapshot, that a rollback leaves nothing, that
  policies hide what they should) stands in public proof functions whose names begin
  with `law_`.
- `tests/` runs the library on an in-memory host.
- `app/` is the engine as embedders see it: locks, threads, storage backends, and
  the C interface.

## Numbers

The library holds floating-point numbers as bit patterns and computes with none of
them. Where a statement needs a sum, a distance or the text of a number, it stops
and asks (`asks.rs`); the host files the answer and runs the statement again. A
statement that stops has changed nothing.

## Hosts

A host keeps a `Store`, the `Graphs` of its indexes beside it, a `WriteLane` and a
`GroupCommit`. `Connection::run` gives a result and says what is left to do: nothing,
to free the lane, to append a transaction, or to append a definition and put it into
effect. `app/database.rs` and `app/connection.rs` do so with threads.
