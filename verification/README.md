# QuantaDB

A small relational database whose rules are verified with Verus.

`src/` is the library. It computes and decides, and touches no file, socket or clock:

- `storage`: pages with checksums, the write-ahead log, recovery, page numbers and their reuse, group
  commits. A store lists what has to be done to its files; the caller does it.
- `index`: copy-on-write B+ trees on pages.
- `mvcc`: snapshots, conflicts, commits, index generations, the reuse of what no snapshot needs, and
  reopening.
- `engine`: the catalog, typed rows, expressions, constraints and the statements.
- `server`: configuration, requests and responses, the PostgreSQL and HTTP protocols, and a line
  protocol over tables in memory.
- `bench`, `client`: the rules of the load generator and of the command line client.

Floats are held as bits. Where a statement needs arithmetic on floats, it stops and asks for the
results it lacks; the caller computes them and runs it again.

`app/` holds the programs: files, sockets, JSON, the SQL text parser and float arithmetic.
`tests/` runs the library.

Each law of the library is a public proof function whose name begins with `law_`. Some to start with:

- `storage::recovery`: what was logged survives a crash, and a torn batch leaves no trace.
- `index::edits`: an edited index is the ordered map with the changes applied, and earlier roots keep
  theirs.
- `mvcc::history`: every snapshot reads exactly what was committed up to it.
- `mvcc::runs`: a transaction reads the same over any run of operations, and dropping versions takes
  nothing that is needed.
- `mvcc::restart`: what was committed is found again after a restart.
- `engine::integrity`: rows and the keys of their unique values agree, and statements keep them so.
- `engine::answer`: a query shows exactly the rows that meet its condition, in order, and a limit the
  first of them.
