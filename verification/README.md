# observer

Durable log storage, ingestion rules and query planning for OTLP logs, verified with Verus.

- `src/` is the library. Every function in it is verified against its contract. It works on plain
  values: it opens no file and no socket. `src/lib.rs` says which module does what.
- `app/` is the application around it: files, Arrow and Parquet, locks, HTTP, gRPC, and SQL through
  DataFusion. It hands plain values to the library and carries out what the library decides.
- `tests/` runs the library, with an in-memory disk in place of files.

## What is proved

Contracts are stated over mathematical models of the values: sequences of cells, of commits, of
paths. Beside the contracts stand laws, as public proof functions, that relate several functions:

- a commit or retirement descriptor that was written reads back, and one in which a byte changed is
  refused (`commit`, `retirement`);
- a restart gives the published catalog back, a second one changes and removes nothing in whatever
  order it finds the files, and a publication that was cut short changes nothing (`recovery`);
- a scan returns the bag of the rows of its sources, in WAL order, and publishing a generation leaves
  that bag as it was (`rows`, `row_laws`);
- retirement hides only files that a published commit names, and none of a later generation
  (`recovery`, `retention`, `store`, `row_laws`);
- record indexes follow the order of the source, and an hour that was in WAL order reads back in it
  (`decode`, `row_laws`);
- the generations of a snapshot adjoin without a gap, in the order in which they were opened
  (`memtable`);
- bounds recorded of a file cover its rows, and retention hides no row that was received at the
  cutoff or later (`statistics`);
- a file is collected only when it is retired and no snapshot leases it, and collecting all that is
  offered leaves nothing to offer (`store`);
- pruning by event time keeps every hour that can match (`window`, `table`);
- a query yields no more rows than its cap (`query`).

## What is trusted

Calls into other crates stand behind small wrappers, each with a doc comment that says what is
believed of it: CRC32C, BLAKE3, Base64, JSON text, the SQL parser, the sizes of Arrow arrays, and a
few functions of the standard library. Floating-point values are held as their bits.
