# stratum

An embedded temporal-semantic-causal record store. Records are immutable and
content-addressed (the SHA-256 digest of schema, timestamp and data); they
can be found by time, by causal lineage and by embedding similarity, and
queried with a small query language (`FIND records WHERE ... ORDER BY ...
LIMIT n OFFSET n`).

## Layout

- `src/` is the verified library (Verus):
  - `record.rs`: records, the builder, content addresses;
  - `index/temporal.rs`: the ordered time index;
  - `graph/causal.rs`: the causal graph, breadth-first walks, shortest paths;
  - `storage/engine.rs`: the content-addressed store over `sled`;
  - `query/`: the lexer, the parser and the executor's logic;
  - `db.rs`, `api.rs`: keeping the indexes in step with the store, and the
    request logic of the HTTP interface;
  - `text.rs`, `hex.rs`: text and hexadecimal helpers;
  - `ext/`: the trusted declarations through which the library calls
    `sled`, `dashmap`, `sha2`, `chrono` and std.
- `app/` is the program around it: the command line, the HTTP server, the
  asynchronous database handle, JSON encoding, and the similarity index,
  which works in floating point.
- `tests/` exercises the library.
