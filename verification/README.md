# mem_stream

An in-memory database with three stores: segmented logs in named groups, key-value databases whose
keys may expire, and lists of byte strings. It speaks a binary protocol over TCP, logs every write
so that the stores can be rebuilt, runs batches of commands as jobs, and sends its writes to
followers. A client wraps the protocol behind an HTTP API.

The library under `src/` holds the logic and is verified with Verus:

- `seg_log`, `snapshot`, `groups`, `lru`: the logs, their snapshots, the groups and their caches
- `kv`, `journal`: the databases, and databases that keep a journal each
- `seg_list`: the lists
- `aof`, `b64`, `db`: the log of writes, and the stores behind one interface
- `pipeline`: batches of commands and the locks they run under
- `proto`, `wire`, `codec`, `response`, `server`: the protocol from bytes to replies
- `client`, `exchange`: the client's side of the protocol, and that the two sides agree
- `ha`: replication
- `payload`, `api`, `conf`, `names`: documents in log entries, HTTP answers, configuration, files
- `le`, `views`, `text`, `clock`, `strmap`, `idindex`: what the others are built from

What the whole promises stands in proof functions whose names start with `law_`. What is taken on
trust of the standard library and of other crates stands in functions marked
`#[verifier::external_body]` and in `assume_specification` items, each with a comment that says what
it claims.

`app/` is the program round the library: sockets, files, timers and HTTP. `tests/` runs the library.
