# gpfdist-rs

A gpfdist-compatible server that serves files and the results of queries over Parquet and Delta
tables. The core is a library whose functions state what they do in contracts, proved by Verus;
the program around it waits for the network, for files and for the query engine.

- `src/` the verified library
  - `http` request heads, routes, response heads
  - `server` what a request asks for and what is sent in answer to it
  - `session` which of several requests for the same data reads it
  - `stream` offsets, line numbers and line limits of a framed stream
  - `frame` frames and packets
  - `df_engine` queries: files and segments, SQL, the steps of a query, batches
  - `util`, `text`, `number`, `order` query parameters, text, numbers, sorting
  - `outside` the functions of other crates that the library relies on
- `app/` the program: connections, files, DataFusion
- `tests/` tests of the library

## Protocol

A request is a `GET` with the header `X-GP-PROTO: 1`. The response is a stream of frames, each
one a letter, a length in four bytes and that many bytes of data. A packet is the three meta
frames `F` (name), `O` (offset) and `L` (line number), and then a `D` frame with data or an `E`
frame with an error message. A `D` frame without data ends the stream. In compact mode only the
first packet and the end of the stream have meta frames.

`/df/{parquet,delta,iceberg}` runs a query, with the parameters `path`, `files`, `columns`,
`filter` and `limit`. Any other path names a file below the current directory, of which `lines`
limits how much is sent.

## Settings

- `GPFDIST_ADDR` the address to listen on (`0.0.0.0:8080`)
- `GPFDIST_SESSION_REPEAT_ERROR` `true` to repeat the error of a session to its later requests
- `FEATURES` in `app/main.rs`: Delta tables, Iceberg tables, compact mode
