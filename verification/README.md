# fossil_delta: base-64 numerals, the snapshot format and the logic of the leo-ver-serv history server

`src/` is a Verus library; every function in it carries a contract that
Verus proves.

- `b64` — base-64 numerals (`0-9 A-Z _ a-z ~`): `b64str` writes one,
  `b64int` reads one back; `b64_roundtrip` proves that reading a written
  numeral gives the number back.
- `text` — splitting a string at the first occurrence of a separator
  (`partition`), `usize` numerals as `str::parse` reads them, trimming,
  the lines of a string, and the database name of a file.
- `snapshot` — the snapshot text format (outline, blank line, then records
  `<bytes> <gnx>\n<body>`): `decode_snapshot`, `encode_snapshot`, and the
  proof `snapshot_roundtrip` that decoding an encoded snapshot gives its
  outline and nodes back.
- `history` — what storing a snapshot writes (`plan_snapshot`: change records
  and rows of the table of present nodes) and how the present nodes are
  written out again (`present_snapshot`), with proofs that after storing a
  snapshot the live nodes are exactly its nodes (`stored_snapshot_is_live`)
  and that the written-out snapshot reads back as those nodes
  (`present_snapshot_reads_back`).
- `requests` — how the server's request bodies are split and when a request
  is refused, the timestamp check (through chrono), and the string rules of
  the history queries.

`app/` is the web server itself (actix-web, rusqlite): SQL and HTTP around
the library's decisions. It calls `delta` and `deltainv`, the delta encoder
and decoder, which this library does not provide.

`tests/` runs the library on concrete values.
