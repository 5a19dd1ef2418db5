# flint_core

Flint is an embedded, persistent rate limiter: limits are configured per key,
every decision is recorded as an event in an append-only log, and the state is
rebuilt from a snapshot and the log's tail after a restart.

Layout:

- `src/` is the verified library. It holds the three algorithms (token
  bucket, sliding window log, fixed window counter) over exact integer
  arithmetic, the event-sourced limiter state, replay of the log with its
  integrity checks, snapshot checksums and canonical JSON, duration parsing,
  and the small decisions of the command line and the HTTP server. Every
  function states its result in its contract; `src/laws.rs` and
  `src/canon.rs` prove properties of the limiter as a whole.
- `app/` is the `flint` program around it: the data directory and its lock,
  files, the clock, JSON encoding, the command line and the HTTP server.
- `tests/` runs the library on concrete values.

Times are milliseconds since the Unix epoch. A token bucket holds its tokens
in units of one part in the limit's period in milliseconds, so refills are
exact.
