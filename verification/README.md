# rproxy

A small HTTP/1.1 reverse proxy. Requests are matched by `Host` header and
path prefix to a route, checked against an optional client whitelist, HTTP
Basic credentials and API keys, and forwarded round-robin to the route's
backends that a once-a-second health check considers live.

Layout:

- `src/` — the library, written in Verus; every function carries a
  contract that Verus proves, except the one call into the `base64` crate
  (`decode_base64` in `config.rs`), whose contract is assumed: it only names
  the decoding result.
  - `bytes.rs` — byte-string helpers: ASCII trimming, splitting, case folding.
  - `http.rs` — collecting and parsing request heads, case-insensitive header
    maps, the canned error responses, the head sent to a backend.
  - `routing.rs` — routes and the round-robin choice of backend.
  - `config.rs` — configuration, access checks (whitelist, API keys, Basic
    authentication) and route selection.
  - `health.rs` — backend health scores.
  - `connection.rs` — the per-connection state machine.
- `app/` — the program: configuration file loading (TOML or YAML), the
  Tokio accept loop, socket I/O for each connection step, health probes.
- `tests/` — tests of the library.
