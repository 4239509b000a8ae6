# pylon_runtime

The decision-making core of a realtime app server's runtime, written in
Verus. Every function in `src/` carries a contract that Verus proves,
except the small trusted wrappers in `digest`, `clock`, `percent`, `text`
and `tenant_hosts`: those make one call into `sha2`, `hmac`, `rand` or
`std`, and their contracts (none, for the clock and the random numbers)
are believed, not proved.

- `src/` is the verified library:
  - `shard_cluster` (and `shard_cluster/db`): machine settings, placement
    and rendezvous homes, signed calls between machines and the nonces
    that make a signature good once, lease timings, SQL fragments per
    dialect.
  - `shard_route`, `shard_ws`, `sse`: which shard a request is for, the
    signed forwarded header, the heads a proxy writes and reads, the
    WebSocket handshake and connection steps, the SSE auth token and gate.
  - `shard_wasm/*`: the call queue and call flights, the buffered entity
    writes and their flushes, message routing, draining machines, the
    steps of a player transfer between shards (and the backoff of moves a
    module asks for), and the byte-level contract with a shard's
    WebAssembly module (status codes, argument and output spans, the
    little-endian id, entity, interest and replication records).
  - `stream_hub`, `ssr_cache`, `outbox`, `messages`, `shard_ids`,
    `shard_tickets`, `shard_metrics`, `tenant_hosts`, `sync_relay`,
    `tinybird_logger`, `tls`: the remaining services' logic.
  - `digest`, `clock`, `percent`, `text`: the small trusted calls into
    `sha2`, `hmac`, `rand` and `std`, and verified text helpers.
- `app/` holds what cannot be verified: the process environment, threads,
  the disk and HTTP, around the library's functions.
- `tests/` exercises the library on concrete values.
