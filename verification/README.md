# onced

The verified core of an idempotency gateway. It sits in front of an API and
guarantees that a state-changing request takes effect exactly once, however often a
client retries it: the first request with an `Idempotency-Key` is run against the
backend and its outcome is stored, and every retry is answered with that outcome.
The same front door does abuse defense: rate limits, proof-of-work challenges and
distinct-target velocity.

The library is pure: no I/O, no clock, no threads and no randomness. Time, bytes
read from disk and backend replies are handed in, which is what lets every
guarantee be stated as a contract and proved with Verus.

| Where | What |
|---|---|
| `src/engine.rs`, `src/engine_laws.rs` | The per-key state machine, and what it guarantees over whole histories: exactly-once effect, fencing, mismatch safety, recycling. |
| `src/store.rs`, `src/replication.rs` | What a store promises; the in-memory store; synchronous replication. |
| `src/wal.rs`, `src/wal/` | The hash-chained write-ahead log: record format, recovery, batches, compaction, tamper evidence, and the keeper of its medium. |
| `src/gateway.rs`, `src/router.rs`, `src/line.rs`, `src/gateway_laws.rs` | Requests through abuse rules and engine, on one shard or on many, with an account of what the backend is asked. |
| `src/http.rs`, `src/http/` | HTTP/1.1 messages. |
| `src/abuse.rs`, `src/abuse_laws.rs`, `src/sketch.rs`, `src/hll.rs`, `src/velocity.rs`, `src/pow.rs` | Abuse defense. |
| `src/proxy.rs`, `src/config.rs`, `src/bench.rs` | What the asynchronous proxy, the settings and the benchmarks decide. |
| `src/sim.rs`, `src/sim/` | Deterministic simulation under crashes, clock jumps and stale workers, and the proof that no seed breaks an invariant. |
| `src/hash.rs`, `src/hashing.rs`, `src/bytes.rs`, `src/text.rs`, `src/lex.rs`, `src/headers.rs`, `src/table.rs`, `src/metrics.rs` | What the rest is built from. |
| `app/` | The programs: files, sockets, threads and the asynchronous stack around the library. |
| `tests/` | The library at work on concrete values. |

Three items are trusted rather than proved: `String::from_utf8` (`src/text.rs`), and
the method and header-value checks of the HTTP client that the proxy uses
(`src/proxy.rs`).
