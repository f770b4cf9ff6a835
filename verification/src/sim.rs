//! Deterministic simulation of the idempotency engine under faults.
//!
//! Because the engine is pure (time is injected, and there is no internal
//! threading or randomness), a single seeded generator can drive it through a
//! long, randomized sequence of operations with injected faults, and **any
//! failure replays exactly from its seed**.
//!
//! The simulator runs a durable engine over a write-ahead log and a set of virtual
//! workers that retry operations under a small space of keys, while injecting:
//!
//! - **crashes**: drop the engine and recover it from the log (in-flight worker
//!   tokens survive, as those of a worker that outlives a gateway restart do);
//! - **clock jumps**: sometimes past the lease, forcing takeovers;
//! - **stale completions**: a worker whose lease was taken over still tries to
//!   commit.
//!
//! Along the way it checks the load-bearing invariants and reports the seed if one
//! is violated:
//!
//! 1. **Exactly-once effect**: a key is successfully completed at most once, across
//!    all crashes and takeovers.
//! 2. **Durability**: after a crash, every committed key replays its exact
//!    committed outcome.
//! 3. **Replay consistency**: a replay always returns the committed outcome.
//! 4. **Fencing**: a stale token never commits.
//!
//! [`model`] says what each step does, [`run`] does it, and [`laws`] proves that no
//! seed and no schedule of faults ever has a violation reported while the committed
//! keys live.

pub mod laws;
pub mod model;
pub mod run;

pub use model::{BeginKind, Durability, Stats, Violation, ViolationKind};
pub use run::{begin_name, fingerprint_of, key_of, Simulation};
