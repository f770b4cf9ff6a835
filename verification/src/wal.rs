//! Write-ahead log: crash-safe, tamper-evident durability for the idempotency
//! store.
//!
//! [`codec`] is the record format, [`replay`] is recovery of a log's bytes,
//! [`log_store`] is the store that keeps an index in step with its log, and
//! [`kept_store`] is that store together with the keeper of its medium. What holds
//! of them over whole runs is in [`codec_laws`], [`chain_laws`] and [`log_laws`].

pub mod chain_laws;
pub mod codec;
pub mod codec_laws;
pub mod kept_store;
pub mod log_laws;
pub mod log_store;
pub mod replay;

pub use codec::{crc32, decode_record, encode_record};
pub use kept_store::{KeptStore, LogKeeper, MemoryKeeper};
pub use log_store::{LogWrite, WalError, WalStore};
