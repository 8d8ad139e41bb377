//! A log-structured, persistent key-value store library.
//!
//! The store keeps its data in append-only log segments, each named by a
//! monotonically increasing generation number, together with an in-memory
//! index that maps every live key to the location of the newest `Put`
//! record for it.  The modules below hold the verified core: the record
//! codec, the recovery replay, the engine itself, the wire protocol,
//! the reader-cache cleanup rule, and the bookkeeping of the thread
//! pool that fronts the network server.

pub mod cli;
pub mod codec;
pub mod engine;
pub mod error;
pub mod log;
pub mod pool;
pub mod protocol;
pub mod readers;
pub mod resp;
pub mod server;
pub mod store;

pub use cli::KvStoreOpt;
pub use cli::KvStoreSubCommand;
pub use engine::Engine;
pub use engine::KvsEngine;
pub use error::Error;
pub use error::ErrorKind;
pub use error::KvsResult;
pub use store::KvStore;
pub use store::Segment;
