//! A persistent key-value store: an append-only command log with an
//! in-memory index, online compaction, and a framed request/response
//! protocol.
pub mod codec;
pub mod command;
pub mod engine;
pub mod error;
pub mod protocol;
pub mod server;
pub mod sled_engine;

pub use command::MPCommand;
pub use engine::KvStore;
pub use error::KvsError;
pub use protocol::{KvsClient, KvsServer};
pub use server::KvsEngine;
pub use sled_engine::SledEngine;
