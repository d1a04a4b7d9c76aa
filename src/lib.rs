//! A log-structured key-value store: the record format, the in-memory index
//! with its replay and compaction rules, the naming of segment files, the
//! configuration guard, and the protocol types of its server.
pub mod catalogue;
pub mod config;
pub mod engine;
pub mod error;
pub mod history;
pub mod index;
pub mod protocol;
pub mod record;
pub mod state;

pub use config::{ConfDecision, EngineType};
pub use engine::{KvsEngine, SledKvsEngine};
pub use error::KvsError;
pub use index::{Locator, Transfer};
pub use protocol::{GetResponse, RemoveResponse, SetResponse, CMD};
pub use record::Record;
pub use state::{Compaction, LogState, SetStep, CAPACITY};
