//! Host-side state machine and query logic of an inter-blockchain
//! communication (IBC) module.
pub mod decimal;
pub mod identifier;
pub mod segments;
pub mod path;
pub mod types;
pub mod store;
pub mod keyed_log;
pub mod router;
pub mod context;
pub mod query;
pub mod msg;
