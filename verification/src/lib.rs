//! Decision logic of a replicated key-value store node: the wire format and
//! addressing between pods, configuration parsing, the command state machine
//! that decided log entries are applied to, and the bookkeeping that a node
//! keeps about its peers and the decided prefix of the log.
pub mod addresses;
pub mod config;
pub mod decimal_text;
pub mod discovery;
pub mod framing;
pub mod kv;
pub mod liveness;
pub mod server;
pub mod text;

pub use addresses::{get_my_api_addr, get_peer_addr};
pub use kv::{Database, KVCommand, KeyValue};
pub use server::{APIResponse, Server};
pub mod snapshot;
