//! A small sharded key-value store: a deterministic key-to-shard map, per-node
//! tables driven by a line-based text protocol, and the routing decisions that
//! tie a command line to the node that owns its key.

pub mod laws;
pub mod node;
pub mod protocol;
pub mod router;
pub mod shard;
pub mod table;
pub mod text;
