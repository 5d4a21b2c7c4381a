//! A small proof-of-work blockchain core: hash-linked blocks, a chain with a
//! pending queue, a mining step, and the reconciliation rules a node applies
//! to messages from its peers.

mod crypto;

pub use crypto::hex_of;
pub use crypto::sha256_of;

mod strutil;

pub use strutil::u64_be_bytes;

mod block;

pub use block::zero32;
pub use block::Block;

mod chain;

pub use chain::chain_equal;
pub use chain::Chain;

mod message;

pub use message::Message;

mod miner;

pub use miner::mine_attempt;
pub use miner::validate_hex;

mod node;

pub use node::Node;
pub use node::NodeStep;

mod wire;

pub use wire::json_of_block;
pub use wire::parse_block_fields;
