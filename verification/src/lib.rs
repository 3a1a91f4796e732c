//! A small proof-of-work blockchain node: blocks and their proof of work,
//! a block store indexed by hash, the wire format of peer messages, the
//! node's message handling, the miner's search step and the terminal
//! command parser.

pub mod byte_util;
pub mod crypto;
pub mod text;
pub mod keyed_map;
pub mod block;
pub mod blockchain;
pub mod networked_message;
pub mod miner;
pub mod node;
pub mod terminal_input;
pub mod networking;
