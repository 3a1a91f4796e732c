//! Blocks that carry their difficulty as a field, covered by their hash.

use vstd::prelude::*;
use vstd::bytes::spec_u64_to_le_bytes;
use vstd::bytes::u64_to_le_bytes;

use crate::byte_util::append_bytes;
use crate::crypto::{sha256, spec_sha256};
use crate::text::{decimal, decimal_text, hex_encode, hex_text};
use vstd::string::StringExecFns;

verus! {

/// The fields of a block that its hash covers.
pub struct ChainBlockView {
    pub parent_hash: Seq<u8>,
    pub miner_address: Seq<u8>,
    pub nonce: u64,
    pub difficulty: u8,
    pub time: u64,
}

/// The bytes that are hashed: parent hash, miner address, the nonce as a
/// little-endian 64-bit integer, the difficulty byte, then the time as a
/// little-endian 64-bit integer.
pub open spec fn hashed_bytes(v: ChainBlockView) -> Seq<u8> {
    v.parent_hash + v.miner_address + spec_u64_to_le_bytes(v.nonce) + seq![v.difficulty]
        + spec_u64_to_le_bytes(v.time)
}

/// The hash of a block: SHA-256 of its hashed bytes.
pub open spec fn hash_of(v: ChainBlockView) -> Seq<u8> {
    spec_sha256(hashed_bytes(v))
}

/// The hash of a block with these fields.
pub fn hash(parent_hash: [u8; 32], miner_address: [u8; 32], nonce: u64, difficulty: u8, time: u64) -> (res: [u8; 32])
    ensures
        res@ == hash_of(
            ChainBlockView {
                parent_hash: parent_hash@,
                miner_address: miner_address@,
                nonce,
                difficulty,
                time,
            },
        ),
{
    let mut data: Vec<u8> = Vec::new();
    append_bytes(&mut data, parent_hash.as_slice());
    append_bytes(&mut data, miner_address.as_slice());
    let n = u64_to_le_bytes(nonce);
    append_bytes(&mut data, n.as_slice());
    data.push(difficulty);
    let t = u64_to_le_bytes(time);
    append_bytes(&mut data, t.as_slice());
    proof {
        let v = ChainBlockView {
            parent_hash: parent_hash@,
            miner_address: miner_address@,
            nonce,
            difficulty,
            time,
        };
        assert(data@ =~= hashed_bytes(v));
    }
    sha256(data.as_slice())
}

/// The text that shows a block: its hash, parent hash, miner address and the
/// nonce's little-endian bytes in hexadecimal, then its time and difficulty in
/// decimal, one per line between braces.
pub open spec fn block_text(v: ChainBlockView) -> Seq<char> {
    "{\nhash: "@ + hex_text(hash_of(v)) + ",\nparent_hash: "@ + hex_text(v.parent_hash) + ",\nminer_address: "@
        + hex_text(v.miner_address) + ",\nnonce: "@ + hex_text(spec_u64_to_le_bytes(v.nonce)) + ",\ntime: "@
        + decimal_text(v.time as nat) + ",\ndifficulty: "@ + decimal_text(v.difficulty as nat) + "\n}"@
}

/// A block whose difficulty is one of its own fields; its hash is computed
/// when it is made.
#[derive(Debug, Clone, Copy)]
pub struct Block {
    parent_hash: [u8; 32],
    miner_address: [u8; 32],
    nonce: u64,
    difficulty: u8,
    time: u64,
    hash: [u8; 32],
}

impl View for Block {
    type V = ChainBlockView;

    closed spec fn view(&self) -> ChainBlockView {
        ChainBlockView {
            parent_hash: self.parent_hash@,
            miner_address: self.miner_address@,
            nonce: self.nonce,
            difficulty: self.difficulty,
            time: self.time,
        }
    }
}

impl Block {
    /// The stored hash is that of the block's fields.
    #[verifier::type_invariant]
    spec fn consistent(self) -> bool {
        self.hash@ == hash_of(self@)
    }

    /// A block with these fields; its hash is computed here.
    pub fn new(parent_hash: [u8; 32], miner_address: [u8; 32], nonce: u64, difficulty: u8, time: u64) -> (res: Block)
        ensures
            res@ == (ChainBlockView {
                parent_hash: parent_hash@,
                miner_address: miner_address@,
                nonce,
                difficulty,
                time,
            }),
    {
        Block {
            parent_hash,
            miner_address,
            nonce,
            difficulty,
            time,
            hash: hash(parent_hash, miner_address, nonce, difficulty, time),
        }
    }

    pub fn parent_hash(&self) -> (res: [u8; 32])
        ensures
            res@ == self@.parent_hash,
    {
        self.parent_hash
    }

    pub fn miner_address(&self) -> (res: [u8; 32])
        ensures
            res@ == self@.miner_address,
    {
        self.miner_address
    }

    pub fn nonce(&self) -> (res: u64)
        ensures
            res == self@.nonce,
    {
        self.nonce
    }

    pub fn difficulty(&self) -> (res: u8)
        ensures
            res == self@.difficulty,
    {
        self.difficulty
    }

    pub fn time(&self) -> (res: u64)
        ensures
            res == self@.time,
    {
        self.time
    }

    /// The text that shows the block.
    pub fn to_string(&self) -> (res: String)
        ensures
            res@ == block_text(self@),
    {
        proof {
            use_type_invariant(self);
        }
        let nonce = u64_to_le_bytes(self.nonce);
        let mut text = String::new();
        text.append("{\nhash: ");
        text.append(hex_encode(self.hash.as_slice()).as_str());
        text.append(",\nparent_hash: ");
        text.append(hex_encode(self.parent_hash.as_slice()).as_str());
        text.append(",\nminer_address: ");
        text.append(hex_encode(self.miner_address.as_slice()).as_str());
        text.append(",\nnonce: ");
        text.append(hex_encode(nonce.as_slice()).as_str());
        text.append(",\ntime: ");
        text.append(decimal(self.time).as_str());
        text.append(",\ndifficulty: ");
        text.append(decimal(self.difficulty as u64).as_str());
        text.append("\n}");
        text
    }

    pub fn hash(&self) -> (res: &[u8; 32])
        ensures
            res@ == hash_of(self@),
    {
        proof {
            use_type_invariant(self);
        }
        &self.hash
    }
}

} // verus!
