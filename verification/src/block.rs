//! Blocks whose hash covers the parent hash, the miner's address, the nonce
//! and the time, and whose difficulty is the number of zero bytes at the end
//! of that hash.

use vstd::prelude::*;
use vstd::bytes::spec_u64_to_le_bytes;
use vstd::bytes::spec_u64_from_le_bytes;
use vstd::bytes::u64_to_le_bytes;
use vstd::bytes::u64_from_le_bytes;
use vstd::bytes::lemma_auto_spec_u64_to_from_le_bytes;

use crate::byte_util::{append_bytes, to_array};
use crate::crypto::{sha256, spec_sha256};
use crate::text::{decimal, decimal_text, hex_encode, hex_text};
use vstd::string::StringExecFns;

verus! {

/// Why a block could not be read from a byte string.
#[derive(Debug)]
pub enum DeserializeError {
    /// The input ended before a whole serialized block.
    UnexpectedEof,
}

/// The fields of a block that its hash covers.
pub struct BlockView {
    pub parent_hash: Seq<u8>,
    pub miner_address: Seq<u8>,
    pub nonce: u64,
    pub time: u64,
}

/// The number of bytes of a serialized block.
pub open spec fn serialized_len() -> nat {
    80
}

/// The serialized form of a block: parent hash, miner address, then the nonce
/// and the time as little-endian 64-bit integers.
pub open spec fn serialize_fields(v: BlockView) -> Seq<u8> {
    v.parent_hash + v.miner_address + spec_u64_to_le_bytes(v.nonce) + spec_u64_to_le_bytes(v.time)
}

/// The block that the first 80 bytes of `s` encode.
pub open spec fn parse_fields(s: Seq<u8>) -> BlockView {
    BlockView {
        parent_hash: s.subrange(0, 32),
        miner_address: s.subrange(32, 64),
        nonce: spec_u64_from_le_bytes(s.subrange(64, 72)),
        time: spec_u64_from_le_bytes(s.subrange(72, 80)),
    }
}

/// The hash of a block: SHA-256 of its serialized fields.
pub open spec fn hash_of(v: BlockView) -> Seq<u8> {
    spec_sha256(serialize_fields(v))
}

/// The number of zero bytes at the end of `s`.
pub open spec fn trailing_zero_bytes(s: Seq<u8>) -> nat
    decreases s.len(),
{
    if s.len() == 0 {
        0
    } else if s.last() == 0 {
        1 + trailing_zero_bytes(s.drop_last())
    } else {
        0
    }
}

/// The difficulty of a block: the zero bytes that end its hash.
pub open spec fn difficulty_of(v: BlockView) -> nat {
    trailing_zero_bytes(hash_of(v))
}

/// A byte string never ends in more zero bytes than it has bytes: a hash's
/// difficulty is at most its length.
pub proof fn lemma_trailing_zero_bytes_bound(s: Seq<u8>)
    ensures
        trailing_zero_bytes(s) <= s.len(),
    decreases s.len(),
{
    if s.len() > 0 && s.last() == 0 {
        lemma_trailing_zero_bytes_bound(s.drop_last());
    }
}

/// When the bytes of `s` from `i` on are all zero, its trailing zero bytes are
/// those and the ones that end `s.take(i)`.
proof fn lemma_trailing_zero_suffix(s: Seq<u8>, i: int)
    requires
        0 <= i <= s.len(),
        forall|j: int| i <= j < s.len() ==> s[j] == 0,
    ensures
        trailing_zero_bytes(s) == (s.len() - i) + trailing_zero_bytes(s.take(i)),
    decreases s.len() - i,
{
    if i < s.len() {
        assert(s.drop_last().len() == s.len() - 1);
        assert(s.drop_last().take(i) =~= s.take(i));
        lemma_trailing_zero_suffix(s.drop_last(), i);
    } else {
        assert(s.take(i) =~= s);
    }
}

/// Reading back what `write` wrote gives the block that was written.
pub proof fn lemma_serialize_parse(v: BlockView)
    requires
        v.parent_hash.len() == 32,
        v.miner_address.len() == 32,
    ensures
        serialize_fields(v).len() == serialized_len(),
        parse_fields(serialize_fields(v)) == v,
{
    lemma_auto_spec_u64_to_from_le_bytes();
    let s = serialize_fields(v);
    assert(s.subrange(0, 32) =~= v.parent_hash);
    assert(s.subrange(32, 64) =~= v.miner_address);
    assert(s.subrange(64, 72) =~= spec_u64_to_le_bytes(v.nonce));
    assert(s.subrange(72, 80) =~= spec_u64_to_le_bytes(v.time));
}

/// A block's hash-covered fields read back from its serialized form.
pub proof fn lemma_block_roundtrip(b: Block)
    ensures
        b@.parent_hash.len() == 32,
        b@.miner_address.len() == 32,
        serialize_fields(b@).len() == serialized_len(),
        parse_fields(serialize_fields(b@)) == b@,
{
    lemma_serialize_parse(b@);
}

/// Every 80-byte string is the serialized form of the block it encodes.
pub proof fn lemma_parse_serialize(s: Seq<u8>)
    requires
        s.len() == serialized_len(),
    ensures
        serialize_fields(parse_fields(s)) == s,
{
    lemma_auto_spec_u64_to_from_le_bytes();
    let n = s.subrange(64, 72);
    let t = s.subrange(72, 80);
    assert(spec_u64_to_le_bytes(spec_u64_from_le_bytes(n)) == n);
    assert(spec_u64_to_le_bytes(spec_u64_from_le_bytes(t)) == t);
    assert(serialize_fields(parse_fields(s)) =~= s);
}

/// The hash of a block with these fields.
pub fn hash(parent_hash: [u8; 32], miner_address: [u8; 32], nonce: u64, time: u64) -> (res: [u8; 32])
    ensures
        res@ == hash_of(
            BlockView { parent_hash: parent_hash@, miner_address: miner_address@, nonce, time },
        ),
{
    let mut data: Vec<u8> = Vec::new();
    append_bytes(&mut data, parent_hash.as_slice());
    append_bytes(&mut data, miner_address.as_slice());
    let n = u64_to_le_bytes(nonce);
    append_bytes(&mut data, n.as_slice());
    let t = u64_to_le_bytes(time);
    append_bytes(&mut data, t.as_slice());
    sha256(data.as_slice())
}

/// The number of zero bytes at the end of `hash`.
pub fn difficulty(hash: &[u8; 32]) -> (res: u8)
    ensures
        res == trailing_zero_bytes(hash@),
{
    let mut trailing_zeros: u8 = 0;
    let mut i: usize = 32;
    while i > 0
        invariant
            i <= 32,
            hash@.len() == 32,
            trailing_zeros == 32 - i,
            forall|j: int| i <= j < 32 ==> hash@[j] == 0,
        decreases i,
    {
        if hash[i - 1] == 0 {
            trailing_zeros = trailing_zeros + 1;
            i = i - 1;
        } else {
            proof {
                lemma_trailing_zero_suffix(hash@, i as int);
                assert(hash@.take(i as int).last() != 0);
            }
            return trailing_zeros;
        }
    }
    proof {
        lemma_trailing_zero_suffix(hash@, 0);
    }
    trailing_zeros
}

/// The difficulty a block's children must reach: always one zero byte.
pub fn difficulty_target(_block: &Block) -> (res: u8)
    ensures
        res == 1,
{
    1
}

/// The text that shows a block: its hash, parent hash, miner address and the
/// nonce's little-endian bytes in hexadecimal, then its time and difficulty in
/// decimal, one per line between braces.
pub open spec fn block_text(v: BlockView) -> Seq<char> {
    "{\nhash: "@ + hex_text(hash_of(v)) + ",\nparent_hash: "@ + hex_text(v.parent_hash) + ",\nminer_address: "@
        + hex_text(v.miner_address) + ",\nnonce: "@ + hex_text(spec_u64_to_le_bytes(v.nonce)) + ",\ntime: "@
        + decimal_text(v.time as nat) + ",\ndifficulty: "@ + decimal_text(difficulty_of(v)) + "\n}"@
}

/// A block of the chain, with its hash and difficulty computed when it is made.
#[derive(Debug, Clone, Copy)]
pub struct Block {
    parent_hash: [u8; 32],
    miner_address: [u8; 32],
    nonce: u64,
    time: u64,
    difficulty: u8,
    hash: [u8; 32],
}

impl View for Block {
    type V = BlockView;

    closed spec fn view(&self) -> BlockView {
        BlockView {
            parent_hash: self.parent_hash@,
            miner_address: self.miner_address@,
            nonce: self.nonce,
            time: self.time,
        }
    }
}

impl Block {
    /// The stored hash and difficulty are those of the block's fields.
    #[verifier::type_invariant]
    spec fn consistent(self) -> bool {
        &&& self.hash@ == hash_of(self@)
        &&& self.difficulty == trailing_zero_bytes(self.hash@)
    }

    /// The number of bytes that `write` produces and `read` consumes.
    pub const SERIALIZED_LEN: u8 = 80;

    /// A block with these fields; its hash and difficulty are computed here.
    pub fn new(parent_hash: [u8; 32], miner_address: [u8; 32], nonce: u64, time: u64) -> (res: Block)
        ensures
            res@ == (BlockView { parent_hash: parent_hash@, miner_address: miner_address@, nonce, time }),
    {
        let hash = hash(parent_hash, miner_address, nonce, time);
        let difficulty = difficulty(&hash);
        Block { parent_hash, miner_address, nonce, time, difficulty, hash }
    }

    pub fn parent_hash(&self) -> (res: [u8; 32])
        ensures
            res@ == self@.parent_hash,
    {
        self.parent_hash
    }

    pub fn miner_address(&self) -> (res: [u8; 32])
        ensures
            res@ == self@.miner_address,
    {
        self.miner_address
    }

    pub fn nonce(&self) -> (res: u64)
        ensures
            res == self@.nonce,
    {
        self.nonce
    }

    pub fn difficulty(&self) -> (res: u8)
        ensures
            res == difficulty_of(self@),
    {
        proof {
            use_type_invariant(self);
        }
        self.difficulty
    }

    pub fn time(&self) -> (res: u64)
        ensures
            res == self@.time,
    {
        self.time
    }

    pub fn hash(&self) -> (res: &[u8; 32])
        ensures
            res@ == hash_of(self@),
    {
        proof {
            use_type_invariant(self);
        }
        &self.hash
    }

    /// Appends the serialized block to `out`.
    pub fn write(&self, out: &mut Vec<u8>)
        ensures
            final(out)@ == old(out)@ + serialize_fields(self@),
    {
        append_bytes(out, self.parent_hash.as_slice());
        append_bytes(out, self.miner_address.as_slice());
        let n = u64_to_le_bytes(self.nonce);
        append_bytes(out, n.as_slice());
        let t = u64_to_le_bytes(self.time);
        append_bytes(out, t.as_slice());
    }

    /// The text that shows the block.
    pub fn to_string(&self) -> (res: String)
        ensures
            res@ == block_text(self@),
    {
        proof {
            use_type_invariant(self);
        }
        let nonce = u64_to_le_bytes(self.nonce);
        let mut text = String::new();
        text.append("{\nhash: ");
        text.append(hex_encode(self.hash.as_slice()).as_str());
        text.append(",\nparent_hash: ");
        text.append(hex_encode(self.parent_hash.as_slice()).as_str());
        text.append(",\nminer_address: ");
        text.append(hex_encode(self.miner_address.as_slice()).as_str());
        text.append(",\nnonce: ");
        text.append(hex_encode(nonce.as_slice()).as_str());
        text.append(",\ntime: ");
        text.append(decimal(self.time).as_str());
        text.append(",\ndifficulty: ");
        text.append(decimal(self.difficulty as u64).as_str());
        text.append("\n}");
        text
    }

    /// Reads a block from the first 80 bytes of `input`.
    pub fn read(input: &[u8]) -> (res: Result<Block, DeserializeError>)
        ensures
            input@.len() < serialized_len() ==> res matches Err(DeserializeError::UnexpectedEof),
            input@.len() >= serialized_len() ==> (res matches Ok(b) && b@ == parse_fields(input@)),
    {
        if input.len() < 80 {
            return Err(DeserializeError::UnexpectedEof);
        }
        let parent_hash = to_array(&input[0..32]);
        let miner_address = to_array(&input[32..64]);
        let nonce = u64_from_le_bytes(&input[64..72]);
        let time = u64_from_le_bytes(&input[72..80]);
        Ok(Block::new(parent_hash, miner_address, nonce, time))
    }
}

} // verus!
