//! A block store kept in memory: blocks indexed by hash, each with its
//! height, and the highest block.

use vstd::prelude::*;

use crate::block::{difficulty, trailing_zero_bytes};
use crate::blockchain::block::{Block, hash_of};
use crate::blockchain::Error;
use crate::byte_util::equal32;
use crate::keyed_map::KeyedMap;

verus! {

/// The contents of an in-memory store: each block with its height.
pub struct MemoryBlockchainView {
    pub genesis: (Block, u64),
    pub blocks: Map<Seq<u8>, (Block, u64)>,
    pub top: (Block, u64),
}

/// What adding `b` returns and leaves: a block is added when its parent is
/// stored and its hash ends in as many zero bytes as the parent's difficulty
/// says; it is one above its parent, and the top when higher than the top.
pub open spec fn memory_add_outcome(v: MemoryBlockchainView, b: Block) -> (Result<(), Error>, MemoryBlockchainView) {
    if !v.blocks.contains_key(b@.parent_hash) {
        (Err(Error::MissingParent), v)
    } else {
        let parent = v.blocks[b@.parent_hash];
        if trailing_zero_bytes(hash_of(b@)) != parent.0@.difficulty {
            (Err(Error::InvalidHash), v)
        } else {
            let node = (b, (parent.1 + 1) as u64);
            (
                Ok(()),
                MemoryBlockchainView {
                    genesis: v.genesis,
                    blocks: v.blocks.insert(hash_of(b@), node),
                    top: if node.1 > v.top.1 { node } else { v.top },
                },
            )
        }
    }
}

/// Following parents from `cur` for at most `fuel` steps, the first block
/// whose parent hash is `target`.
pub open spec fn memory_walk_to_child(v: MemoryBlockchainView, cur: Block, target: Seq<u8>, fuel: nat) -> Option<Block>
    decreases fuel,
{
    if cur@.parent_hash == target {
        Some(cur)
    } else if fuel == 0 {
        None
    } else if v.blocks.contains_key(cur@.parent_hash) {
        memory_walk_to_child(v, v.blocks[cur@.parent_hash].0, target, (fuel - 1) as nat)
    } else {
        None
    }
}

/// Every stored block is stored under its own hash, none is higher than the
/// top, and every one above height 0 has its parent stored.
pub open spec fn memory_consistent(v: MemoryBlockchainView) -> bool {
    forall|k: Seq<u8>|
        #![trigger v.blocks[k]]
        v.blocks.contains_key(k) ==> {
            &&& hash_of(v.blocks[k].0@) == k
            &&& v.blocks[k].1 <= v.top.1
            &&& v.blocks[k].1 != 0 ==> v.blocks.contains_key(v.blocks[k].0@.parent_hash)
        }
}

pub struct MemoryBlockchain {
    genesis: (Block, u64),
    blocks: KeyedMap<[u8; 32], (Block, u64)>,
    top: (Block, u64),
}

impl View for MemoryBlockchain {
    type V = MemoryBlockchainView;

    closed spec fn view(&self) -> MemoryBlockchainView {
        MemoryBlockchainView { genesis: self.genesis, blocks: self.blocks@, top: self.top }
    }
}

impl MemoryBlockchain {
    pub closed spec fn wf(&self) -> bool {
        &&& self.blocks.wf()
        &&& memory_consistent(self@)
    }

    /// A well-formed store is consistent.
    pub proof fn lemma_wf(&self)
        requires
            self.wf(),
        ensures
            memory_consistent(self@),
    {
    }

    /// A store holding `seed` alone, at height 0; it is the genesis and the top.
    pub fn new(seed: Block) -> (res: MemoryBlockchain)
        ensures
            res.wf(),
            res@.genesis == (seed, 0u64),
            res@.top == (seed, 0u64),
            res@.blocks == map![hash_of(seed@) => (seed, 0u64)],
    {
        let mut blocks: KeyedMap<[u8; 32], (Block, u64)> = KeyedMap::new();
        let node = (seed, 0u64);
        blocks.insert(*seed.hash(), node);
        assert(blocks@ =~= map![hash_of(seed@) => (seed, 0u64)]);
        MemoryBlockchain { blocks, genesis: node, top: node }
    }

    /// Adds a block whose parent is stored and whose hash ends in as many
    /// zero bytes as its parent's difficulty; otherwise nothing changes.
    pub fn add(&mut self, block: Block) -> (res: Result<(), Error>)
        requires
            old(self).wf(),
            old(self)@.top.1 < u64::MAX,
        ensures
            final(self).wf(),
            (res, final(self)@) == memory_add_outcome(old(self)@, block),
    {
        match self.blocks.get(&block.parent_hash()) {
            Some(parent) => {
                assert(self@.blocks[block@.parent_hash] == parent);
                if difficulty(block.hash()) != parent.0.difficulty() {
                    Err(Error::InvalidHash)
                } else {
                    let node = (block, parent.1 + 1);
                    self.blocks.insert(*block.hash(), node);
                    if node.1 > self.top.1 {
                        self.top = node;
                    }
                    Ok(())
                }
            },
            None => Err(Error::MissingParent),
        }
    }

    /// The block stored under `hash`.
    pub fn get(&self, hash: &[u8; 32]) -> (res: Option<Block>)
        requires
            self.wf(),
        ensures
            res == (if self@.blocks.contains_key(hash@) {
                Some(self@.blocks[hash@].0)
            } else {
                None::<Block>
            }),
    {
        match self.blocks.get(hash) {
            Some(node) => Some(node.0),
            None => None,
        }
    }

    /// The block of the main chain whose parent is `parent_hash`, found by
    /// following parents down from the top, for at most as many steps as there
    /// are stored blocks.
    pub fn get_child(&self, parent_hash: &[u8; 32]) -> (res: Option<Block>)
        requires
            self.wf(),
        ensures
            res == memory_walk_to_child(self@, self@.top.0, parent_hash@, self@.blocks.dom().len()),
    {
        proof {
            self.blocks.lemma_len();
        }
        let ghost total = self@.blocks.dom().len();
        let mut block = self.top.0;
        let mut fuel: usize = self.blocks.len();
        loop
            invariant
                self.wf(),
                total == self@.blocks.dom().len(),
                memory_walk_to_child(self@, self@.top.0, parent_hash@, total) == memory_walk_to_child(
                    self@,
                    block,
                    parent_hash@,
                    fuel as nat,
                ),
            decreases fuel,
        {
            let block_parent = block.parent_hash();
            if equal32(&block_parent, parent_hash) {
                return Some(block);
            }
            if fuel == 0 {
                return None;
            }
            match self.blocks.get(&block_parent) {
                Some(node) => {
                    block = node.0;
                },
                None => {
                    return None;
                },
            }
            fuel = fuel - 1;
        }
    }

    pub fn genesis(&self) -> (res: Block)
        ensures
            res == self@.genesis.0,
    {
        self.genesis.0
    }

    pub fn top(&self) -> (res: Block)
        ensures
            res == self@.top.0,
    {
        self.top.0
    }

    pub fn height(&self, hash: &[u8; 32]) -> (res: Option<u64>)
        requires
            self.wf(),
        ensures
            res == (if self@.blocks.contains_key(hash@) {
                Some(self@.blocks[hash@].1)
            } else {
                None::<u64>
            }),
    {
        match self.blocks.get(hash) {
            Some(node) => Some(node.1),
            None => None,
        }
    }

    pub fn contains(&self, hash: &[u8; 32]) -> (res: bool)
        requires
            self.wf(),
        ensures
            res == self@.blocks.contains_key(hash@),
    {
        self.blocks.contains_key(hash)
    }
}

/// Adding a block and then getting it by its hash gives back the block that
/// was added, one above its parent; a refused block leaves the store as it
/// was; the top stays the highest block.
pub proof fn lemma_memory_add_then_get(v: MemoryBlockchainView, b: Block)
    requires
        memory_consistent(v),
        v.top.1 < u64::MAX,
    ensures
        memory_add_outcome(v, b).0 is Ok ==> {
            let after = memory_add_outcome(v, b).1;
            &&& after.blocks.contains_key(hash_of(b@))
            &&& after.blocks[hash_of(b@)] == (b, (v.blocks[b@.parent_hash].1 + 1) as u64)
            &&& after.blocks[hash_of(b@)].1 == v.blocks[b@.parent_hash].1 + 1
            &&& memory_consistent(after)
        },
        memory_add_outcome(v, b).0 is Err ==> memory_add_outcome(v, b).1 == v,
{
    if memory_add_outcome(v, b).0 is Ok {
        let parent = v.blocks[b@.parent_hash];
        assert(parent.1 <= v.top.1);
    }
}

/// The chain is connected: every stored block above height 0 has its parent
/// stored.
pub proof fn lemma_memory_parent_stored(v: MemoryBlockchainView, hash: Seq<u8>)
    requires
        memory_consistent(v),
        v.blocks.contains_key(hash),
        v.blocks[hash].1 != 0,
    ensures
        v.blocks.contains_key(v.blocks[hash].0@.parent_hash),
{
    assert(v.blocks[hash].1 != 0);
}

/// The block that `get_child` finds has the requested parent.
pub proof fn lemma_memory_child_has_parent(v: MemoryBlockchainView, cur: Block, target: Seq<u8>, fuel: nat)
    ensures
        memory_walk_to_child(v, cur, target, fuel) matches Some(c) ==> c@.parent_hash == target,
    decreases fuel,
{
    if cur@.parent_hash != target && fuel > 0 && v.blocks.contains_key(cur@.parent_hash) {
        lemma_memory_child_has_parent(v, v.blocks[cur@.parent_hash].0, target, (fuel - 1) as nat);
    }
}

} // verus!
