//! The block store: serialized blocks back to back in one byte string (the
//! image of the database file), and an index from block hash to the block's
//! position and height. The first block is the genesis block.

pub mod block;
pub mod memory_blockchain;

use vstd::prelude::*;

use crate::block::{Block, BlockView, serialize_fields, parse_fields, hash_of, difficulty_of};
use crate::block::lemma_block_roundtrip;
use crate::byte_util::equal32;
use crate::keyed_map::KeyedMap;

verus! {

/// Why an operation on the block store failed.
#[derive(Debug, PartialEq, Eq, Structural)]
pub enum Error {
    /// The block's parent is not in the store.
    MissingParent,
    /// The block's difficulty is below the target that its parent sets.
    InvalidHash,
    /// No block with that hash is in the store.
    NotFound,
}

/// Where a block is stored and how far it is from the genesis block.
#[derive(Debug, Clone, Copy, PartialEq, Eq, Structural)]
pub struct BlockEntry {
    pub address: u64,
    pub height: u64,
}

/// The contents of a block store.
pub struct BlockchainView {
    pub storage: Seq<u8>,
    pub genesis: Block,
    pub entries: Map<Seq<u8>, BlockEntry>,
    pub top: BlockEntry,
}

/// The block stored at `address`.
pub open spec fn block_at(storage: Seq<u8>, address: int) -> BlockView {
    parse_fields(storage.subrange(address, address + 80))
}

/// The difficulty that the children of a block at this height must reach.
pub open spec fn target_for_height(height: int) -> u8 {
    if height > 1010 {
        3
    } else if height > 1000 {
        2
    } else {
        1
    }
}

/// A whole block is stored at the entry's address, and the entry's height is
/// small enough that counting one more never overflows.
pub open spec fn entry_fits(storage: Seq<u8>, e: BlockEntry) -> bool {
    &&& e.address + 80 <= storage.len()
    &&& e.height * 80 + 80 <= storage.len()
}

/// Every indexed hash is that of the block stored at its entry's address, the
/// parent of every indexed block but the first stored one is indexed too, no
/// height exceeds the top's, and the top block's hash is indexed.
pub open spec fn consistent(v: BlockchainView) -> bool {
    &&& forall|k: Seq<u8>|
        #![trigger v.entries[k]]
        v.entries.contains_key(k) ==> {
            &&& entry_fits(v.storage, v.entries[k])
            &&& hash_of(block_at(v.storage, v.entries[k].address as int)) == k
            &&& v.entries[k].height <= v.top.height
            &&& v.entries[k].address != 0 ==> v.entries.contains_key(
                block_at(v.storage, v.entries[k].address as int).parent_hash,
            )
        }
    &&& entry_fits(v.storage, v.top)
    &&& v.entries.contains_key(hash_of(block_at(v.storage, v.top.address as int)))
}

/// The image kept when loading: the given one when its first block has the
/// genesis block's hash, else the genesis block alone.
pub open spec fn kept_image(genesis: BlockView, image: Seq<u8>) -> Seq<u8> {
    if image.len() >= 80 && hash_of(parse_fields(image)) == hash_of(genesis) {
        image
    } else {
        serialize_fields(genesis)
    }
}

/// The index and top after reading the first `count` blocks of `storage`
/// (the genesis block at address 0, then one block every 80 bytes); `None`
/// when one of them has a parent that was not read before it.
pub open spec fn scan(storage: Seq<u8>, genesis_hash: Seq<u8>, count: nat) -> Option<(Map<Seq<u8>, BlockEntry>, BlockEntry)>
    decreases count,
{
    if count <= 1 {
        Some((map![genesis_hash => BlockEntry { address: 0, height: 0 }], BlockEntry { address: 0, height: 0 }))
    } else {
        match scan(storage, genesis_hash, (count - 1) as nat) {
            None => None,
            Some(state) => {
                let address = 80 * (count - 1);
                let b = block_at(storage, address);
                if state.0.contains_key(b.parent_hash) {
                    let e = BlockEntry {
                        address: address as u64,
                        height: (state.0[b.parent_hash].height + 1) as u64,
                    };
                    Some((state.0.insert(hash_of(b), e), if e.height > state.1.height { e } else { state.1 }))
                } else {
                    None
                }
            },
        }
    }
}

/// The store that loading `image` with this genesis block gives; `None` when
/// a stored block's parent is stored nowhere before it.
pub open spec fn loaded(genesis: Block, image: Seq<u8>) -> Option<BlockchainView> {
    let s = kept_image(genesis@, image);
    match scan(s, hash_of(genesis@), s.len() / 80) {
        Some(state) => Some(BlockchainView { storage: s, genesis, entries: state.0, top: state.1 }),
        None => None,
    }
}

/// What adding `b` returns and leaves.
pub open spec fn add_outcome(v: BlockchainView, b: BlockView) -> (Result<(), Error>, BlockchainView) {
    if !v.entries.contains_key(b.parent_hash) {
        (Err(Error::MissingParent), v)
    } else {
        let parent = v.entries[b.parent_hash];
        if difficulty_of(b) < target_for_height(parent.height as int) {
            (Err(Error::InvalidHash), v)
        } else {
            let e = BlockEntry { address: v.storage.len() as u64, height: (parent.height + 1) as u64 };
            (
                Ok(()),
                BlockchainView {
                    storage: v.storage + serialize_fields(b),
                    genesis: v.genesis,
                    entries: v.entries.insert(hash_of(b), e),
                    top: if e.height > v.top.height { e } else { v.top },
                },
            )
        }
    }
}

/// What `get` returns.
pub open spec fn get_outcome(v: BlockchainView, hash: Seq<u8>) -> Result<BlockView, Error> {
    if v.entries.contains_key(hash) {
        Ok(block_at(v.storage, v.entries[hash].address as int))
    } else {
        Err(Error::NotFound)
    }
}

/// Following parents from `cur` for at most `fuel` steps, the first block
/// whose parent hash is `target`.
pub open spec fn walk_to_child(v: BlockchainView, cur: BlockView, target: Seq<u8>, fuel: nat) -> Result<BlockView, Error>
    decreases fuel,
{
    if cur.parent_hash == target {
        Ok(cur)
    } else if fuel == 0 {
        Err(Error::NotFound)
    } else if v.entries.contains_key(cur.parent_hash) {
        walk_to_child(v, block_at(v.storage, v.entries[cur.parent_hash].address as int), target, (fuel - 1) as nat)
    } else {
        Err(Error::NotFound)
    }
}

/// The listing of the first `count` stored blocks (one every 80 bytes): each
/// with its height and whether it is the top; it stops with `NotFound` at a
/// block whose hash is not indexed.
pub open spec fn listing(v: BlockchainView, count: nat) -> (Seq<(BlockView, u64, bool)>, Result<(), Error>)
    decreases count,
{
    if count == 0 {
        (Seq::empty(), Ok(()))
    } else {
        let prev = listing(v, (count - 1) as nat);
        if prev.1 is Err {
            prev
        } else {
            let b = block_at(v.storage, 80 * (count - 1));
            if v.entries.contains_key(hash_of(b)) {
                let is_top = hash_of(b) == hash_of(block_at(v.storage, v.top.address as int));
                (prev.0.push((b, v.entries[hash_of(b)].height, is_top)), Ok(()))
            } else {
                (prev.0, Err(Error::NotFound))
            }
        }
    }
}

proof fn lemma_scan_stops(storage: Seq<u8>, gh: Seq<u8>, k: nat, n: nat)
    requires
        k <= n,
        scan(storage, gh, k) is None,
    ensures
        scan(storage, gh, n) is None,
    decreases n - k,
{
    if k < n {
        lemma_scan_stops(storage, gh, k + 1, n);
    }
}

proof fn lemma_block_at_start(s: Seq<u8>)
    requires
        s.len() >= 80,
    ensures
        block_at(s, 0) == parse_fields(s),
{
    assert(s.subrange(0, 80).subrange(0, 32) =~= s.subrange(0, 32));
    assert(s.subrange(0, 80).subrange(32, 64) =~= s.subrange(32, 64));
    assert(s.subrange(0, 80).subrange(64, 72) =~= s.subrange(64, 72));
    assert(s.subrange(0, 80).subrange(72, 80) =~= s.subrange(72, 80));
}

proof fn lemma_block_at_append(s: Seq<u8>, t: Seq<u8>, a: int)
    requires
        0 <= a,
        a + 80 <= s.len(),
    ensures
        block_at(s + t, a) == block_at(s, a),
{
    assert((s + t).subrange(a, a + 80) =~= s.subrange(a, a + 80));
}

/// A block store: the stored bytes, the genesis block, the index from hash to
/// entry, and the entry of the highest block.
pub struct Blockchain {
    storage: Vec<u8>,
    genesis: Block,
    block_entries: KeyedMap<[u8; 32], BlockEntry>,
    top: BlockEntry,
}

impl View for Blockchain {
    type V = BlockchainView;

    closed spec fn view(&self) -> BlockchainView {
        BlockchainView {
            storage: self.storage@,
            genesis: self.genesis,
            entries: self.block_entries@,
            top: self.top,
        }
    }
}

impl Blockchain {
    pub closed spec fn wf(&self) -> bool {
        &&& self.block_entries.wf()
        &&& self.storage@.len() >= 80
        &&& consistent(self@)
    }

    /// A well-formed store is consistent, and holds at least the genesis block.
    pub proof fn lemma_wf(&self)
        requires
            self.wf(),
        ensures
            consistent(self@),
            self@.storage.len() >= 80,
    {
    }

    fn read_at(&self, address: u64) -> (res: Block)
        requires
            self.wf(),
            address + 80 <= self@.storage.len(),
        ensures
            res@ == block_at(self@.storage, address as int),
    {
        let len = self.storage.len();
        assert(address + 80 <= len);
        let a = address as usize;
        let bytes = self.storage.as_slice();
        let slice = &bytes[a..a + 80];
        match Block::read(slice) {
            Ok(b) => b,
            Err(_) => {
                assert(false);
                self.genesis
            },
        }
    }

    /// Whether the first block of `image` has the genesis block's hash.
    fn keeps_image(genesis: &Block, image: &[u8]) -> (res: bool)
        ensures
            res == (image@.len() >= 80 && hash_of(parse_fields(image@)) == hash_of(genesis@)),
    {
        if image.len() >= 80 {
            match Block::read(image) {
                Ok(saved) => equal32(saved.hash(), genesis.hash()),
                Err(_) => false,
            }
        } else {
            false
        }
    }

    /// Indexes the blocks of `storage` in order; `None` when one of them has
    /// a parent that is not indexed before it.
    fn scan_storage(storage: &[u8], genesis: &Block) -> (res: Option<(KeyedMap<[u8; 32], BlockEntry>, BlockEntry)>)
        requires
            storage@.len() >= 80,
            hash_of(block_at(storage@, 0)) == hash_of(genesis@),
        ensures
            match res {
                Some(state) => {
                    &&& state.0.wf()
                    &&& scan(storage@, hash_of(genesis@), storage@.len() / 80) == Some((state.0@, state.1))
                    &&& consistent(
                        BlockchainView { storage: storage@, genesis: *genesis, entries: state.0@, top: state.1 },
                    )
                },
                None => scan(storage@, hash_of(genesis@), storage@.len() / 80) is None,
            },
    {
        let ghost s = storage@;
        let genesis_hash = *genesis.hash();
        let ghost gh = genesis_hash@;
        let mut block_entries: KeyedMap<[u8; 32], BlockEntry> = KeyedMap::new();
        let first = BlockEntry { address: 0, height: 0 };
        block_entries.insert(genesis_hash, first);
        let mut top = first;
        let len = storage.len();
        let n = len / 80;
        assert(80 * n <= s.len()) by (nonlinear_arith)
            requires
                n == s.len() / 80,
        ;
        assert(block_entries@ =~= map![gh => first]);
        let mut i: usize = 1;
        while i < n
            invariant
                s == storage@,
                gh == hash_of(genesis@),
                s.len() >= 80,
                n == s.len() / 80,
                80 * n <= s.len(),
                s.len() == len,
                1 <= i <= n,
                scan(s, gh, i as nat) == Some((block_entries@, top)),
                block_entries.wf(),
                forall|k: Seq<u8>|
                    #![trigger block_entries@[k]]
                    block_entries@.contains_key(k) ==> {
                        &&& block_entries@[k].address + 80 <= 80 * i
                        &&& block_entries@[k].height < i
                        &&& hash_of(block_at(s, block_entries@[k].address as int)) == k
                        &&& block_entries@[k].height <= top.height
                        &&& block_entries@[k].address != 0 ==> block_entries@.contains_key(
                            block_at(s, block_entries@[k].address as int).parent_hash,
                        )
                    },
                top.address + 80 <= 80 * i,
                top.height < i,
                block_entries@.contains_key(hash_of(block_at(s, top.address as int))),
            decreases n - i,
        {
            let address = i * 80;
            let slice = &storage[address..address + 80];
            let b = match Block::read(slice) {
                Ok(b) => b,
                Err(_) => {
                    assert(false);
                    *genesis
                },
            };
            assert(b@ == block_at(s, address as int));
            let parent = match block_entries.get(&b.parent_hash()) {
                Some(p) => p,
                None => {
                    proof {
                        assert(scan(s, gh, (i + 1) as nat) is None);
                        lemma_scan_stops(s, gh, (i + 1) as nat, n as nat);
                    }
                    return None;
                },
            };
            let height = parent.height + 1;
            let entry = BlockEntry { address: address as u64, height };
            block_entries.insert(*b.hash(), entry);
            if height > top.height {
                top = entry;
            }
            i = i + 1;
        }
        Some((block_entries, top))
    }

    /// Whether `image` can be loaded with this genesis block: when its first
    /// block has the genesis block's hash, every later whole block must have
    /// a parent stored before it.
    pub fn loadable(genesis: &Block, image: &[u8]) -> (res: bool)
        ensures
            res == loaded(*genesis, image@) is Some,
    {
        if Self::keeps_image(genesis, image) {
            proof {
                lemma_block_at_start(image@);
            }
            Self::scan_storage(image, genesis).is_some()
        } else {
            proof {
                lemma_block_roundtrip(*genesis);
            }
            true
        }
    }

    /// Loads a store from the bytes of its database file. The image is kept
    /// when its first block has the genesis block's hash, and replaced by the
    /// genesis block alone otherwise; then every whole 80-byte block after the
    /// first is indexed in order, each one height above its parent, and the
    /// highest block seen first becomes the top. Bytes after the last whole
    /// block are kept and not read.
    pub fn new(genesis: Block, image: Vec<u8>) -> (res: Result<Blockchain, Error>)
        requires
            loaded(genesis, image@) is Some,
        ensures
            res matches Ok(bc) && bc.wf() && loaded(genesis, image@) == Some(bc@),
    {
        let keep = Self::keeps_image(&genesis, image.as_slice());
        let storage = if keep {
            image
        } else {
            let mut s: Vec<u8> = Vec::new();
            genesis.write(&mut s);
            proof {
                lemma_block_roundtrip(genesis);
                assert(s@ =~= serialize_fields(genesis@));
            }
            s
        };
        proof {
            lemma_block_at_start(storage@);
            if !keep {
                lemma_block_roundtrip(genesis);
            }
        }
        match Self::scan_storage(storage.as_slice(), &genesis) {
            Some(state) => {
                let bc = Blockchain { storage, genesis, block_entries: state.0, top: state.1 };
                Ok(bc)
            },
            None => {
                assert(false);
                Err(Error::NotFound)
            },
        }
    }

    /// Loads a store when `image` can be loaded with this genesis block (see
    /// `new`); `None` when a stored block's parent is stored nowhere before it.
    pub fn load(genesis: Block, image: Vec<u8>) -> (res: Option<Blockchain>)
        ensures
            res is Some <==> loaded(genesis, image@) is Some,
            res matches Some(bc) ==> bc.wf() && loaded(genesis, image@) == Some(bc@),
    {
        if Self::loadable(&genesis, image.as_slice()) {
            match Self::new(genesis, image) {
                Ok(bc) => Some(bc),
                Err(_) => None,
            }
        } else {
            None
        }
    }

    /// Adds a block whose parent is stored and whose difficulty reaches the
    /// target its parent sets: the block is appended to the stored bytes and
    /// indexed one height above its parent; it becomes the top when it is
    /// higher than the top. Otherwise nothing changes.
    pub fn add(&mut self, block: Block) -> (res: Result<(), Error>)
        requires
            old(self).wf(),
        ensures
            final(self).wf(),
            (res, final(self)@) == add_outcome(old(self)@, block@),
    {
        let parent_hash = block.parent_hash();
        match self.block_entries.get(&parent_hash) {
            None => Err(Error::MissingParent),
            Some(parent_entry) => {
                let len = self.storage.len();
                assert(self@.entries[parent_hash@] == parent_entry);
                assert(entry_fits(self@.storage, parent_entry));
                let parent = self.read_at(parent_entry.address);
                let height = parent_entry.height + 1;
                let target = match self.difficulty_target(&parent) {
                    Ok(t) => t,
                    Err(e) => {
                        assert(false);
                        return Err(e);
                    },
                };
                if block.difficulty() < target {
                    Err(Error::InvalidHash)
                } else {
                    let ghost old_view = self@;
                    let address = self.storage.len() as u64;
                    block.write(&mut self.storage);
                    let entry = BlockEntry { address, height };
                    if height > self.top.height {
                        self.top = entry;
                    }
                    self.block_entries.insert(*block.hash(), entry);
                    proof {
                        lemma_block_roundtrip(block);
                        let s0 = old_view.storage;
                        let t = serialize_fields(block@);
                        assert(self@.storage == s0 + t);
                        assert forall|k: Seq<u8>| #[trigger] old_view.entries.contains_key(k) implies block_at(s0 + t, old_view.entries[k].address as int) == block_at(s0, old_view.entries[k].address as int) by {
                            lemma_block_at_append(s0, t, old_view.entries[k].address as int);
                        }
                        assert((s0 + t).subrange(s0.len() as int, s0.len() + 80int) =~= t);
                        lemma_block_at_append(s0, t, old_view.top.address as int);
                        assert(self@.entries.contains_key(hash_of(block_at(self@.storage, self@.top.address as int))));
                        assert(consistent(self@));
                    }
                    Ok(())
                }
            },
        }
    }

    /// The block stored under `hash`.
    pub fn get(&self, hash: &[u8; 32]) -> (res: Result<Block, Error>)
        requires
            self.wf(),
        ensures
            match res {
                Ok(b) => get_outcome(self@, hash@) == Ok::<BlockView, Error>(b@) && hash_of(b@) == hash@,
                Err(e) => get_outcome(self@, hash@) == Err::<BlockView, Error>(e),
            },
    {
        match self.block_entries.get(hash) {
            Some(entry) => Ok(self.read_at(entry.address)),
            None => Err(Error::NotFound),
        }
    }

    /// The block of the main chain (the one that ends at the top) whose parent
    /// is `parent_hash`, found by following parents down from the top, for at
    /// most as many steps as there are indexed blocks.
    pub fn get_child(&self, parent_hash: &[u8; 32]) -> (res: Result<Block, Error>)
        requires
            self.wf(),
        ensures
            match res {
                Ok(b) => walk_to_child(
                    self@,
                    block_at(self@.storage, self@.top.address as int),
                    parent_hash@,
                    self@.entries.dom().len(),
                ) == Ok::<BlockView, Error>(b@),
                Err(e) => walk_to_child(
                    self@,
                    block_at(self@.storage, self@.top.address as int),
                    parent_hash@,
                    self@.entries.dom().len(),
                ) == Err::<BlockView, Error>(e),
            },
    {
        proof {
            self.block_entries.lemma_len();
        }
        let ghost start = block_at(self@.storage, self@.top.address as int);
        let ghost total = self@.entries.dom().len();
        let mut block = self.read_at(self.top.address);
        let mut fuel: usize = self.block_entries.len();
        loop
            invariant
                self.wf(),
                start == block_at(self@.storage, self@.top.address as int),
                total == self@.entries.dom().len(),
                walk_to_child(self@, start, parent_hash@, total) == walk_to_child(self@, block@, parent_hash@, fuel as nat),
            decreases fuel,
        {
            let block_parent = block.parent_hash();
            if equal32(&block_parent, parent_hash) {
                return Ok(block);
            }
            if fuel == 0 {
                return Err(Error::NotFound);
            }
            match self.get(&block_parent) {
                Ok(b) => {
                    block = b;
                },
                Err(e) => {
                    return Err(e);
                },
            }
            fuel = fuel - 1;
        }
    }

    pub fn genesis(&self) -> (res: Block)
        ensures
            res == self@.genesis,
    {
        self.genesis
    }

    /// The highest block.
    pub fn top(&self) -> (res: Result<Block, Error>)
        requires
            self.wf(),
        ensures
            res matches Ok(b) && b@ == block_at(self@.storage, self@.top.address as int),
    {
        Ok(self.read_at(self.top.address))
    }

    /// The height of the block stored under `hash`.
    pub fn height(&self, hash: &[u8; 32]) -> (res: Result<u64, Error>)
        requires
            self.wf(),
        ensures
            self@.entries.contains_key(hash@) ==> res == Ok::<u64, Error>(self@.entries[hash@].height),
            !self@.entries.contains_key(hash@) ==> res == Err::<u64, Error>(Error::NotFound),
    {
        match self.block_entries.get(hash) {
            Some(entry) => Ok(entry.height),
            None => Err(Error::NotFound),
        }
    }

    pub fn contains(&self, hash: &[u8; 32]) -> (res: bool)
        requires
            self.wf(),
        ensures
            res == self@.entries.contains_key(hash@),
    {
        self.block_entries.contains_key(hash)
    }

    /// The difficulty the children of `block` must reach: 1, then 2 above
    /// height 1000, then 3 above height 1010.
    pub fn difficulty_target(&self, block: &Block) -> (res: Result<u8, Error>)
        requires
            self.wf(),
        ensures
            self@.entries.contains_key(hash_of(block@)) ==> res == Ok::<u8, Error>(
                target_for_height(self@.entries[hash_of(block@)].height as int),
            ),
            !self@.entries.contains_key(hash_of(block@)) ==> res == Err::<u8, Error>(Error::NotFound),
    {
        let height = match self.height(block.hash()) {
            Ok(h) => h,
            Err(e) => return Err(e),
        };
        if height > 1010 {
            Ok(3)
        } else if height > 1000 {
            Ok(2)
        } else {
            Ok(1)
        }
    }

    /// Lists the stored blocks in order, one every 80 bytes from the start,
    /// each with its height and whether it is the top block; the listing stops
    /// with `NotFound` at a block whose hash is not indexed.
    pub fn print_blocks(&self) -> (res: (Vec<(Block, u64, bool)>, Result<(), Error>))
        requires
            self.wf(),
        ensures
            res.0@.len() == listing(self@, self@.storage.len() / 80).0.len(),
            forall|i: int|
                0 <= i < res.0@.len() ==> {
                    let expected = #[trigger] listing(self@, self@.storage.len() / 80).0[i];
                    &&& res.0@[i].0@ == expected.0
                    &&& res.0@[i].1 == expected.1
                    &&& res.0@[i].2 == expected.2
                },
            res.1 == listing(self@, self@.storage.len() / 80).1,
    {
        let len = self.storage.len();
        let n = len / 80;
        assert(80 * n <= self@.storage.len()) by (nonlinear_arith)
            requires
                n == self@.storage.len() / 80,
        ;
        let top = self.read_at(self.top.address);
        let top_hash = *top.hash();
        let mut out: Vec<(Block, u64, bool)> = Vec::new();
        let mut i: usize = 0;
        while i < n
            invariant
                self.wf(),
                n == self@.storage.len() / 80,
                80 * n <= self@.storage.len(),
                len == self@.storage.len(),
                i <= n,
                top_hash@ == hash_of(block_at(self@.storage, self@.top.address as int)),
                listing(self@, i as nat).1 == Ok::<(), Error>(()),
                out@.len() == listing(self@, i as nat).0.len(),
                forall|j: int|
                    0 <= j < out@.len() ==> {
                        let expected = #[trigger] listing(self@, i as nat).0[j];
                        &&& out@[j].0@ == expected.0
                        &&& out@[j].1 == expected.1
                        &&& out@[j].2 == expected.2
                    },
            decreases n - i,
        {
            let b = self.read_at((i * 80) as u64);
            match self.height(b.hash()) {
                Ok(h) => {
                    let is_top = equal32(b.hash(), &top_hash);
                    out.push((b, h, is_top));
                },
                Err(e) => {
                    proof {
                        lemma_listing_stops(self@, (i + 1) as nat, n as nat);
                    }
                    return (out, Err(e));
                },
            }
            i = i + 1;
        }
        (out, Ok(()))
    }

    /// The stored bytes, as they belong in the database file.
    pub fn storage(&self) -> (res: &Vec<u8>)
        ensures
            res@ == self@.storage,
    {
        &self.storage
    }
}

proof fn lemma_listing_stops(v: BlockchainView, k: nat, n: nat)
    requires
        k <= n,
        listing(v, k).1 is Err,
    ensures
        listing(v, n) == listing(v, k),
    decreases n - k,
{
    if k < n {
        lemma_listing_stops(v, k + 1, n);
        assert(listing(v, k + 1) == listing(v, k));
    }
}


/// Adding a block and then getting it by its hash gives back the block that
/// was added, and it is one above its parent; a refused block leaves the
/// store as it was; an added block only appends to the stored bytes.
pub proof fn lemma_add_then_get(v: BlockchainView, b: Block)
    requires
        consistent(v),
        v.storage.len() + 80 <= u64::MAX,
    ensures
        add_outcome(v, b@).0 is Ok ==> {
            let after = add_outcome(v, b@).1;
            &&& get_outcome(after, hash_of(b@)) == Ok::<BlockView, Error>(b@)
            &&& after.entries[hash_of(b@)].height == v.entries[b@.parent_hash].height + 1
            &&& after.storage.subrange(0, v.storage.len() as int) == v.storage
        },
        add_outcome(v, b@).0 is Err ==> add_outcome(v, b@).1 == v,
{
    lemma_block_roundtrip(b);
    let t = serialize_fields(b@);
    if add_outcome(v, b@).0 is Ok {
        let after = add_outcome(v, b@).1;
        assert(entry_fits(v.storage, v.entries[b@.parent_hash]));
        assert(after.storage.subrange(v.storage.len() as int, v.storage.len() + 80int) =~= t);
        assert(after.storage.subrange(0, v.storage.len() as int) =~= v.storage);
    }
}

/// In a consistent store no block is higher than the top block.
pub proof fn lemma_top_is_highest(v: BlockchainView, hash: Seq<u8>)
    requires
        consistent(v),
        v.entries.contains_key(hash),
    ensures
        v.entries[hash].height <= v.top.height,
{
    assert(v.entries[hash].height <= v.top.height);
}

/// The chain is connected: the parent of every indexed block but the one
/// stored first (the genesis block) can be got from the store.
pub proof fn lemma_parent_stored(v: BlockchainView, hash: Seq<u8>)
    requires
        consistent(v),
        v.entries.contains_key(hash),
        v.entries[hash].address != 0,
    ensures
        get_outcome(v, block_at(v.storage, v.entries[hash].address as int).parent_hash) is Ok,
{
    assert(v.entries.contains_key(block_at(v.storage, v.entries[hash].address as int).parent_hash));
}

/// The block that `get_child` finds has the requested parent.
pub proof fn lemma_child_has_parent(v: BlockchainView, cur: BlockView, target: Seq<u8>, fuel: nat)
    ensures
        walk_to_child(v, cur, target, fuel) is Ok ==> walk_to_child(v, cur, target, fuel)->Ok_0.parent_hash == target,
    decreases fuel,
{
    if cur.parent_hash != target && fuel > 0 && v.entries.contains_key(cur.parent_hash) {
        lemma_child_has_parent(
            v,
            block_at(v.storage, v.entries[cur.parent_hash].address as int),
            target,
            (fuel - 1) as nat,
        );
    }
}

proof fn lemma_scan_append(s: Seq<u8>, t: Seq<u8>, gh: Seq<u8>, k: nat)
    requires
        80 * k <= s.len(),
    ensures
        scan(s + t, gh, k) == scan(s, gh, k),
    decreases k,
{
    if k > 1 {
        lemma_scan_append(s, t, gh, (k - 1) as nat);
        lemma_block_at_append(s, t, 80 * (k - 1));
    }
}

/// Reloading the stored bytes of a loaded store gives the same store.
pub proof fn lemma_reload_loaded(genesis: Block, image: Seq<u8>)
    requires
        loaded(genesis, image) is Some,
    ensures
        loaded(genesis, loaded(genesis, image)->Some_0.storage) == loaded(genesis, image),
{
    lemma_block_roundtrip(genesis);
    let s = kept_image(genesis@, image);
    assert(kept_image(genesis@, s) == s);
}

/// The bytes that a store appends for an added block reload into the store
/// as it is after the addition: when a store is what its own stored bytes
/// (a whole number of blocks) load into, so is the store after `add`.
pub proof fn lemma_add_then_reload(v: BlockchainView, b: Block)
    requires
        loaded(v.genesis, v.storage) == Some(v),
        v.storage.len() % 80 == 0,
        add_outcome(v, b@).0 is Ok,
    ensures
        loaded(v.genesis, add_outcome(v, b@).1.storage) == Some(add_outcome(v, b@).1),
{
    lemma_block_roundtrip(b);
    let s = v.storage;
    let t = serialize_fields(b@);
    let s2 = s + t;
    let g = v.genesis;
    let gh = hash_of(g@);
    let n = s.len() / 80;
    assert(s2.len() / 80 == n + 1);
    assert(80 * n == s.len());
    assert(kept_image(g@, s) == s);
    assert(s.len() >= 80) by {
        if s.len() < 80 {
            lemma_block_roundtrip(g);
        }
    }
    assert(parse_fields(s2) == parse_fields(s)) by {
        assert(s2.subrange(0, 32) =~= s.subrange(0, 32));
        assert(s2.subrange(32, 64) =~= s.subrange(32, 64));
        assert(s2.subrange(64, 72) =~= s.subrange(64, 72));
        assert(s2.subrange(72, 80) =~= s.subrange(72, 80));
    }
    assert(hash_of(parse_fields(s)) == gh) by {
        if !(s.len() >= 80 && hash_of(parse_fields(s)) == gh) {
            assert(s == serialize_fields(g@));
            lemma_block_roundtrip(g);
            assert(parse_fields(s) == g@);
        }
    }
    assert(kept_image(g@, s2) == s2);
    lemma_scan_append(s, t, gh, n);
    assert(s2.subrange(80 * n as int, 80 * n + 80int) =~= t);
    assert(n >= 1);
    assert(scan(s2, gh, n + 1) == Some((add_outcome(v, b@).1.entries, add_outcome(v, b@).1.top)));
}

/// The store after adding the blocks of `bs` in order, each add taken as it
/// comes out, refused ones leaving the store as it was.
pub open spec fn add_all(v: BlockchainView, bs: Seq<Block>) -> BlockchainView
    decreases bs.len(),
{
    if bs.len() == 0 {
        v
    } else {
        add_outcome(add_all(v, bs.drop_last()), bs.last()@).1
    }
}

/// Adding a block keeps a store consistent, and appends to its bytes only
/// the block's 80 bytes when it is added.
pub proof fn lemma_add_keeps_consistent(v: BlockchainView, b: Block)
    requires
        consistent(v),
        v.storage.len() + 80 <= u64::MAX,
    ensures
        consistent(add_outcome(v, b@).1),
        add_outcome(v, b@).1.genesis == v.genesis,
        add_outcome(v, b@).1.storage.len() == v.storage.len() + (if add_outcome(v, b@).0 is Ok { 80int } else { 0int }),
{
    if add_outcome(v, b@).0 is Ok {
        lemma_block_roundtrip(b);
        let after = add_outcome(v, b@).1;
        let s0 = v.storage;
        let t = serialize_fields(b@);
        assert(entry_fits(v.storage, v.entries[b@.parent_hash]));
        assert forall|k: Seq<u8>| #[trigger] v.entries.contains_key(k) implies block_at(s0 + t, v.entries[k].address as int)
            == block_at(s0, v.entries[k].address as int) by {
            lemma_block_at_append(s0, t, v.entries[k].address as int);
        }
        assert((s0 + t).subrange(s0.len() as int, s0.len() + 80int) =~= t);
        lemma_block_at_append(s0, t, v.top.address as int);
        assert(after.entries.contains_key(hash_of(block_at(after.storage, after.top.address as int))));
    }
}

/// Adding a series of blocks keeps a store consistent.
pub proof fn lemma_add_all_keeps_consistent(v: BlockchainView, bs: Seq<Block>)
    requires
        consistent(v),
        v.storage.len() + 80 * bs.len() <= u64::MAX,
    ensures
        consistent(add_all(v, bs)),
        add_all(v, bs).genesis == v.genesis,
        v.storage.len() <= add_all(v, bs).storage.len() <= v.storage.len() + 80 * bs.len(),
        (add_all(v, bs).storage.len() - v.storage.len()) % 80 == 0,
    decreases bs.len(),
{
    if bs.len() > 0 {
        lemma_add_all_keeps_consistent(v, bs.drop_last());
        lemma_add_keeps_consistent(add_all(v, bs.drop_last()), bs.last());
    }
}

/// Reloading after a series of adds gives the same store: when a store is
/// what its own stored bytes (a whole number of blocks) load into, so is the
/// store after any series of adds, whichever of them are refused.
pub proof fn lemma_reload_after_adds(v: BlockchainView, bs: Seq<Block>)
    requires
        loaded(v.genesis, v.storage) == Some(v),
        v.storage.len() % 80 == 0,
    ensures
        loaded(v.genesis, add_all(v, bs).storage) == Some(add_all(v, bs)),
        add_all(v, bs).genesis == v.genesis,
        add_all(v, bs).storage.len() % 80 == 0,
    decreases bs.len(),
{
    if bs.len() > 0 {
        let before = add_all(v, bs.drop_last());
        lemma_reload_after_adds(v, bs.drop_last());
        if add_outcome(before, bs.last()@).0 is Ok {
            lemma_add_then_reload(before, bs.last());
            lemma_block_roundtrip(bs.last());
            assert(add_outcome(before, bs.last()@).1.storage.len() == before.storage.len() + 80);
        }
    }
}

/// A store loaded from a file that holds whole blocks only, then changed by
/// any series of adds, reloads from its bytes into the same store: the same
/// hashes, entries, heights and top.
pub proof fn lemma_new_add_reload(genesis: Block, image: Seq<u8>, bs: Seq<Block>)
    requires
        loaded(genesis, image) is Some,
        image.len() % 80 == 0,
    ensures
        ({
            let after = add_all(loaded(genesis, image)->Some_0, bs);
            loaded(genesis, after.storage) == Some(after)
        }),
{
    let v = loaded(genesis, image)->Some_0;
    lemma_reload_loaded(genesis, image);
    lemma_block_roundtrip(genesis);
    assert(v.storage.len() % 80 == 0);
    lemma_reload_after_adds(v, bs);
}


proof fn lemma_get_after_add(v: BlockchainView, b: Block, h: Seq<u8>)
    requires
        consistent(v),
        v.storage.len() + 80 <= u64::MAX,
        v.entries.contains_key(h),
        hash_of(b@) == h ==> b@ == get_outcome(v, h)->Ok_0,
    ensures
        get_outcome(add_outcome(v, b@).1, h) == get_outcome(v, h),
{
    if add_outcome(v, b@).0 is Ok {
        lemma_add_then_get(v, b);
        if hash_of(b@) != h {
            lemma_block_roundtrip(b);
            assert(entry_fits(v.storage, v.entries[h]));
            lemma_block_at_append(v.storage, serialize_fields(b@), v.entries[h].address as int);
        }
    }
}

/// A stored block stays stored: after any series of adds, getting it by its
/// hash gives the same block, as long as no added block carries its hash with
/// other contents.
pub proof fn lemma_get_stays(v: BlockchainView, bs: Seq<Block>, h: Seq<u8>)
    requires
        consistent(v),
        v.storage.len() + 80 * bs.len() <= u64::MAX,
        v.entries.contains_key(h),
        forall|i: int| 0 <= i < bs.len() && hash_of(#[trigger] bs[i]@) == h ==> bs[i]@ == get_outcome(v, h)->Ok_0,
    ensures
        get_outcome(add_all(v, bs), h) == get_outcome(v, h),
    decreases bs.len(),
{
    if bs.len() > 0 {
        let rest = bs.drop_last();
        assert forall|i: int| 0 <= i < rest.len() && hash_of(#[trigger] rest[i]@) == h implies rest[i]@ == get_outcome(v, h)->Ok_0 by {
            assert(rest[i] == bs[i]);
        }
        lemma_get_stays(v, rest, h);
        lemma_add_all_keeps_consistent(v, rest);
        let w = add_all(v, rest);
        assert(bs[bs.len() - 1] == bs.last());
        lemma_get_after_add(w, bs.last(), h);
    }
}

/// A block once added can be got back by its hash after any later series of
/// adds, as long as no later block carries its hash with other contents.
pub proof fn lemma_added_block_stays(v: BlockchainView, b: Block, bs: Seq<Block>)
    requires
        consistent(v),
        v.storage.len() + 80 * bs.len() + 80 <= u64::MAX,
        add_outcome(v, b@).0 is Ok,
        forall|i: int| 0 <= i < bs.len() && hash_of(#[trigger] bs[i]@) == hash_of(b@) ==> bs[i]@ == b@,
    ensures
        get_outcome(add_all(add_outcome(v, b@).1, bs), hash_of(b@)) == Ok::<BlockView, Error>(b@),
{
    lemma_add_then_get(v, b);
    lemma_add_keeps_consistent(v, b);
    lemma_get_stays(add_outcome(v, b@).1, bs, hash_of(b@));
}


/// The genesis block is stored first, at height 0; every other indexed block
/// is one above its parent, which is indexed too; and the top block's hash is
/// indexed at the top's height.
pub open spec fn heights_ok(v: BlockchainView) -> bool {
    &&& hash_of(block_at(v.storage, 0)) == hash_of(v.genesis@)
    &&& v.entries.contains_key(hash_of(v.genesis@))
    &&& v.entries[hash_of(v.genesis@)] == BlockEntry { address: 0, height: 0 }
    &&& forall|k: Seq<u8>|
        #![trigger v.entries[k]]
        v.entries.contains_key(k) && v.entries[k].address != 0 ==> {
            let p = block_at(v.storage, v.entries[k].address as int).parent_hash;
            &&& v.entries.contains_key(p)
            &&& v.entries[k].height == v.entries[p].height + 1
        }
    &&& v.entries[hash_of(block_at(v.storage, v.top.address as int))].height == v.top.height
}

/// The stored first block is the genesis block, and the genesis block's
/// parent hash is not indexed: the chain has a root.
pub open spec fn rooted(v: BlockchainView) -> bool {
    &&& block_at(v.storage, 0) == v.genesis@
    &&& !v.entries.contains_key(v.genesis@.parent_hash)
}

/// `b` is new to the store or is the very block stored under its hash, and
/// its hash is not the genesis block's parent hash: adding it makes no hash
/// collision and no hash cycle.
pub open spec fn fits_store(v: BlockchainView, b: BlockView) -> bool {
    &&& v.entries.contains_key(hash_of(b)) ==> block_at(v.storage, v.entries[hash_of(b)].address as int) == b
    &&& hash_of(b) != v.genesis@.parent_hash
}

proof fn lemma_add_keeps_heights_step(v: BlockchainView, b: Block)
    requires
        consistent(v),
        heights_ok(v),
        v.storage.len() + 80 <= u64::MAX,
        v.entries.contains_key(hash_of(b@)) ==> {
            &&& v.entries[hash_of(b@)].address != 0
            &&& block_at(v.storage, v.entries[hash_of(b@)].address as int) == b@
        },
    ensures
        heights_ok(add_outcome(v, b@).1),
{
    if add_outcome(v, b@).0 is Ok {
        lemma_block_roundtrip(b);
        lemma_add_then_get(v, b);
        let after = add_outcome(v, b@).1;
        let s0 = v.storage;
        let t = serialize_fields(b@);
        let h = hash_of(b@);
        let p = b@.parent_hash;
        let gh = hash_of(v.genesis@);
        let e = after.entries[h];
        assert(entry_fits(v.storage, v.entries[gh]));
        lemma_block_at_append(s0, t, 0);
        assert(h != gh);
        assert(e.address == s0.len());
        assert(block_at(after.storage, e.address as int) == b@);
        // A block already stored under `h` sits at the height the new entry gets.
        assert(v.entries.contains_key(h) ==> v.entries[h].height == e.height) by {
            if v.entries.contains_key(h) {
                assert(block_at(s0, v.entries[h].address as int) == b@);
            }
        }
        assert(p != h) by {
            if p == h {
                assert(block_at(s0, v.entries[h].address as int) == b@);
            }
        }
        assert forall|k: Seq<u8>| #[trigger] after.entries.contains_key(k) && after.entries[k].address != 0 implies {
            let q = block_at(after.storage, after.entries[k].address as int).parent_hash;
            &&& after.entries.contains_key(q)
            &&& after.entries[k].height == after.entries[q].height + 1
        } by {
            if k != h {
                assert(entry_fits(v.storage, v.entries[k]));
                lemma_block_at_append(s0, t, v.entries[k].address as int);
                let q = block_at(s0, v.entries[k].address as int).parent_hash;
                assert(v.entries.contains_key(q));
                assert(v.entries[k].height == v.entries[q].height + 1);
            }
        }
        lemma_block_at_append(s0, t, v.top.address as int);
        let th = hash_of(block_at(s0, v.top.address as int));
        assert(v.entries.contains_key(th));
        assert(after.entries[hash_of(block_at(after.storage, after.top.address as int))].height == after.top.height);
    }
}

/// Adding a block that fits the store keeps the genesis block at height 0 and
/// every other block one above its parent. A block already stored may be
/// added again, the genesis block too (whose add is refused: its parent is
/// not stored).
pub proof fn lemma_add_keeps_heights(v: BlockchainView, b: Block)
    requires
        consistent(v),
        heights_ok(v),
        rooted(v),
        v.storage.len() + 80 <= u64::MAX,
        fits_store(v, b@),
    ensures
        heights_ok(add_outcome(v, b@).1),
        rooted(add_outcome(v, b@).1),
{
    let h = hash_of(b@);
    if add_outcome(v, b@).0 is Ok {
        if v.entries.contains_key(h) && v.entries[h].address == 0 {
            // Stored at address 0, `b` is the genesis block, whose parent is not stored.
            assert(block_at(v.storage, 0) == b@);
            assert(false);
        }
        lemma_add_keeps_heights_step(v, b);
        lemma_block_roundtrip(b);
        let gh = hash_of(v.genesis@);
        assert(entry_fits(v.storage, v.entries[gh]));
        lemma_block_at_append(v.storage, serialize_fields(b@), 0);
    }
}

/// A series of blocks, each fitting the store when its turn comes.
pub open spec fn each_fits(v: BlockchainView, bs: Seq<Block>) -> bool
    decreases bs.len(),
{
    bs.len() == 0 || (each_fits(v, bs.drop_last()) && fits_store(add_all(v, bs.drop_last()), bs.last()@))
}

/// Adding a series of blocks, each fitting the store, keeps the genesis block
/// at height 0 and every other block one above its parent.
pub proof fn lemma_add_all_keeps_heights(v: BlockchainView, bs: Seq<Block>)
    requires
        consistent(v),
        heights_ok(v),
        rooted(v),
        v.storage.len() + 80 * bs.len() <= u64::MAX,
        each_fits(v, bs),
    ensures
        heights_ok(add_all(v, bs)),
        rooted(add_all(v, bs)),
    decreases bs.len(),
{
    if bs.len() > 0 {
        lemma_add_all_keeps_heights(v, bs.drop_last());
        lemma_add_all_keeps_consistent(v, bs.drop_last());
        lemma_add_keeps_heights(add_all(v, bs.drop_last()), bs.last());
    }
}

/// Among the whole blocks of `s` (one every 80 bytes), blocks with the same
/// hash are the same block, one with the genesis block's hash is the genesis
/// block, and none has the genesis block's parent hash as its hash: the
/// stored bytes hold no hash collision and no hash cycle.
pub open spec fn hashes_fit(s: Seq<u8>, genesis: BlockView) -> bool {
    &&& forall|a1: int, a2: int|
        #![trigger block_at(s, a1), block_at(s, a2)]
        0 <= a1 < a2 && a1 % 80 == 0 && a2 % 80 == 0 && a2 + 80 <= s.len() && hash_of(block_at(s, a1)) == hash_of(
            block_at(s, a2),
        ) ==> block_at(s, a1) == block_at(s, a2)
    &&& forall|a: int|
        #![trigger block_at(s, a)]
        0 <= a && a % 80 == 0 && a + 80 <= s.len() ==> {
            &&& hash_of(block_at(s, a)) != genesis.parent_hash
            &&& hash_of(block_at(s, a)) == hash_of(genesis) ==> block_at(s, a) == genesis
        }
}

proof fn lemma_scan_heights(s: Seq<u8>, g: BlockView, count: nat)
    requires
        1 <= count,
        80 * count <= s.len() <= u64::MAX,
        block_at(s, 0) == g,
        hashes_fit(s, g),
        scan(s, hash_of(g), count) is Some,
    ensures
        ({
            let gh = hash_of(g);
            let st = scan(s, gh, count)->Some_0;
            &&& st.0.contains_key(gh)
            &&& st.0[gh] == BlockEntry { address: 0, height: 0 }
            &&& forall|k: Seq<u8>|
                #![trigger st.0[k]]
                st.0.contains_key(k) ==> {
                    &&& st.0[k].address % 80 == 0
                    &&& st.0[k].address + 80 <= 80 * count
                    &&& st.0[k].height < count
                    &&& hash_of(block_at(s, st.0[k].address as int)) == k
                    &&& st.0[k].address != 0 ==> {
                        let p = block_at(s, st.0[k].address as int).parent_hash;
                        &&& st.0.contains_key(p)
                        &&& st.0[k].height == st.0[p].height + 1
                    }
                }
            &&& st.1.address % 80 == 0
            &&& st.1.address + 80 <= 80 * count
            &&& st.0.contains_key(hash_of(block_at(s, st.1.address as int)))
            &&& st.0[hash_of(block_at(s, st.1.address as int))].height == st.1.height
        }),
    decreases count,
{
    let gh = hash_of(g);
    assert(0int % 80 == 0);
    assert(hash_of(block_at(s, 0)) != g.parent_hash);
    if count > 1 {
        lemma_scan_heights(s, g, (count - 1) as nat);
        let prev = scan(s, gh, (count - 1) as nat)->Some_0;
        let a = 80 * (count - 1);
        assert(a % 80 == 0) by (nonlinear_arith)
            requires
                a == 80 * (count - 1),
                count > 1,
        ;
        let b = block_at(s, a);
        let hb = hash_of(b);
        let p = b.parent_hash;
        let st = scan(s, gh, count)->Some_0;
        assert(prev.0.contains_key(p));
        let e = BlockEntry { address: a as u64, height: (prev.0[p].height + 1) as u64 };
        assert(st.0 == prev.0.insert(hb, e));
        // The parent hash of the genesis block is not indexed: every key is
        // the hash of a stored block.
        assert(!prev.0.contains_key(g.parent_hash)) by {
            if prev.0.contains_key(g.parent_hash) {
                let a0 = prev.0[g.parent_hash].address as int;
                assert(hash_of(block_at(s, a0)) != g.parent_hash);
            }
        }
        if prev.0.contains_key(hb) {
            let a1 = prev.0[hb].address as int;
            assert(hash_of(block_at(s, a1)) == hash_of(block_at(s, a)));
            assert(block_at(s, a1) == b);
            if a1 == 0 {
                assert(b == g);
                assert(false);
            }
            assert(prev.0[hb].height == e.height);
        }
        assert(p != hb) by {
            if p == hb {
                let a1 = prev.0[hb].address as int;
                assert(block_at(s, a1) == b);
                if a1 == 0 {
                    assert(b == g);
                }
            }
        }
        assert(hb != gh) by {
            if hb == gh {
                assert(block_at(s, 0) == b);
                assert(b == g);
            }
        }
        assert forall|k: Seq<u8>| #[trigger] st.0.contains_key(k) && st.0[k].address != 0 implies {
            let q = block_at(s, st.0[k].address as int).parent_hash;
            &&& st.0.contains_key(q)
            &&& st.0[k].height == st.0[q].height + 1
        } by {
            if k != hb {
                let q = block_at(s, prev.0[k].address as int).parent_hash;
                assert(prev.0.contains_key(q));
            }
        }
        let th = hash_of(block_at(s, prev.1.address as int));
        assert(prev.0.contains_key(th));
    }
}

/// A store loaded from an image without hash collision or hash cycle has the
/// genesis block at height 0 and every other block one above its parent.
pub proof fn lemma_loaded_heights(genesis: Block, image: Seq<u8>)
    requires
        loaded(genesis, image) is Some,
        hashes_fit(loaded(genesis, image)->Some_0.storage, genesis@),
        image.len() <= u64::MAX,
    ensures
        heights_ok(loaded(genesis, image)->Some_0),
        rooted(loaded(genesis, image)->Some_0),
{
    lemma_block_roundtrip(genesis);
    let s = kept_image(genesis@, image);
    let gh = hash_of(genesis@);
    let n = s.len() / 80;
    assert(80 * n <= s.len()) by (nonlinear_arith)
        requires
            n == s.len() / 80,
    ;
    lemma_block_at_start(s);
    assert(0int % 80 == 0);
    assert(hash_of(block_at(s, 0)) == gh);
    assert(block_at(s, 0) == genesis@);
    lemma_scan_heights(s, genesis@, n);
    let st = scan(s, gh, n)->Some_0;
    assert(!st.0.contains_key(genesis@.parent_hash)) by {
        if st.0.contains_key(genesis@.parent_hash) {
            let a0 = st.0[genesis@.parent_hash].address as int;
            assert(hash_of(block_at(s, a0)) != genesis@.parent_hash);
        }
    }
}

/// In a store got by `new` from any loadable image, then changed by any
/// series of adds: the genesis block is at height 0, every other block is one
/// above its parent, which is stored too, and no block is higher than the top
/// block, whose hash is stored at the top's height. Blocks may repeat in the
/// image and be added again, the genesis block too; what is left out is a
/// hash collision (two different blocks with one hash) or a hash cycle (a
/// block whose hash is the genesis block's parent hash).
pub proof fn lemma_heights_after_adds(bc: Blockchain, image: Seq<u8>, bs: Seq<Block>)
    requires
        bc.wf(),
        loaded(bc@.genesis, image) == Some(bc@),
        hashes_fit(bc@.storage, bc@.genesis@),
        image.len() <= u64::MAX,
        bc@.storage.len() + 80 * bs.len() <= u64::MAX,
        each_fits(bc@, bs),
    ensures
        heights_ok(add_all(bc@, bs)),
        consistent(add_all(bc@, bs)),
{
    lemma_loaded_heights(bc@.genesis, image);
    lemma_add_all_keeps_heights(bc@, bs);
    lemma_add_all_keeps_consistent(bc@, bs);
}


/// What adding a block does, stated by cases on its inputs: a block whose
/// parent is not stored is refused with `MissingParent`; one whose difficulty
/// is below what its parent's height asks (1, then 2 above height 1000, then
/// 3 above height 1010) is refused with `InvalidHash`; a refused block leaves
/// the store as it was. Any other block is accepted: its 80 bytes are
/// appended, its hash is indexed at the old end of the bytes one height above
/// its parent, and it becomes the top when it is higher than the top.
pub proof fn lemma_add_decides(v: BlockchainView, b: Block)
    ensures
        !v.entries.contains_key(b@.parent_hash) ==> add_outcome(v, b@) == (Err::<(), Error>(Error::MissingParent), v),
        v.entries.contains_key(b@.parent_hash) ==> {
            let ph = v.entries[b@.parent_hash].height;
            let needed: nat = if ph > 1010 { 3 } else if ph > 1000 { 2 } else { 1 };
            let e = BlockEntry { address: v.storage.len() as u64, height: (ph + 1) as u64 };
            &&& difficulty_of(b@) < needed ==> add_outcome(v, b@) == (Err::<(), Error>(Error::InvalidHash), v)
            &&& difficulty_of(b@) >= needed ==> {
                let after = add_outcome(v, b@).1;
                &&& add_outcome(v, b@).0 == Ok::<(), Error>(())
                &&& after.storage == v.storage + serialize_fields(b@)
                &&& after.genesis == v.genesis
                &&& after.entries == v.entries.insert(hash_of(b@), e)
                &&& after.top == (if e.height > v.top.height { e } else { v.top })
            }
        },
{
}


/// The block reached from `b` by following parent hashes `k` times, each
/// parent looked up by its hash; `None` when a parent is not stored.
pub open spec fn ancestor(v: BlockchainView, b: BlockView, k: nat) -> Option<BlockView>
    decreases k,
{
    if k == 0 {
        Some(b)
    } else if v.entries.contains_key(b.parent_hash) {
        ancestor(v, block_at(v.storage, v.entries[b.parent_hash].address as int), (k - 1) as nat)
    } else {
        None
    }
}

proof fn lemma_walk_reaches(v: BlockchainView, cur: BlockView, target: Seq<u8>, fuel: nat, k: nat, c: BlockView)
    requires
        ancestor(v, cur, k) == Some(c),
        c.parent_hash == target,
        k <= fuel,
        forall|j: nat| j < k ==> (#[trigger] ancestor(v, cur, j) matches Some(x) ==> x.parent_hash != target),
    ensures
        walk_to_child(v, cur, target, fuel) == Ok::<BlockView, Error>(c),
    decreases k,
{
    if k > 0 {
        assert(ancestor(v, cur, 0) == Some(cur));
        assert(cur.parent_hash != target);
        let next = block_at(v.storage, v.entries[cur.parent_hash].address as int);
        assert forall|j: nat| j < (k - 1) as nat implies (#[trigger] ancestor(v, next, j) matches Some(x)
            ==> x.parent_hash != target) by {
            assert(ancestor(v, cur, j + 1) == ancestor(v, next, j));
        }
        lemma_walk_reaches(v, next, target, (fuel - 1) as nat, (k - 1) as nat, c);
    }
}

/// What `get_child` finds: when the block `c` is reached from the top block by
/// following parent hashes `k` times, `k` no more than the number of indexed
/// blocks, and no block met before it has `c`'s parent hash as its parent
/// hash, the main-chain child of that parent hash is `c`.
pub proof fn lemma_get_child_finds(v: BlockchainView, k: nat, c: BlockView)
    requires
        ancestor(v, block_at(v.storage, v.top.address as int), k) == Some(c),
        k <= v.entries.dom().len(),
        forall|j: nat|
            j < k ==> (#[trigger] ancestor(v, block_at(v.storage, v.top.address as int), j) matches Some(x)
                ==> x.parent_hash != c.parent_hash),
    ensures
        walk_to_child(v, block_at(v.storage, v.top.address as int), c.parent_hash, v.entries.dom().len())
            == Ok::<BlockView, Error>(c),
{
    lemma_walk_reaches(v, block_at(v.storage, v.top.address as int), c.parent_hash, v.entries.dom().len(), k, c);
}


proof fn lemma_walk_exact(v: BlockchainView, cur: BlockView, target: Seq<u8>, fuel: nat)
    ensures
        walk_to_child(v, cur, target, fuel) matches Ok(c) ==> exists|k: nat|
            k <= fuel && #[trigger] ancestor(v, cur, k) == Some(c) && c.parent_hash == target && forall|j: nat|
                j < k ==> (#[trigger] ancestor(v, cur, j) matches Some(x) ==> x.parent_hash != target),
        walk_to_child(v, cur, target, fuel) is Err ==> forall|k: nat|
            k <= fuel ==> (#[trigger] ancestor(v, cur, k) matches Some(x) ==> x.parent_hash != target),
    decreases fuel,
{
    assert(ancestor(v, cur, 0) == Some(cur));
    if cur.parent_hash != target && fuel > 0 && v.entries.contains_key(cur.parent_hash) {
        let next = block_at(v.storage, v.entries[cur.parent_hash].address as int);
        lemma_walk_exact(v, next, target, (fuel - 1) as nat);
        assert forall|k: nat| k > 0 implies #[trigger] ancestor(v, cur, k) == ancestor(v, next, (k - 1) as nat) by {}
        match walk_to_child(v, cur, target, fuel) {
            Ok(c) => {
                let k = choose|k: nat|
                    k <= fuel - 1 && #[trigger] ancestor(v, next, k) == Some(c) && c.parent_hash == target
                        && forall|j: nat|
                        j < k ==> (#[trigger] ancestor(v, next, j) matches Some(x) ==> x.parent_hash != target);
                assert(ancestor(v, cur, k + 1) == Some(c));
                assert forall|j: nat| j < k + 1 implies (#[trigger] ancestor(v, cur, j) matches Some(x)
                    ==> x.parent_hash != target) by {
                    if j > 0 {
                        assert(ancestor(v, cur, j) == ancestor(v, next, (j - 1) as nat));
                    }
                }
            },
            Err(_) => {
                assert forall|k: nat| k <= fuel implies (#[trigger] ancestor(v, cur, k) matches Some(x)
                    ==> x.parent_hash != target) by {
                    if k > 0 {
                        assert(ancestor(v, cur, k) == ancestor(v, next, (k - 1) as nat));
                    }
                }
            },
        }
    } else if cur.parent_hash != target {
        assert forall|k: nat| k <= fuel implies (#[trigger] ancestor(v, cur, k) matches Some(x) ==> x.parent_hash
            != target) by {
            if k > 0 {
                assert(!v.entries.contains_key(cur.parent_hash) || fuel == 0);
            }
        }
    }
}

/// What `get_child` answers is always a block met going down from the top
/// block: `Ok(c)` only when `c` is reached from the top by following parent
/// hashes at most as many times as there are indexed blocks, has the asked
/// parent hash, and is the first block met with it; `NotFound` only when no
/// block met within that many steps has it.
pub proof fn lemma_get_child_answers(v: BlockchainView, target: Seq<u8>)
    ensures
        ({
            let top = block_at(v.storage, v.top.address as int);
            let n = v.entries.dom().len();
            &&& walk_to_child(v, top, target, n) matches Ok(c) ==> exists|k: nat|
                k <= n && #[trigger] ancestor(v, top, k) == Some(c) && c.parent_hash == target && forall|j: nat|
                    j < k ==> (#[trigger] ancestor(v, top, j) matches Some(x) ==> x.parent_hash != target)
            &&& walk_to_child(v, top, target, n) is Err ==> (walk_to_child(v, top, target, n) == Err::<
                BlockView,
                Error,
            >(Error::NotFound) && forall|k: nat|
                k <= n ==> (#[trigger] ancestor(v, top, k) matches Some(x) ==> x.parent_hash != target))
        }),
{
    let top = block_at(v.storage, v.top.address as int);
    lemma_walk_exact(v, top, target, v.entries.dom().len());
    lemma_walk_not_found(v, top, target, v.entries.dom().len());
}

proof fn lemma_walk_not_found(v: BlockchainView, cur: BlockView, target: Seq<u8>, fuel: nat)
    ensures
        walk_to_child(v, cur, target, fuel) is Err ==> walk_to_child(v, cur, target, fuel) == Err::<BlockView, Error>(
            Error::NotFound,
        ),
    decreases fuel,
{
    if cur.parent_hash != target && fuel > 0 && v.entries.contains_key(cur.parent_hash) {
        lemma_walk_not_found(v, block_at(v.storage, v.entries[cur.parent_hash].address as int), target, (fuel - 1) as nat);
    }
}

} // verus!
