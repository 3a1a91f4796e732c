use blockchain_node::blockchain::block::{hash, Block};
use blockchain_node::blockchain::memory_blockchain::MemoryBlockchain;
use blockchain_node::blockchain::Error;

fn seed() -> Block {
    Block::new([0; 32], [0; 32], 0, 0, 1622999578)
}

#[test]
fn chain_block_hash_covers_the_difficulty() {
    let a = Block::new([0; 32], [0; 32], 0, 0, 1);
    let b = Block::new([0; 32], [0; 32], 0, 1, 1);
    assert_ne!(a.hash(), b.hash());
    assert_eq!(*a.hash(), hash([0; 32], [0; 32], 0, 0, 1));
    assert_eq!(b.difficulty(), 1);
    assert_eq!(b.time(), 1);
    assert_eq!(b.nonce(), 0);
    assert_eq!(b.parent_hash(), [0; 32]);
    assert_eq!(b.miner_address(), [0; 32]);
}

#[test]
fn new_store_holds_the_seed() {
    let s = seed();
    let m = MemoryBlockchain::new(s);
    assert_eq!(m.genesis().hash(), s.hash());
    assert_eq!(m.top().hash(), s.hash());
    assert_eq!(m.height(s.hash()), Some(0));
    assert!(m.contains(s.hash()));
    assert!(m.get(&[9; 32]).is_none());
}

#[test]
fn add_then_get_in_memory() {
    let s = seed();
    let mut m = MemoryBlockchain::new(s);
    // The seed's difficulty field is 0, so a child is accepted when its hash
    // does not end in a zero byte.
    let mut nonce = 0;
    let child = loop {
        let c = Block::new(*s.hash(), [1; 32], nonce, 0, 5);
        if c.hash()[31] != 0 {
            break c;
        }
        nonce += 1;
    };
    assert_eq!(m.add(child), Ok(()));
    assert_eq!(m.get(child.hash()).unwrap().hash(), child.hash());
    assert_eq!(m.height(child.hash()), Some(1));
    assert_eq!(m.top().hash(), child.hash());
    assert_eq!(m.get_child(s.hash()).unwrap().hash(), child.hash());
    assert!(m.get_child(child.hash()).is_none());
}

#[test]
fn add_refusals_in_memory() {
    let s = seed();
    let mut m = MemoryBlockchain::new(s);
    let orphan = Block::new([5; 32], [1; 32], 0, 0, 5);
    assert_eq!(m.add(orphan), Err(Error::MissingParent));
    let mut nonce = 0;
    let zero_ending = loop {
        let c = Block::new(*s.hash(), [1; 32], nonce, 0, 5);
        if c.hash()[31] == 0 {
            break c;
        }
        nonce += 1;
    };
    assert_eq!(m.add(zero_ending), Err(Error::InvalidHash));
    assert!(!m.contains(zero_ending.hash()));
}

fn from_hex(s: &str) -> [u8; 32] {
    let mut out = [0u8; 32];
    for i in 0..32 {
        out[i] = u8::from_str_radix(&s[2 * i..2 * i + 2], 16).unwrap();
    }
    out
}

#[test]
fn chain_block_hash_value_and_text() {
    let b = Block::new([1; 32], [2; 32], 258, 3, 77);
    assert_eq!(
        *b.hash(),
        from_hex("0fac8ec3ffe4c953408ae9cd5d6f51f9fde3dc78095e2066ec5e4b91bba1d1d0")
    );
    let text = b.to_string();
    assert!(text.starts_with("{\nhash: 0fac8ec3ffe4c953408ae9cd5d6f51f9fde3dc78095e2066ec5e4b91bba1d1d0,\n"));
    assert!(text.contains("nonce: 0201000000000000,\ntime: 77,\ndifficulty: 3\n}"));
}
