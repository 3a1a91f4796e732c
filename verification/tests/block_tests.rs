use blockchain_node::block::{difficulty, difficulty_target, hash, Block, DeserializeError};

fn from_hex(s: &str) -> [u8; 32] {
    let mut out = [0u8; 32];
    for i in 0..32 {
        out[i] = u8::from_str_radix(&s[2 * i..2 * i + 2], 16).unwrap();
    }
    out
}

fn genesis() -> Block {
    Block::new([0; 32], [0; 32], 0, 1622999578)
}

#[test]
fn hash_of_zero_block_is_sha256_of_its_bytes() {
    let expected = from_hex("5b6fb58e61fa475939767d68a446f97f1bff02c0e5935a3ea8bb51e6515783d8");
    assert_eq!(hash([0; 32], [0; 32], 0, 0), expected);
}

#[test]
fn genesis_hash_and_difficulty() {
    let g = genesis();
    assert_eq!(
        *g.hash(),
        from_hex("d80574e1628d8d4722fcf7e2777e297e6adb7307c76bd43c2bd69b27af1cef42")
    );
    assert_eq!(g.difficulty(), 0);
}

#[test]
fn mined_block_has_one_trailing_zero_byte() {
    let g = genesis();
    let b = Block::new(*g.hash(), [7; 32], 9, 1623000000);
    assert_eq!(
        *b.hash(),
        from_hex("3ac6f8127a03ce8ec807b41d4fa63f6194d85c189c169438aa23d9c55d594000")
    );
    assert_eq!(b.difficulty(), 1);
    assert_eq!(b.parent_hash(), *g.hash());
    assert_eq!(b.miner_address(), [7; 32]);
    assert_eq!(b.nonce(), 9);
    assert_eq!(b.time(), 1623000000);
}

#[test]
fn difficulty_counts_trailing_zero_bytes() {
    let mut h = [1u8; 32];
    assert_eq!(difficulty(&h), 0);
    h[31] = 0;
    h[30] = 0;
    assert_eq!(difficulty(&h), 2);
    h[0] = 0;
    assert_eq!(difficulty(&h), 2);
    assert_eq!(difficulty(&[0u8; 32]), 32);
    let mut only_first = [0u8; 32];
    only_first[0] = 5;
    assert_eq!(difficulty(&only_first), 31);
}

#[test]
fn difficulty_target_is_one() {
    assert_eq!(difficulty_target(&genesis()), 1);
}

#[test]
fn write_then_read_gives_the_block_back() {
    let b = Block::new([3; 32], [4; 32], 0x0102030405060708, 42);
    let mut bytes = Vec::new();
    b.write(&mut bytes);
    assert_eq!(bytes.len(), Block::SERIALIZED_LEN as usize);
    assert_eq!(&bytes[0..32], &[3u8; 32]);
    assert_eq!(&bytes[32..64], &[4u8; 32]);
    assert_eq!(&bytes[64..72], &[8, 7, 6, 5, 4, 3, 2, 1]);
    assert_eq!(&bytes[72..80], &[42, 0, 0, 0, 0, 0, 0, 0]);
    let r = Block::read(&bytes).unwrap();
    assert_eq!(r.parent_hash(), b.parent_hash());
    assert_eq!(r.miner_address(), b.miner_address());
    assert_eq!(r.nonce(), b.nonce());
    assert_eq!(r.time(), b.time());
    assert_eq!(r.hash(), b.hash());
    assert_eq!(r.difficulty(), b.difficulty());
}

#[test]
fn read_uses_only_the_first_eighty_bytes() {
    let b = genesis();
    let mut bytes = Vec::new();
    b.write(&mut bytes);
    bytes.extend_from_slice(&[9, 9, 9]);
    let r = Block::read(&bytes).unwrap();
    assert_eq!(r.hash(), b.hash());
}

#[test]
fn read_of_short_input_fails() {
    let bytes = vec![0u8; 79];
    assert!(matches!(Block::read(&bytes), Err(DeserializeError::UnexpectedEof)));
    assert!(matches!(Block::read(&[]), Err(DeserializeError::UnexpectedEof)));
}

#[test]
fn genesis_text() {
    let expected = "{\nhash: d80574e1628d8d4722fcf7e2777e297e6adb7307c76bd43c2bd69b27af1cef42,\n\
        parent_hash: 0000000000000000000000000000000000000000000000000000000000000000,\n\
        miner_address: 0000000000000000000000000000000000000000000000000000000000000000,\n\
        nonce: 0000000000000000,\ntime: 1622999578,\ndifficulty: 0\n}";
    assert_eq!(genesis().to_string(), expected);
}

#[test]
fn text_shows_nonce_bytes_and_difficulty() {
    let g = genesis();
    let b = Block::new(*g.hash(), [7; 32], 9, 1623000000);
    let text = b.to_string();
    assert!(text.contains("nonce: 0900000000000000,"));
    assert!(text.contains("time: 1623000000,"));
    assert!(text.ends_with("difficulty: 1\n}"));
    assert!(text.contains(&format!("miner_address: {},", "07".repeat(32))));
}
