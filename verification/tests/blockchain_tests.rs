use blockchain_node::block::Block;
use blockchain_node::blockchain::{Blockchain, Error};

fn genesis() -> Block {
    Block::new([0; 32], [0; 32], 0, 1622999578)
}

/// A child of the genesis block whose hash ends in one zero byte.
fn child() -> Block {
    Block::new(*genesis().hash(), [7; 32], 9, 1623000000)
}

/// A child of `child()` whose hash ends in one zero byte.
fn grandchild() -> Block {
    Block::new(*child().hash(), [7; 32], 94, 1623000100)
}

/// A second child of the genesis block whose hash ends in one zero byte.
fn sibling() -> Block {
    Block::new(*genesis().hash(), [7; 32], 327, 1623000000)
}

fn bytes_of(blocks: &[Block]) -> Vec<u8> {
    let mut out = Vec::new();
    for b in blocks {
        b.write(&mut out);
    }
    out
}

#[test]
fn empty_image_is_replaced_by_the_genesis_block() {
    let g = genesis();
    assert!(Blockchain::loadable(&g, &[]));
    let bc = Blockchain::new(g, Vec::new()).unwrap();
    assert_eq!(bc.storage(), &bytes_of(&[g]));
    assert_eq!(bc.top().unwrap().hash(), g.hash());
    assert_eq!(bc.height(g.hash()).unwrap(), 0);
    assert_eq!(bc.genesis().hash(), g.hash());
}

#[test]
fn image_with_another_genesis_is_discarded() {
    let other = Block::new([1; 32], [0; 32], 0, 5);
    let image = bytes_of(&[other, child()]);
    let bc = Blockchain::new(genesis(), image).unwrap();
    assert_eq!(bc.storage(), &bytes_of(&[genesis()]));
    assert!(!bc.contains(child().hash()));
}

#[test]
fn add_then_get() {
    let mut bc = Blockchain::new(genesis(), Vec::new()).unwrap();
    assert_eq!(bc.add(child()), Ok(()));
    let got = bc.get(child().hash()).unwrap();
    assert_eq!(got.hash(), child().hash());
    assert_eq!(got.nonce(), 9);
    assert_eq!(bc.height(child().hash()), Ok(1));
    assert_eq!(bc.top().unwrap().hash(), child().hash());
    assert_eq!(bc.storage(), &bytes_of(&[genesis(), child()]));
    assert!(bc.contains(child().hash()));
}

#[test]
fn add_without_parent_is_refused() {
    let mut bc = Blockchain::new(genesis(), Vec::new()).unwrap();
    assert_eq!(bc.add(grandchild()), Err(Error::MissingParent));
    assert_eq!(bc.storage(), &bytes_of(&[genesis()]));
}

#[test]
fn add_below_target_is_refused() {
    let mut bc = Blockchain::new(genesis(), Vec::new()).unwrap();
    let weak = Block::new(*genesis().hash(), [7; 32], 0, 1623000000);
    assert_eq!(weak.difficulty(), 0);
    assert_eq!(bc.add(weak), Err(Error::InvalidHash));
    assert!(!bc.contains(weak.hash()));
}

#[test]
fn get_of_unknown_hash_is_not_found() {
    let bc = Blockchain::new(genesis(), Vec::new()).unwrap();
    assert!(matches!(bc.get(&[5; 32]), Err(Error::NotFound)));
    assert_eq!(bc.height(&[5; 32]), Err(Error::NotFound));
    assert_eq!(bc.difficulty_target(&child()), Err(Error::NotFound));
}

#[test]
fn top_stays_on_the_first_highest_block() {
    let mut bc = Blockchain::new(genesis(), Vec::new()).unwrap();
    bc.add(child()).unwrap();
    bc.add(sibling()).unwrap();
    assert_eq!(bc.top().unwrap().hash(), child().hash());
    bc.add(grandchild()).unwrap();
    assert_eq!(bc.top().unwrap().hash(), grandchild().hash());
    assert_eq!(bc.height(grandchild().hash()), Ok(2));
}

#[test]
fn get_child_follows_the_main_chain() {
    let mut bc = Blockchain::new(genesis(), Vec::new()).unwrap();
    bc.add(child()).unwrap();
    bc.add(sibling()).unwrap();
    bc.add(grandchild()).unwrap();
    assert_eq!(bc.get_child(genesis().hash()).unwrap().hash(), child().hash());
    assert_eq!(bc.get_child(child().hash()).unwrap().hash(), grandchild().hash());
    assert!(matches!(bc.get_child(grandchild().hash()), Err(Error::NotFound)));
    assert!(matches!(bc.get_child(sibling().hash()), Err(Error::NotFound)));
}

#[test]
fn difficulty_target_by_height() {
    let mut bc = Blockchain::new(genesis(), Vec::new()).unwrap();
    assert_eq!(bc.difficulty_target(&genesis()), Ok(1));
    bc.add(child()).unwrap();
    assert_eq!(bc.difficulty_target(&child()), Ok(1));
}

#[test]
fn stored_bytes_reload_into_the_same_store() {
    let mut bc = Blockchain::new(genesis(), Vec::new()).unwrap();
    bc.add(child()).unwrap();
    bc.add(sibling()).unwrap();
    bc.add(grandchild()).unwrap();
    let image = bc.storage().clone();
    assert!(Blockchain::loadable(&genesis(), &image));
    let reloaded = Blockchain::new(genesis(), image.clone()).unwrap();
    assert_eq!(reloaded.storage(), &image);
    assert_eq!(reloaded.top().unwrap().hash(), grandchild().hash());
    for b in [genesis(), child(), sibling(), grandchild()] {
        assert_eq!(reloaded.height(b.hash()), bc.height(b.hash()));
        assert_eq!(reloaded.get(b.hash()).unwrap().hash(), b.hash());
    }
}

#[test]
fn image_with_unknown_parent_cannot_be_loaded() {
    let image = bytes_of(&[genesis(), grandchild()]);
    assert!(!Blockchain::loadable(&genesis(), &image));
}

#[test]
fn trailing_partial_block_is_kept_but_not_read() {
    let mut image = bytes_of(&[genesis(), child()]);
    image.extend_from_slice(&[1, 2, 3]);
    let bc = Blockchain::new(genesis(), image.clone()).unwrap();
    assert_eq!(bc.storage(), &image);
    assert_eq!(bc.height(child().hash()), Ok(1));
}

#[test]
fn print_blocks_lists_every_stored_block() {
    let mut bc = Blockchain::new(genesis(), Vec::new()).unwrap();
    bc.add(child()).unwrap();
    bc.add(grandchild()).unwrap();
    let (list, result) = bc.print_blocks();
    assert_eq!(result, Ok(()));
    assert_eq!(list.len(), 3);
    assert_eq!(list[0].0.hash(), genesis().hash());
    assert_eq!((list[0].1, list[0].2), (0, false));
    assert_eq!((list[1].1, list[1].2), (1, false));
    assert_eq!(list[2].0.hash(), grandchild().hash());
    assert_eq!((list[2].1, list[2].2), (2, true));
}

#[test]
fn load_checks_before_loading() {
    let bad = bytes_of(&[genesis(), grandchild()]);
    assert!(Blockchain::load(genesis(), bad).is_none());
    let good = bytes_of(&[genesis(), child(), grandchild()]);
    let bc = Blockchain::load(genesis(), good).unwrap();
    assert_eq!(bc.height(grandchild().hash()), Ok(2));
}

#[test]
fn every_block_but_genesis_has_its_parent_stored() {
    let mut bc = Blockchain::new(genesis(), Vec::new()).unwrap();
    bc.add(child()).unwrap();
    bc.add(sibling()).unwrap();
    bc.add(grandchild()).unwrap();
    for b in [child(), sibling(), grandchild()] {
        let stored = bc.get(b.hash()).unwrap();
        assert!(bc.get(&stored.parent_hash()).is_ok());
    }
}

#[test]
fn reload_after_adds_with_refusals_and_a_repeat() {
    let mut bc = Blockchain::new(genesis(), Vec::new()).unwrap();
    bc.add(child()).unwrap();
    assert_eq!(bc.add(Block::new([9; 32], [7; 32], 1, 2)), Err(Error::MissingParent));
    bc.add(grandchild()).unwrap();
    // The same block once more: stored again, at the same height.
    bc.add(child()).unwrap();
    bc.add(sibling()).unwrap();
    assert_eq!(bc.storage().len(), 5 * 80);
    let reloaded = Blockchain::load(genesis(), bc.storage().clone()).unwrap();
    assert_eq!(reloaded.top().unwrap().hash(), bc.top().unwrap().hash());
    for b in [genesis(), child(), sibling(), grandchild()] {
        assert_eq!(reloaded.contains(b.hash()), true);
        assert_eq!(reloaded.height(b.hash()), bc.height(b.hash()));
    }
    assert!(!reloaded.contains(&[9; 32]));
}

#[test]
fn heights_count_from_genesis_and_blocks_stay_retrievable() {
    let mut bc = Blockchain::new(genesis(), Vec::new()).unwrap();
    bc.add(child()).unwrap();
    let first = bc.get(child().hash()).unwrap();
    bc.add(sibling()).unwrap();
    bc.add(grandchild()).unwrap();
    bc.add(child()).unwrap();
    let later = bc.get(child().hash()).unwrap();
    assert_eq!(
        (later.parent_hash(), later.miner_address(), later.nonce(), later.time(), *later.hash()),
        (first.parent_hash(), first.miner_address(), first.nonce(), first.time(), *first.hash())
    );
    assert_eq!(bc.height(genesis().hash()), Ok(0));
    let top_height = bc.height(bc.top().unwrap().hash()).unwrap();
    for b in [child(), sibling(), grandchild()] {
        let stored = bc.get(b.hash()).unwrap();
        let h = bc.height(b.hash()).unwrap();
        assert_eq!(h, bc.height(&stored.parent_hash()).unwrap() + 1);
        assert!(h <= top_height);
    }
    assert!(matches!(bc.get(&[5; 32]), Err(Error::NotFound)));
}

#[test]
fn heights_hold_for_a_file_with_a_repeated_block() {
    let image = bytes_of(&[genesis(), child(), child(), sibling(), grandchild(), child()]);
    let mut bc = Blockchain::load(genesis(), image).unwrap();
    assert_eq!(bc.height(genesis().hash()), Ok(0));
    assert_eq!(bc.height(child().hash()), Ok(1));
    assert_eq!(bc.height(sibling().hash()), Ok(1));
    assert_eq!(bc.height(grandchild().hash()), Ok(2));
    assert_eq!(bc.top().unwrap().hash(), grandchild().hash());
    // Adding the genesis block again is refused: its parent is not stored.
    assert_eq!(bc.add(genesis()), Err(Error::MissingParent));
    bc.add(grandchild()).unwrap();
    assert_eq!(bc.height(grandchild().hash()), Ok(2));
    assert_eq!(bc.height(genesis().hash()), Ok(0));
}
