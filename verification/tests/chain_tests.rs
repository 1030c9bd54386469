use mini_spv_node::{BlockError, BlockHeader, HeaderChain};

// Headers are mined against a very easy target: about half of all nonces pass.
fn create_dummy_header(prev: [u8; 32], nonce_start: u32) -> BlockHeader {
    create_dummy_header_with_bits(prev, nonce_start, 0x207fffff)
}

fn create_dummy_header_with_bits(prev: [u8; 32], nonce_start: u32, bits: u32) -> BlockHeader {
    let mut nonce = nonce_start;
    loop {
        let h = BlockHeader {
            version: 1,
            prev_block_hash: prev,
            merkle_root: [0u8; 32],
            timestamp: 1234567890,
            bits,
            nonce,
        };
        if h.validate_pow() {
            return h;
        }
        nonce = nonce.wrapping_add(1);
    }
}

#[test]
fn test_shorter_chain_more_work() {
    let mut chain = HeaderChain::new();
    let easy_bits = 0x207fffff;

    let genesis = create_dummy_header_with_bits([0u8; 32], 0, easy_bits);
    let genesis_hash = genesis.hash();
    chain.add_header(genesis).unwrap();

    let a1 = create_dummy_header_with_bits(genesis_hash, 10, easy_bits);
    let a1_hash = a1.hash();
    chain.add_header(a1).unwrap();

    let a2 = create_dummy_header_with_bits(a1_hash, 20, easy_bits);
    let a2_hash = a2.hash();
    chain.add_header(a2).unwrap();

    assert_eq!(chain.get_best_tip(), Some(a2_hash));

    let easy = 0x207fffff;
    let hard = 0x1f00ffff;

    let mut chain2 = HeaderChain::new();
    let g = create_dummy_header_with_bits([0u8; 32], 0, easy);
    let gh = g.hash();
    chain2.add_header(g).unwrap();

    let mut prev = gh;
    for i in 0..10 {
        let b = create_dummy_header_with_bits(prev, i * 100, easy);
        prev = b.hash();
        chain2.add_header(b).unwrap();
    }
    let tip_a = prev;
    assert_eq!(chain2.get_best_tip(), Some(tip_a));

    let b1 = create_dummy_header_with_bits(gh, 5000, hard);
    let tip_b = b1.hash();
    chain2.add_header(b1).unwrap();

    assert_eq!(chain2.get_best_tip(), Some(tip_b));
}

#[test]
fn test_chain_linear_and_work() {
    let mut chain = HeaderChain::new();
    let genesis = create_dummy_header([0u8; 32], 0);
    let genesis_hash = genesis.hash();

    chain.add_header(genesis).expect("Genesis should be added");
    assert_eq!(chain.get_best_tip(), Some(genesis_hash));

    let block1 = create_dummy_header(genesis_hash, 1);
    let block1_hash = block1.hash();
    chain.add_header(block1).expect("Block 1 should be added");
    assert_eq!(chain.get_best_tip(), Some(block1_hash));
}

#[test]
fn test_fork_switching() {
    let mut chain = HeaderChain::new();
    let genesis = create_dummy_header([0u8; 32], 0);
    let genesis_hash = genesis.hash();
    chain.add_header(genesis).unwrap();

    let a1 = create_dummy_header(genesis_hash, 10);
    let a1_hash = a1.hash();
    chain.add_header(a1).unwrap();
    assert_eq!(chain.get_best_tip(), Some(a1_hash));

    let a2 = create_dummy_header(a1_hash, 11);
    let a2_hash = a2.hash();
    chain.add_header(a2).unwrap();
    assert_eq!(chain.get_best_tip(), Some(a2_hash));

    let b1 = create_dummy_header(genesis_hash, 20);
    let b1_hash = b1.hash();
    chain.add_header(b1).unwrap();
    assert_eq!(chain.get_best_tip(), Some(a2_hash));

    let b2 = create_dummy_header(b1_hash, 21);
    let b2_hash = b2.hash();
    chain.add_header(b2).unwrap();
    // Equal work keeps the tip that was seen first.
    assert_eq!(chain.get_best_tip(), Some(a2_hash));

    let b3 = create_dummy_header(b2_hash, 22);
    let b3_hash = b3.hash();
    chain.add_header(b3).unwrap();
    assert_eq!(chain.get_best_tip(), Some(b3_hash));
}

#[test]
fn test_parent_not_found() {
    let mut chain = HeaderChain::new();
    let genesis = create_dummy_header([0u8; 32], 0);
    let genesis_hash = genesis.hash();

    let orphan = create_dummy_header(genesis_hash, 1);

    let result = chain.add_header(orphan);
    assert!(matches!(result, Err(BlockError::ParentNotFound)));
}

#[test]
fn test_invalid_pow() {
    let mut chain = HeaderChain::new();
    let mut hard_header = create_dummy_header([0u8; 32], 0);
    hard_header.bits = 0x03000001;

    let result = chain.add_header(hard_header);
    assert!(matches!(result, Err(BlockError::InvalidPoW)));
}

#[test]
fn test_testnet_genesis() {
    let header_hex = "0100000000000000000000000000000000000000000000000000000000000000000000003ba3edfd7a7b12b27ac72c3e67768f617fc81bc3888a51323a9fb8aa4b1e5e4adae5494dffff001d1aa4ae18";
    let header_bytes = hex::decode(header_hex).unwrap();
    let header = BlockHeader::from_bytes(&header_bytes).unwrap();

    let mut chain = HeaderChain::new();
    chain.add_header(header.clone()).unwrap();

    assert_eq!(chain.get_best_tip(), Some(header.hash()));
}

#[test]
fn new_chain_has_no_tip() {
    let chain = HeaderChain::new();
    assert_eq!(chain.get_best_tip(), None);
}

#[test]
fn adding_a_stored_header_again_changes_nothing() {
    let mut chain = HeaderChain::new();
    let genesis = create_dummy_header([0u8; 32], 0);
    let genesis_hash = genesis.hash();
    chain.add_header(genesis).unwrap();
    let a1 = create_dummy_header(genesis_hash, 10);
    let a1_hash = a1.hash();
    chain.add_header(a1).unwrap();
    assert_eq!(chain.add_header(genesis), Ok(()));
    assert_eq!(chain.add_header(a1), Ok(()));
    assert_eq!(chain.get_best_tip(), Some(a1_hash));
}

#[test]
fn refused_headers_leave_the_tip_alone() {
    let mut chain = HeaderChain::new();
    let genesis = create_dummy_header([0u8; 32], 0);
    let genesis_hash = genesis.hash();
    chain.add_header(genesis).unwrap();

    let orphan = create_dummy_header([7u8; 32], 3);
    assert_eq!(chain.add_header(orphan), Err(BlockError::ParentNotFound));
    assert_eq!(chain.get_best_tip(), Some(genesis_hash));

    let mut hard = create_dummy_header(genesis_hash, 4);
    hard.bits = 0x03000001;
    assert_eq!(chain.add_header(hard), Err(BlockError::InvalidPoW));
    assert_eq!(chain.get_best_tip(), Some(genesis_hash));

    // The orphan's parent was never stored, so its child is refused too.
    let child_of_orphan = create_dummy_header(orphan.hash(), 5);
    assert_eq!(chain.add_header(child_of_orphan), Err(BlockError::ParentNotFound));
}

#[test]
fn genesis_pow_is_checked_before_parent_lookup() {
    let mut chain = HeaderChain::new();
    // Unknown parent and an impossible target: the proof of work is refused first.
    let mut h = create_dummy_header([9u8; 32], 0);
    h.bits = 0x03000001;
    assert_eq!(chain.add_header(h), Err(BlockError::InvalidPoW));
}
