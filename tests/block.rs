use miner::block::{
    Block, BlockHasher, DanceMove, ERR_MINER, ERR_PROOF_OF_WORK, GENESIS_MINER, PLACEHOLDER_MINER,
};
use rand::rngs::StdRng;
use rand::SeedableRng;
use std::hash::Hasher;

#[test]
fn test_pow_check() {
    let block = Block {
        parent_hash: vec![],
        miner: "test".to_string(),
        nonce: 0,
        dancemove: DanceMove::C,
    };

    let hash_with_zeros = vec![0x00, 0x00, 0x00, 0xFF];
    assert!(block.pow_check(&hash_with_zeros, 24));

    let hash_without_zeros = vec![0xFF, 0xFF, 0xFF, 0xFF];
    assert!(!block.pow_check(&hash_without_zeros, 1));

    assert!(block.pow_check(&hash_without_zeros, 0));
}

#[test]
fn test_solve_block() {
    let mut block = Block {
        parent_hash: vec![],
        miner: "test".to_string(),
        nonce: 0,
        dancemove: DanceMove::Y,
    };
    let mut rng = StdRng::seed_from_u64(42);
    block.nonce = rand::Rng::gen(&mut rng);

    for difficulty in 5..10 {
        if difficulty % 2 == 0 {
            block.dancemove = DanceMove::A;
        } else {
            block.dancemove = DanceMove::M;
        }

        let hash = block.solve_block(&mut rng, difficulty, None).unwrap();

        assert!(block.pow_check(&hash, difficulty));

        assert_ne!(block.nonce, 0);
    }
}

#[test]
fn test_new_genesis() {
    let mut genesis = Block::new(Vec::new(), "Genesis".to_string(), 42, DanceMove::C);
    let mut rng = StdRng::seed_from_u64(42);
    genesis.nonce = rand::Rng::gen(&mut rng);
    genesis.solve_block(&mut rng, 10, None).unwrap();
    assert!(genesis.is_genesis(10));
}

fn sample() -> Block {
    Block::new(vec![1, 2], "ab".to_string(), 258, DanceMove::C)
}

#[test]
fn pow_check_counts_bits_not_bytes() {
    let block = sample();
    assert!(block.pow_check(&[0x1F, 0xFF], 3));
    assert!(!block.pow_check(&[0x20, 0x00], 3));
    assert!(block.pow_check(&[0x00, 0x7F], 9));
    assert!(!block.pow_check(&[0x00, 0x80], 9));
    assert!(block.pow_check(&[0x00, 0x00], 16));
}

#[test]
fn pow_check_fails_on_short_hash() {
    let block = sample();
    assert!(!block.pow_check(&[0x00], 9));
    assert!(!block.pow_check(&[], 1));
    assert!(block.pow_check(&[], 0));
    assert!(block.pow_check(&[0x00], 8));
}

#[test]
fn encode_is_parent_miner_nonce_dancemove() {
    assert_eq!(sample().encode(), vec![1, 2, 97, 98, 0, 0, 0, 0, 0, 0, 1, 2, 3]);
}

#[test]
fn hash_block_is_sha256_of_encoding() {
    let genesis = Block::new(vec![], "Genesis".to_string(), 0, DanceMove::Y);
    assert_eq!(
        genesis.hash_block().to_vec(),
        vec![
            243, 207, 9, 51, 99, 153, 42, 225, 215, 51, 103, 150, 0, 154, 158, 232, 82, 118, 76,
            193, 163, 201, 27, 40, 163, 238, 199, 168, 165, 214, 10, 220
        ]
    );
    let hex: String = sample().hash_block().iter().map(|b| format!("{:02x}", b)).collect();
    assert_eq!(hex, "13324a64917e60cf93a9006b317e1120ebf53870fff4dbd326453c3c9260c59c");
}

#[test]
fn hash_is_a_function_of_the_fields() {
    let a = sample();
    let b = sample();
    assert_eq!(a.hash_block(), b.hash_block());
    let mut c = sample();
    c.nonce = 259;
    assert_ne!(a.hash_block(), c.hash_block());
    let mut d = sample();
    d.dancemove = DanceMove::A;
    assert_ne!(a.hash_block(), d.hash_block());
    let mut e = sample();
    e.miner = "ac".to_string();
    assert_ne!(a.hash_block(), e.hash_block());
    let mut f = sample();
    f.parent_hash = vec![1, 3];
    assert_ne!(a.hash_block(), f.hash_block());
}

#[test]
fn solve_block_bounded_gives_up() {
    let mut block = sample();
    let mut rng = StdRng::seed_from_u64(7);
    assert_eq!(block.solve_block(&mut rng, 200, Some(0)), None);
    assert_eq!(block.nonce, 258);
    assert_eq!(block.solve_block(&mut rng, 200, Some(5)), None);
    assert_eq!(block.parent_hash, vec![1, 2]);
    assert_eq!(block.miner, "ab");
}

#[test]
fn solve_block_result_is_the_hash() {
    let mut block = sample();
    let mut rng = StdRng::seed_from_u64(3);
    let hash = block.solve_block(&mut rng, 8, Some(100000)).unwrap();
    assert_eq!(hash, block.hash_block().to_vec());
    assert_eq!(hash[0], 0);
}

#[test]
fn try_nonce_sets_nonce_and_checks() {
    let mut block = sample();
    let hash = block.try_nonce(5, 0).unwrap();
    assert_eq!(block.nonce, 5);
    assert_eq!(hash, block.hash_block().to_vec());
    assert_eq!(block.try_nonce(6, 256), None);
    assert_eq!(block.nonce, 6);
}

#[test]
fn genesis_solved_then_tampered() {
    let mut genesis = Block::new(vec![], GENESIS_MINER.to_string(), 0, DanceMove::Y);
    let mut rng = StdRng::seed_from_u64(11);
    genesis.solve_block(&mut rng, 10, None).unwrap();
    assert!(genesis.is_genesis(10));
    assert_eq!(genesis.is_block_valid(10), Ok(()));
    assert_eq!(DanceMove::from_ordinal(0), None);
    assert_eq!(DanceMove::from_ordinal(5), None);
    assert_eq!(DanceMove::from_ordinal(4), Some(DanceMove::A));
    assert_eq!(DanceMove::C.ordinal(), 3);
}

#[test]
fn is_genesis_needs_name_and_empty_parent() {
    let mut rng = StdRng::seed_from_u64(5);
    let mut named = Block::new(vec![], "other".to_string(), 0, DanceMove::Y);
    named.solve_block(&mut rng, 4, None).unwrap();
    assert!(!named.is_genesis(4));
    let mut child = Block::new(vec![9], GENESIS_MINER.to_string(), 0, DanceMove::Y);
    child.solve_block(&mut rng, 4, None).unwrap();
    assert!(!child.is_genesis(4));
}

#[test]
fn is_block_valid_reasons() {
    let mut rng = StdRng::seed_from_u64(9);
    let mut placeholder = Block::new(vec![1], PLACEHOLDER_MINER.to_string(), 0, DanceMove::M);
    placeholder.solve_block(&mut rng, 4, None).unwrap();
    assert_eq!(placeholder.is_block_valid(4), Err(ERR_MINER));
    assert_eq!(ERR_MINER, "Invalid miner name");

    let mut fake_genesis = Block::new(vec![1], GENESIS_MINER.to_string(), 0, DanceMove::M);
    fake_genesis.solve_block(&mut rng, 4, None).unwrap();
    assert_eq!(fake_genesis.is_block_valid(4), Err(ERR_MINER));

    let mut weak = Block::new(vec![1], "alice".to_string(), 0, DanceMove::M);
    while weak.try_nonce(weak.nonce + 1, 8).is_some() {}
    assert_eq!(weak.is_block_valid(8), Err(ERR_PROOF_OF_WORK));
    assert_eq!(ERR_PROOF_OF_WORK, "Invalid proof of work");

    let mut good = Block::new(vec![1], "alice".to_string(), 0, DanceMove::M);
    good.solve_block(&mut rng, 8, None).unwrap();
    assert_eq!(good.is_block_valid(8), Ok(()));
}

#[test]
fn block_hasher_returns_the_id() {
    let mut h = BlockHasher::default();
    h.write_u64(42);
    assert_eq!(h.finish(), 42);
    h.write_u64(7);
    assert_eq!(h.finish(), 7);
}

#[test]
fn block_hasher_shifts_in_raw_bytes() {
    let mut h = BlockHasher::default();
    h.write(&[1, 2]);
    assert_eq!(h.finish(), 0x0102);
    h.write(&[3, 4, 5, 6, 7, 8, 9, 10]);
    assert_eq!(h.finish(), 0x030405060708090A);
}
