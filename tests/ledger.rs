use miner::block::{Block, DanceMove, ERR_MINER, GENESIS_MINER, PLACEHOLDER_MINER};
use miner::blockchain::{ledgers_by_genesis, Blockchain};
use miner::mining::{find_genesis, Miner};
use miner::simpletree::TreeNode;
use miner::store::{BlockStore, PostError};
use rand::rngs::StdRng;
use rand::SeedableRng;

fn block(parent_hash: &[u8], nonce: u64, miner: &str) -> Block {
    Block::new(parent_hash.to_vec(), miner.to_string(), nonce, DanceMove::Y)
}

fn nonces(nodes: &Vec<TreeNode<Block>>) -> Vec<u64> {
    nodes.iter().map(|n| n.value().nonce).collect()
}

#[test]
fn merge_shape_is_independent_of_input_order() {
    let genesis = block(&[], 0, "Genesis");
    let b1 = block(&genesis.hash_block(), 42, "miner1");
    let b2 = block(&genesis.hash_block(), 43, "miner2");
    let b3 = block(&b1.hash_block(), 44, "miner3");
    let orders: [[usize; 3]; 6] = [[0, 1, 2], [0, 2, 1], [1, 0, 2], [1, 2, 0], [2, 0, 1], [2, 1, 0]];
    let all = [b1, b2, b3];
    for order in orders.iter() {
        let batch: Vec<Block> = order.iter().map(|&i| all[i].clone()).collect();
        let (chain, orphans) = Blockchain::new_from_genesis_and_vec(genesis.clone(), batch);
        let root = &chain.blocks;
        let mut kids = nonces(root.children());
        kids.sort();
        assert_eq!(kids, vec![42, 43]);
        let n42 = root.children().iter().find(|n| n.value().nonce == 42).unwrap();
        assert_eq!(nonces(n42.children()), vec![44]);
        let n43 = root.children().iter().find(|n| n.value().nonce == 43).unwrap();
        assert!(n43.children().is_empty());
        assert!(orphans.is_empty());
    }
}

#[test]
fn merging_an_orphan_leaves_the_tree_unchanged() {
    let genesis = block(&[], 0, "Genesis");
    let orphan = block(&[0xFF; 32], 7, "stray");
    let (chain, orphans) = Blockchain::new_from_genesis_and_vec(genesis.clone(), vec![orphan.clone()]);
    assert!(chain.blocks.children().is_empty());
    assert_eq!(chain.blocks.value(), &genesis);
    assert_eq!(orphans, vec![orphan]);
}

#[test]
fn orphan_is_taken_in_once_its_parent_arrives() {
    let genesis = block(&[], 0, "Genesis");
    let b1 = block(&genesis.hash_block(), 1, "a");
    let b2 = block(&b1.hash_block(), 2, "b");
    let (chain, orphans) = Blockchain::new_from_genesis_and_vec(genesis, vec![b2, b1]);
    assert_eq!(nonces(chain.blocks.children()), vec![1]);
    assert_eq!(nonces(chain.blocks.children()[0].children()), vec![2]);
    assert!(orphans.is_empty());
}

#[test]
fn remerging_a_known_nonce_is_a_no_op() {
    let genesis = block(&[], 0, "Genesis");
    let b1 = block(&genesis.hash_block(), 42, "miner1");
    let impostor = block(&genesis.hash_block(), 42, "other");
    let same_as_genesis = block(&[0xAB], 0, "x");
    let (once, _) = Blockchain::new_from_genesis_and_vec(genesis.clone(), vec![b1.clone()]);
    let (twice, orphans) = Blockchain::new_from_genesis_and_vec(
        genesis.clone(),
        vec![b1.clone(), b1.clone(), impostor, same_as_genesis],
    );
    assert_eq!(nonces(once.blocks.children()), nonces(twice.blocks.children()));
    assert_eq!(twice.blocks.children().len(), 1);
    assert_eq!(twice.blocks.children()[0].value().miner, "miner1");
    assert!(orphans.is_empty());
}

fn two_branches(len_a: usize, len_b: usize) -> (Blockchain, Vec<u64>, Vec<u64>) {
    let genesis = block(&[], 0, "Genesis");
    let mut blocks = Vec::new();
    let mut a = Vec::new();
    let mut parent = genesis.hash_block().to_vec();
    for i in 0..len_a {
        let b = block(&parent, 100 + i as u64, "a");
        parent = b.hash_block().to_vec();
        a.push(b.nonce);
        blocks.push(b);
    }
    let mut b_nonces = Vec::new();
    let mut parent = genesis.hash_block().to_vec();
    for i in 0..len_b {
        let b = block(&parent, 200 + i as u64, "b");
        parent = b.hash_block().to_vec();
        b_nonces.push(b.nonce);
        blocks.push(b);
    }
    let (chain, orphans) = Blockchain::new_from_genesis_and_vec(genesis, blocks);
    assert!(orphans.is_empty());
    (chain, a, b_nonces)
}

#[test]
fn longest_chain_prefers_more_blocks() {
    let (chain, _, b) = two_branches(3, 2);
    let longest: Vec<u64> = chain.get_longest_chain().iter().map(|x| x.nonce).collect();
    assert_eq!(longest.len(), 4);
    assert_eq!(longest[0], 0);
    assert_eq!(&longest[1..], &[100, 101, 102]);
    assert_eq!(b.len(), 2);
    let (chain, _, b) = two_branches(2, 3);
    let longest: Vec<u64> = chain.get_longest_chain().iter().map(|x| x.nonce).collect();
    assert_eq!(&longest[1..], &b[..]);
    assert_eq!(chain.blocks.depth(), 4);
}

#[test]
fn longest_chain_tie_goes_to_the_last_branch() {
    let (chain, a, b) = two_branches(2, 2);
    let longest: Vec<u64> = chain.get_longest_chain().iter().map(|x| x.nonce).collect();
    assert_eq!(&longest[1..], &b[..]);
    assert_ne!(&longest[1..], &a[..]);
}

#[test]
fn chains_are_root_to_leaf_in_depth_first_order() {
    let (chain, a, b) = two_branches(2, 1);
    let chains: Vec<Vec<u64>> = chain
        .get_chains()
        .iter()
        .map(|c| c.iter().map(|x| x.nonce).collect())
        .collect();
    assert_eq!(chains, vec![vec![0, a[0], a[1]], vec![0, b[0]]]);
    let lone = Blockchain::new_from_genesis(block(&[], 5, "Genesis"));
    assert_eq!(lone.get_chains().len(), 1);
    assert_eq!(lone.get_longest_chain()[0].nonce, 5);
}

#[test]
fn render_draws_the_tree() {
    let genesis = block(&[], 0, "Genesis");
    let b1 = block(&genesis.hash_block(), 42, "miner1");
    let b2 = block(&genesis.hash_block(), 43, "miner2");
    let b3 = block(&b1.hash_block(), 44, "miner3");
    let (chain, _) = Blockchain::new_from_genesis_and_vec(genesis, vec![b1, b2, b3]);
    assert_eq!(
        chain.render(),
        "Genesis (nonce: 0)\n├── miner1 (nonce: 42)\n│   └── miner3 (nonce: 44)\n└── miner2 (nonce: 43)\n"
    );
    let big = Blockchain::new_from_genesis(block(&[], u64::MAX, "G"));
    assert_eq!(big.render(), "G (nonce: 18446744073709551615)\n");
}

#[test]
fn ledgers_by_genesis_builds_one_per_genesis() {
    let g1 = block(&[], 0, GENESIS_MINER);
    let g2 = block(&[], 1, GENESIS_MINER);
    let c1 = block(&g1.hash_block(), 10, "m");
    let c2 = block(&g2.hash_block(), 11, "m");
    let not_genesis = block(&[], 2, "m");
    let all = vec![c1, g1, not_genesis, g2, c2];
    let ledgers = ledgers_by_genesis(&all, 0);
    assert_eq!(ledgers.len(), 2);
    assert_eq!(ledgers[0].0.blocks.value().nonce, 0);
    assert_eq!(nonces(ledgers[0].0.blocks.children()), vec![10]);
    assert_eq!(ledgers[0].1.len(), 3);
    assert_eq!(ledgers[1].0.blocks.value().nonce, 1);
    assert_eq!(nonces(ledgers[1].0.blocks.children()), vec![11]);
    assert_eq!(find_genesis(&all, 0), Some(1));
    assert_eq!(find_genesis(&all, 255), None);
}

#[test]
fn miner_creates_genesis_when_none_is_known() {
    let mut rng = StdRng::seed_from_u64(1);
    let mut m = Miner::new(0, "me".to_string(), 10);
    assert!(m.mine_once(&mut rng).is_none());
    let out = m.receive_batch(vec![block(&[1], 3, "x")], &mut rng);
    assert_eq!(out.len(), 1);
    assert!(out[0].is_genesis(0));
    assert_eq!(m.chain.as_ref().unwrap().blocks.value(), &out[0]);
    let mined = m.mine_once(&mut rng).unwrap();
    assert_eq!(mined.parent_hash, out[0].hash_block().to_vec());
    assert_eq!(mined.miner, "me");
}

#[test]
fn miner_adopts_first_genesis_and_extends_the_tip() {
    let mut rng = StdRng::seed_from_u64(2);
    let g = block(&[], 9, GENESIS_MINER);
    let b1 = block(&g.hash_block(), 10, "other");
    let mut m = Miner::new(0, "me".to_string(), 10);
    let out = m.receive_batch(vec![b1.clone(), g.clone()], &mut rng);
    assert!(out.is_empty());
    let chain = m.chain.as_ref().unwrap();
    assert_eq!(chain.blocks.value(), &g);
    assert_eq!(nonces(chain.blocks.children()), vec![10]);
    let mined = m.extend_with(DanceMove::A, &mut rng).unwrap();
    assert_eq!(mined.parent_hash, b1.hash_block().to_vec());
    assert_eq!(mined.dancemove, DanceMove::A);
    let out = m.receive_batch(vec![b1, mined.clone()], &mut rng);
    assert!(out.is_empty());
    assert_eq!(m.chain.as_ref().unwrap().get_longest_chain().len(), 3);
}

#[test]
fn store_gate_accepts_new_valid_blocks_only() {
    let mut store = BlockStore::new();
    let good = block(&[], 1, "alice");
    assert_eq!(store.post_block(good.clone(), 0), Ok(()));
    assert_eq!(store.post_block(block(&[], 1, "bob"), 0), Err(PostError::AlreadyExists));
    assert_eq!(
        store.post_block(block(&[], 2, PLACEHOLDER_MINER), 0),
        Err(PostError::Invalid(ERR_MINER))
    );
    assert_eq!(
        store.post_block(block(&[3], 3, GENESIS_MINER), 0),
        Err(PostError::Invalid(ERR_MINER))
    );
    let mut weak = block(&[], 4, "carol");
    while weak.try_nonce(weak.nonce + 1, 16).is_some() {}
    assert!(matches!(store.post_block(weak, 16), Err(PostError::Invalid(_))));
    assert_eq!(store.post_block(block(&[], 5, GENESIS_MINER), 0), Ok(()));
    let held: Vec<u64> = store.blocks().iter().map(|b| b.nonce).collect();
    assert_eq!(held, vec![1, 5]);
}

#[test]
fn miner_merges_batches_into_its_ledger() {
    let mut rng = StdRng::seed_from_u64(4);
    let g = block(&[], 9, GENESIS_MINER);
    let b1 = block(&g.hash_block(), 10, "other");
    let b2 = block(&b1.hash_block(), 11, "other");
    let mut m = Miner::new(0, "me".to_string(), 10);
    assert!(m.receive_batch(vec![g.clone(), b1.clone()], &mut rng).is_empty());
    assert!(m.receive_batch(vec![], &mut rng).is_empty());
    let chain = m.chain.as_ref().unwrap();
    assert_eq!(nonces(chain.blocks.children()), vec![10]);
    assert!(m.receive_batch(vec![b2, b1], &mut rng).is_empty());
    let chain = m.chain.as_ref().unwrap();
    assert_eq!(nonces(chain.blocks.children()), vec![10]);
    assert_eq!(nonces(chain.blocks.children()[0].children()), vec![11]);
}

#[test]
fn miner_step_bounds() {
    let mut rng = StdRng::seed_from_u64(6);
    let mut idle = Miner::new(0, "me".to_string(), 0);
    idle.receive_batch(vec![], &mut rng);
    assert!(idle.chain.is_some());
    assert!(idle.mine_once(&mut rng).is_none());
    assert!(idle.extend_with(DanceMove::M, &mut rng).is_none());
}

#[test]
fn merge_keeps_existing_nodes() {
    let g = block(&[], 0, "Genesis");
    let b1 = block(&g.hash_block(), 1, "a");
    let b2 = block(&b1.hash_block(), 2, "b");
    let stray = block(&[0xFF; 32], 3, "c");
    let mut chain = Blockchain::new_from_genesis(g.clone());
    assert!(chain.merge(vec![b1.clone()]).is_empty());
    let orphans = chain.merge(vec![stray.clone(), b2, b1, g]);
    assert_eq!(orphans, vec![stray]);
    assert_eq!(nonces(chain.blocks.children()), vec![1]);
    assert_eq!(nonces(chain.blocks.children()[0].children()), vec![2]);
}
