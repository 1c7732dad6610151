//! The decisions of a miner: adopting or creating a genesis block when a
//! batch of known blocks arrives, rebuilding the ledger from it, and
//! extending the longest chain with a new block.
use crate::block::{is_genesis_block, pow_ok, random_u32, Block, DanceMove, GENESIS_MINER};
use crate::blockchain::{
    lemma_leaf_nonces, longest, merge_passes, merged, tree_chains, tree_nonces, Blockchain,
};
use crate::simpletree::Tree;
use crate::simpletree::Parenting;
use vstd::prelude::*;

verus! {

/// Attempts made for a new block between two looks at the inbound batches,
/// when no other bound is configured.
pub const DEFAULT_ATTEMPTS: u64 = 1000;

/// The index of the first genesis block of `blocks` at difficulty `d`.
pub open spec fn first_genesis(blocks: Seq<Block>, d: u32) -> Option<int>
    decreases blocks.len(),
{
    if blocks.len() == 0 {
        None
    } else {
        match first_genesis(blocks.drop_last(), d) {
            Some(i) => Some(i),
            None => if is_genesis_block(blocks.last()@, d) {
                Some(blocks.len() - 1)
            } else {
                None
            },
        }
    }
}

/// Finds the first block of `blocks` that is a genesis block at `difficulty`.
pub fn find_genesis(blocks: &Vec<Block>, difficulty: u32) -> (r: Option<usize>)
    ensures
        r matches Some(i) ==> i < blocks@.len() && first_genesis(blocks@, difficulty) == Some(
            i as int,
        ),
        r is None ==> first_genesis(blocks@, difficulty) is None,
{
    let mut i: usize = 0;
    while i < blocks.len()
        invariant
            0 <= i <= blocks@.len(),
            first_genesis(blocks@.subrange(0, i as int), difficulty) is None,
        decreases blocks@.len() - i,
    {
        assert(blocks@.subrange(0, i + 1).drop_last() =~= blocks@.subrange(0, i as int));
        if blocks[i].is_genesis(difficulty) {
            proof {
                lemma_first_genesis_prefix(blocks@, difficulty, i + 1);
            }
            return Some(i);
        }
        i = i + 1;
    }
    assert(blocks@.subrange(0, i as int) =~= blocks@);
    None
}

/// A genesis block found in a prefix is the first one of the whole sequence.
proof fn lemma_first_genesis_prefix(s: Seq<Block>, d: u32, k: int)
    requires
        0 <= k <= s.len(),
        first_genesis(s.subrange(0, k), d) is Some,
    ensures
        first_genesis(s, d) == first_genesis(s.subrange(0, k), d),
    decreases s.len() - k,
{
    if k < s.len() {
        assert(s.subrange(0, k + 1).drop_last() =~= s.subrange(0, k));
        lemma_first_genesis_prefix(s, d, k + 1);
    } else {
        assert(s.subrange(0, k) =~= s);
    }
}

/// `chain` is the ledger grown from a genesis block with contents `root`
/// and the blocks of `batch`.
pub open spec fn rebuilt(chain: Option<Blockchain>, root: crate::block::BlockView, batch: Seq<Block>) -> bool {
    chain matches Some(n) && exists|g: Block| g@ == root && n.blocks@ == merged(g, batch).0
}

/// `chain` is `old_tree` with the blocks of `batch` merged into it.
pub open spec fn merged_into(chain: Option<Blockchain>, old_tree: Tree<Block>, batch: Seq<Block>) -> bool {
    chain matches Some(n) && n.blocks@ == merge_passes(old_tree, tree_nonces(old_tree), batch).0
}

/// `out` is one genesis block at difficulty `d`, and `chain` the ledger
/// grown from it with `batch`.
pub open spec fn created_genesis(out: Seq<Block>, chain: Option<Blockchain>, d: u32, batch: Seq<Block>) -> bool {
    &&& out.len() == 1
    &&& is_genesis_block(out[0]@, d)
    &&& rebuilt(chain, out[0]@, batch)
}

/// A miner's state: its ledger, once it has one, and its settings.
pub struct Miner {
    pub chain: Option<Blockchain>,
    pub difficulty: u32,
    pub miner_name: String,
    pub max_attempts: u64,
}

impl Miner {
    /// A miner with no ledger yet.
    pub fn new(difficulty: u32, miner_name: String, max_attempts: u64) -> (r: Miner)
        ensures
            r.chain is None,
            r.difficulty == difficulty,
            r.miner_name == miner_name,
            r.max_attempts == max_attempts,
    {
        Miner { chain: None, difficulty, miner_name, max_attempts }
    }

    /// Takes in a batch of the known blocks. Without a ledger, the miner
    /// first adopts the batch's first genesis block, or else creates and
    /// solves one of its own, to be published. It then merges the batch
    /// into its ledger, keeping every node it had; orphans are discarded.
    /// Returns the blocks to publish: the genesis block it created, if any.
    pub fn receive_batch(&mut self, batch: Vec<Block>, rng: &mut rand::rngs::StdRng) -> (r: Vec<
        Block,
    >)
        ensures
            final(self).difficulty == old(self).difficulty,
            final(self).miner_name == old(self).miner_name,
            final(self).max_attempts == old(self).max_attempts,
            old(self).chain matches Some(c) ==> r@.len() == 0 && merged_into(
                final(self).chain,
                c.blocks@,
                batch@,
            ),
            old(self).chain is None && first_genesis(batch@, old(self).difficulty) is Some ==> r@.len()
                == 0 && rebuilt(
                final(self).chain,
                batch@[first_genesis(batch@, old(self).difficulty).unwrap()]@,
                batch@,
            ),
            old(self).chain is None && first_genesis(batch@, old(self).difficulty) is None ==> {
                ||| (r@.len() == 0 && final(self).chain is None)
                ||| created_genesis(r@, final(self).chain, old(self).difficulty, batch@)
            },
            old(self).chain is None && first_genesis(batch@, old(self).difficulty) is None
                && old(self).difficulty == 0 ==> created_genesis(
                r@,
                final(self).chain,
                old(self).difficulty,
                batch@,
            ),
    {
        let mut out: Vec<Block> = Vec::new();
        if self.chain.is_none() {
            match find_genesis(&batch, self.difficulty) {
                Some(i) => {
                    let g = batch[i].clone();
                    self.chain = Some(Blockchain::new_from_genesis(g));
                },
                None => {
                    let mut genesis = Block::new(
                        Vec::new(),
                        GENESIS_MINER.to_string(),
                        0,
                        DanceMove::Y,
                    );
                    proof {
                        reveal_strlit("Genesis");
                    }
                    match genesis.solve_block(rng, self.difficulty, None) {
                        Some(_) => {
                            let g = genesis.clone();
                            self.chain = Some(Blockchain::new_from_genesis(g));
                            out.push(genesis);
                        },
                        None => {},
                    }
                },
            }
        }
        match self.chain.take() {
            Some(mut bc) => {
                let ghost t = bc.blocks@;
                proof {
                    lemma_leaf_nonces(t.value);
                }
                let ghost b = batch@;
                let _orphans = bc.merge(batch);
                proof {
                    if t == Tree::leaf(t.value) {
                        assert(merged(t.value, b).0 == bc.blocks@);
                        assert(rebuilt(Some(bc), t.value@, b));
                    }
                }
                self.chain = Some(bc);
            },
            None => {},
        }
        out
    }

    /// Makes one bounded attempt to extend the longest chain with a block
    /// of this miner, with the given dance move. Returns the block if its
    /// proof of work was found.
    pub fn extend_with(&self, dancemove: DanceMove, rng: &mut rand::rngs::StdRng) -> (r: Option<
        Block,
    >)
        ensures
            self.chain is None ==> r is None,
            self.max_attempts == 0 ==> r is None,
            self.chain is Some && self.difficulty == 0 && self.max_attempts > 0 ==> r is Some,
            r matches Some(b) ==> self.chain matches Some(c) && longest(tree_chains(c.blocks@)).len()
                > 0 && b.parent_hash@ == crate::block::hash_of(
                longest(tree_chains(c.blocks@)).last(),
            ) && b.miner@ == self.miner_name@ && b.dancemove == dancemove && pow_ok(
                b@,
                self.difficulty,
            ),
    {
        match &self.chain {
            None => None,
            Some(bc) => {
                let chain = bc.get_longest_chain();
                proof {
                    crate::blockchain::lemma_longest_chain_has_depth_blocks(bc.blocks@);
                    assert(chain@.len() == crate::blockchain::views(chain@).len());
                }
                if chain.len() == 0 {
                    return None;
                }
                let tip = &chain[chain.len() - 1];
                let parent_hash = tip.hash();
                let mut block = Block::new(parent_hash, self.miner_name.clone(), 0, dancemove);
                match block.solve_block(rng, self.difficulty, Some(self.max_attempts)) {
                    Some(_) => Some(block),
                    None => None,
                }
            },
        }
    }

    /// One step of mining: picks a dance move at random and makes one
    /// bounded attempt to extend the longest chain with it.
    pub fn mine_once(&self, rng: &mut rand::rngs::StdRng) -> (r: Option<Block>)
        ensures
            self.chain is None ==> r is None,
            self.max_attempts == 0 ==> r is None,
            self.chain is Some && self.difficulty == 0 && self.max_attempts > 0 ==> r is Some,
            r matches Some(b) ==> self.chain matches Some(c) && longest(tree_chains(c.blocks@)).len()
                > 0 && b.parent_hash@ == crate::block::hash_of(
                longest(tree_chains(c.blocks@)).last(),
            ) && b.miner@ == self.miner_name@ && pow_ok(b@, self.difficulty),
    {
        if self.chain.is_none() {
            return None;
        }
        let pick = random_u32(rng) % 4;
        let dancemove = if pick == 0 {
            DanceMove::Y
        } else if pick == 1 {
            DanceMove::M
        } else if pick == 2 {
            DanceMove::C
        } else {
            DanceMove::A
        };
        self.extend_with(dancemove, rng)
    }
}

} // verus!
