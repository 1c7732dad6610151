//! The store's gate: it accepts a block only if no stored block has its
//! nonce and the block is valid, and hands out every block it accepted.
use crate::block::{pow_ok, miner_name_ok, Block, BlockView, ERR_MINER, ERR_PROOF_OF_WORK};
use crate::blockchain::views;
use std::collections::HashSet;
use vstd::prelude::*;

verus! {

broadcast use vstd::std_specs::hash::group_hash_axioms;

/// Why a block was refused.
#[derive(Clone, Copy, Debug, PartialEq, Eq)]
pub enum PostError {
    /// A stored block has the same nonce.
    AlreadyExists,
    /// The block breaks a rule; the reason names it.
    Invalid(&'static str),
}

/// Some block of `s` has nonce `n`.
pub open spec fn has_nonce(s: Seq<BlockView>, n: u64) -> bool {
    exists|i: int| 0 <= i < s.len() && #[trigger] s[i].nonce == n
}

/// The accepted blocks, in the order they were accepted, keyed by nonce.
pub struct BlockStore {
    blocks: Vec<Block>,
    nonces: HashSet<u64>,
}

impl View for BlockStore {
    type V = Seq<BlockView>;

    closed spec fn view(&self) -> Seq<BlockView> {
        views(self.blocks@)
    }
}

impl BlockStore {
    /// The set of nonces is exactly that of the stored blocks.
    pub closed spec fn wf(&self) -> bool {
        forall|n: u64| #[trigger] self.nonces@.contains(n) <==> has_nonce(self@, n)
    }

    /// An empty store.
    pub fn new() -> (r: BlockStore)
        ensures
            r.wf(),
            r@ == Seq::<BlockView>::empty(),
    {
        let r = BlockStore { blocks: Vec::new(), nonces: HashSet::new() };
        assert(r@ =~= Seq::<BlockView>::empty());
        r
    }

    /// Accepts `block` if its nonce is new and it is valid at `difficulty`;
    /// otherwise leaves the store as it is and says why.
    pub fn post_block(&mut self, block: Block, difficulty: u32) -> (r: Result<(), PostError>)
        requires
            old(self).wf(),
        ensures
            final(self).wf(),
            has_nonce(old(self)@, block.nonce) ==> r == Err::<(), PostError>(
                PostError::AlreadyExists,
            ),
            !has_nonce(old(self)@, block.nonce) && !miner_name_ok(block@) ==> r == Err::<
                (),
                PostError,
            >(PostError::Invalid(ERR_MINER)),
            !has_nonce(old(self)@, block.nonce) && miner_name_ok(block@) && !pow_ok(
                block@,
                difficulty,
            ) ==> r == Err::<(), PostError>(PostError::Invalid(ERR_PROOF_OF_WORK)),
            r is Ok <==> !has_nonce(old(self)@, block.nonce) && miner_name_ok(block@) && pow_ok(
                block@,
                difficulty,
            ),
            r is Ok ==> final(self)@ == old(self)@.push(block@),
            r is Err ==> final(self)@ == old(self)@,
    {
        if self.nonces.contains(&block.nonce) {
            return Err(PostError::AlreadyExists);
        }
        match block.is_block_valid(difficulty) {
            Err(e) => {
                return Err(PostError::Invalid(e));
            },
            Ok(()) => {},
        }
        let nonce = block.nonce;
        let ghost b = block@;
        self.blocks.push(block);
        self.nonces.insert(nonce);
        assert(self@ =~= old(self)@.push(b));
        assert forall|n: u64| #[trigger] self.nonces@.contains(n) <==> has_nonce(self@, n) by {
            if has_nonce(self@, n) && n != nonce {
                let i = choose|i: int| 0 <= i < self@.len() && #[trigger] self@[i].nonce == n;
                assert(i < old(self)@.len());
                assert(old(self)@[i].nonce == n);
            }
            if n == nonce {
                assert(self@[old(self)@.len() as int].nonce == n);
            }
            if old(self).nonces@.contains(n) {
                let i = choose|i: int| 0 <= i < old(self)@.len() && #[trigger] old(self)@[i].nonce == n;
                assert(self@[i].nonce == n);
            }
        }
        Ok(())
    }

    /// Every stored block, in the order of acceptance.
    pub fn blocks(&self) -> (r: Vec<Block>)
        ensures
            views(r@) == self@,
    {
        let mut r: Vec<Block> = Vec::new();
        let mut i: usize = 0;
        while i < self.blocks.len()
            invariant
                0 <= i <= self.blocks@.len(),
                r@.len() == i,
                forall|j: int| 0 <= j < i ==> #[trigger] r@[j]@ == self.blocks@[j]@,
            decreases self.blocks@.len() - i,
        {
            r.push(self.blocks[i].clone());
            i = i + 1;
        }
        assert(views(r@) =~= views(self.blocks@));
        r
    }
}

} // verus!
