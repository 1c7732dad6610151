//! Blocks, their canonical encoding and hash, and the proof-of-work rules.
use rand::RngCore;
use sha2::Digest;
use crate::simpletree::{same_bytes, Parenting};
use vstd::prelude::*;

verus! {

/// Difficulty, in leading zero bits, used when none is configured.
pub const DIFFICULTY: u32 = 25;

/// A hasher for keys that are already unique 64-bit identifiers, such as
/// nonces: the hash of an identifier is the identifier itself.
#[derive(Default)]
pub struct BlockHasher {
    id: u64,
}

impl BlockHasher {
    /// The identifier last written.
    pub closed spec fn spec_id(&self) -> u64 {
        self.id
    }
}

/// `id` with the bytes of `s` shifted in from the right, one at a time.
pub open spec fn shift_in_bytes(id: u64, s: Seq<u8>) -> u64
    decreases s.len(),
{
    if s.len() == 0 {
        id
    } else {
        (shift_in_bytes(id, s.drop_last()) << 8u64) | (s.last() as u64)
    }
}

impl std::hash::Hasher for BlockHasher {
    fn finish(&self) -> (r: u64)
        ensures
            r == self.spec_id(),
    {
        self.id
    }

    fn write_u64(&mut self, id: u64)
        ensures
            final(self).spec_id() == id,
    {
        self.id = id;
    }

    /// Keys are written with `write_u64`; other bytes are folded in, the
    /// last eight of them forming the identifier.
    fn write(&mut self, bytes: &[u8])
        ensures
            final(self).spec_id() == shift_in_bytes(old(self).spec_id(), bytes@),
    {
        let mut i: usize = 0;
        while i < bytes.len()
            invariant
                0 <= i <= bytes@.len(),
                self.id == shift_in_bytes(old(self).id, bytes@.subrange(0, i as int)),
            decreases bytes@.len() - i,
        {
            assert(bytes@.subrange(0, i + 1).drop_last() =~= bytes@.subrange(0, i as int));
            self.id = (self.id << 8u64) | (bytes[i] as u64);
            i = i + 1;
        }
        assert(bytes@.subrange(0, i as int) =~= bytes@);
    }
}

/// Builds `BlockHasher`s, for maps and sets keyed by nonce.
pub type BlockIdHasher = std::hash::BuildHasherDefault<BlockHasher>;

/// A set of nonces.
pub type BlockHashSet = std::collections::HashSet<u64, BlockIdHasher>;

/// The four dance moves a miner may put in a block.
#[derive(Clone, Copy, Debug, PartialEq, Eq, Structural, PartialOrd, Ord, Hash, Default)]
pub enum DanceMove {
    #[default]
    Y,
    M,
    C,
    A,
}

impl DanceMove {
    /// The ordinal (1 to 4) of a dance move, as it is hashed and sent.
    pub open spec fn spec_ordinal(self) -> u8 {
        match self {
            DanceMove::Y => 1,
            DanceMove::M => 2,
            DanceMove::C => 3,
            DanceMove::A => 4,
        }
    }

    pub fn ordinal(self) -> (r: u8)
        ensures
            r == self.spec_ordinal(),
            1 <= r <= 4,
    {
        match self {
            DanceMove::Y => 1,
            DanceMove::M => 2,
            DanceMove::C => 3,
            DanceMove::A => 4,
        }
    }

    /// The dance move with the given ordinal, if it is one of 1 to 4.
    pub fn from_ordinal(n: u8) -> (r: Option<DanceMove>)
        ensures
            r is Some <==> 1 <= n <= 4,
            r matches Some(d) ==> d.spec_ordinal() == n,
    {
        if n == 1 {
            Some(DanceMove::Y)
        } else if n == 2 {
            Some(DanceMove::M)
        } else if n == 3 {
            Some(DanceMove::C)
        } else if n == 4 {
            Some(DanceMove::A)
        } else {
            None
        }
    }
}


/// What a block holds, as mathematical values.
pub struct BlockView {
    pub parent_hash: Seq<u8>,
    pub miner: Seq<char>,
    pub nonce: u64,
    pub dancemove: DanceMove,
}

/// A block of the ledger. Its `nonce` is the search variable of the
/// proof of work and also serves as the block's identity.
#[derive(Debug, PartialEq, Eq, PartialOrd, Ord, Default)]
pub struct Block {
    /// Hash of the parent block; empty only for a genesis block.
    pub parent_hash: Vec<u8>,
    /// Self-asserted identity of the miner.
    pub miner: String,
    /// Value chosen so that the block's hash meets the difficulty.
    pub nonce: u64,
    /// Payload chosen by the miner.
    pub dancemove: DanceMove,
}

impl View for Block {
    type V = BlockView;

    open spec fn view(&self) -> BlockView {
        BlockView {
            parent_hash: self.parent_hash@,
            miner: self.miner@,
            nonce: self.nonce,
            dancemove: self.dancemove,
        }
    }
}

impl Clone for Block {
    fn clone(&self) -> (r: Block)
        ensures
            r@ == self@,
    {
        Block {
            parent_hash: self.parent_hash.clone(),
            miner: self.miner.clone(),
            nonce: self.nonce,
            dancemove: self.dancemove,
        }
    }
}

/// The SHA-256 digest of a byte sequence.
pub uninterp spec fn sha256_of(data: Seq<u8>) -> Seq<u8>;

/// Relies on `sha2::Sha256::digest`: the SHA-256 digest of `data`, a
/// function of the bytes alone.
#[verifier::external_body]
fn sha256(data: &[u8]) -> (r: [u8; 32])
    ensures
        r@ == sha256_of(data@),
{
    sha2::Sha256::digest(data).into()
}

/// The eight bytes of `n`, most significant first.
pub open spec fn be_bytes(n: u64) -> Seq<u8> {
    seq![
        ((n >> 56u64) & 0xffu64) as u8,
        ((n >> 48u64) & 0xffu64) as u8,
        ((n >> 40u64) & 0xffu64) as u8,
        ((n >> 32u64) & 0xffu64) as u8,
        ((n >> 24u64) & 0xffu64) as u8,
        ((n >> 16u64) & 0xffu64) as u8,
        ((n >> 8u64) & 0xffu64) as u8,
        (n & 0xffu64) as u8,
    ]
}

/// The bytes that are hashed: parent hash, the miner's name in UTF-8, the
/// nonce in big-endian order and the dance move's ordinal.
pub open spec fn encode_block(b: BlockView) -> Seq<u8> {
    b.parent_hash + vstd::utf8::encode_utf8(b.miner) + be_bytes(b.nonce) + seq![b.dancemove.spec_ordinal()]
}

/// The hash of a block.
pub open spec fn hash_of(b: BlockView) -> Seq<u8> {
    sha256_of(encode_block(b))
}

/// Bit `k` of `h`, counting from the most significant bit of the first byte.
pub open spec fn bit_msb(h: Seq<u8>, k: int) -> u8 {
    (h[k / 8] >> ((7 - k % 8) as u8)) & 1u8
}

/// `h` has at least `d` bits, and its first `d` bits are all zero.
pub open spec fn has_leading_zero_bits(h: Seq<u8>, d: nat) -> bool {
    &&& d <= 8 * h.len()
    &&& forall|k: int| 0 <= k < d ==> #[trigger] bit_msb(h, k) == 0
}

/// Difficulty 0 asks nothing of a hash.
pub proof fn lemma_zero_difficulty(h: Seq<u8>)
    ensures
        has_leading_zero_bits(h, 0),
{
}

/// The hash of a block depends on its parent hash, miner, nonce and dance
/// move alone: blocks that agree on these have the same hash.
pub proof fn lemma_hash_determined_by_fields(a: Block, b: Block)
    requires
        a.parent_hash@ == b.parent_hash@,
        a.miner@ == b.miner@,
        a.nonce == b.nonce,
        a.dancemove == b.dancemove,
    ensures
        hash_of(a@) == hash_of(b@),
{
}

/// Blocks that differ in exactly one of parent hash, miner, nonce and
/// dance move have different hash inputs, so that their hashes differ
/// unless SHA-256 collides.
pub proof fn lemma_one_field_changes_encoding(a: BlockView, b: BlockView)
    requires
        (a.parent_hash != b.parent_hash && a.miner == b.miner && a.nonce == b.nonce && a.dancemove
            == b.dancemove) || (a.parent_hash == b.parent_hash && a.miner != b.miner && a.nonce
            == b.nonce && a.dancemove == b.dancemove) || (a.parent_hash == b.parent_hash && a.miner
            == b.miner && a.nonce != b.nonce && a.dancemove == b.dancemove) || (a.parent_hash
            == b.parent_hash && a.miner == b.miner && a.nonce == b.nonce && a.dancemove
            != b.dancemove),
    ensures
        encode_block(a) != encode_block(b),
{
    let ua = vstd::utf8::encode_utf8(a.miner);
    let ub = vstd::utf8::encode_utf8(b.miner);
    let ta = be_bytes(a.nonce) + seq![a.dancemove.spec_ordinal()];
    let tb = be_bytes(b.nonce) + seq![b.dancemove.spec_ordinal()];
    let ea = encode_block(a);
    let eb = encode_block(b);
    assert(ea =~= a.parent_hash + ua + ta);
    assert(eb =~= b.parent_hash + ub + tb);
    if ea == eb {
        let n = ea.len();
        if a.parent_hash != b.parent_hash {
            let k = a.parent_hash.len();
            assert(ea.subrange(0, k as int) =~= a.parent_hash);
            assert(eb.subrange(0, k as int) =~= b.parent_hash);
        } else if a.miner != b.miner {
            let k = a.parent_hash.len();
            assert(ea.subrange(k as int, n - 9) =~= ua);
            assert(eb.subrange(k as int, n - 9) =~= ub);
            vstd::utf8::encode_utf8_decode_utf8(a.miner);
            vstd::utf8::encode_utf8_decode_utf8(b.miner);
        } else if a.nonce != b.nonce {
            assert(ea.subrange(n - 9, n - 1) =~= be_bytes(a.nonce));
            assert(eb.subrange(n - 9, n - 1) =~= be_bytes(b.nonce));
            lemma_be_bytes_injective(a.nonce, b.nonce);
        } else {
            assert(ea[n - 1] == a.dancemove.spec_ordinal());
            assert(eb[n - 1] == b.dancemove.spec_ordinal());
        }
    }
}

/// Different numbers have different big-endian bytes.
proof fn lemma_be_bytes_injective(x: u64, y: u64)
    requires
        be_bytes(x) == be_bytes(y),
    ensures
        x == y,
{
    let bx = be_bytes(x);
    let by = be_bytes(y);
    assert(bx[0] == by[0] && bx[1] == by[1] && bx[2] == by[2] && bx[3] == by[3]);
    assert(bx[4] == by[4] && bx[5] == by[5] && bx[6] == by[6] && bx[7] == by[7]);
    assert(((x >> 56u64) & 0xffu64) == ((y >> 56u64) & 0xffu64) && ((x >> 48u64) & 0xffu64) == ((y
        >> 48u64) & 0xffu64) && ((x >> 40u64) & 0xffu64) == ((y >> 40u64) & 0xffu64) && ((x >> 32u64)
        & 0xffu64) == ((y >> 32u64) & 0xffu64) && ((x >> 24u64) & 0xffu64) == ((y >> 24u64)
        & 0xffu64) && ((x >> 16u64) & 0xffu64) == ((y >> 16u64) & 0xffu64) && ((x >> 8u64) & 0xffu64)
        == ((y >> 8u64) & 0xffu64) && (x & 0xffu64) == (y & 0xffu64)) by {
        lemma_low_byte(x >> 56u64, y >> 56u64);
        lemma_low_byte(x >> 48u64, y >> 48u64);
        lemma_low_byte(x >> 40u64, y >> 40u64);
        lemma_low_byte(x >> 32u64, y >> 32u64);
        lemma_low_byte(x >> 24u64, y >> 24u64);
        lemma_low_byte(x >> 16u64, y >> 16u64);
        lemma_low_byte(x >> 8u64, y >> 8u64);
        lemma_low_byte(x, y);
    }
    assert(x == y) by (bit_vector)
        requires
            ((x >> 56u64) & 0xffu64) == ((y >> 56u64) & 0xffu64),
            ((x >> 48u64) & 0xffu64) == ((y >> 48u64) & 0xffu64),
            ((x >> 40u64) & 0xffu64) == ((y >> 40u64) & 0xffu64),
            ((x >> 32u64) & 0xffu64) == ((y >> 32u64) & 0xffu64),
            ((x >> 24u64) & 0xffu64) == ((y >> 24u64) & 0xffu64),
            ((x >> 16u64) & 0xffu64) == ((y >> 16u64) & 0xffu64),
            ((x >> 8u64) & 0xffu64) == ((y >> 8u64) & 0xffu64),
            (x & 0xffu64) == (y & 0xffu64),
    ;
}

/// The low byte of a number, cast to `u8`, determines the masked value.
proof fn lemma_low_byte(x: u64, y: u64)
    ensures
        ((x & 0xffu64) as u8 == (y & 0xffu64) as u8) ==> (x & 0xffu64) == (y & 0xffu64),
{
    assert((x & 0xffu64) <= 0xffu64) by (bit_vector);
    assert((y & 0xffu64) <= 0xffu64) by (bit_vector);
}

/// Bit `j` of a byte, counting from its most significant bit.
pub open spec fn byte_bit(b: u8, j: int) -> u8 {
    (b >> ((7 - j) as u8)) & 1u8
}

/// A byte masked by its top `r` bits is zero exactly when those bits are.
proof fn lemma_top_bits(b: u8, r: u8)
    requires
        1 <= r <= 8,
    ensures
        ((b & (0xffu8 << ((8 - r) as u8))) == 0) <==> (forall|j: int|
            0 <= j < r ==> #[trigger] byte_bit(b, j) == 0),
{
    let b0 = byte_bit(b, 0);
    let b1 = byte_bit(b, 1);
    let b2 = byte_bit(b, 2);
    let b3 = byte_bit(b, 3);
    let b4 = byte_bit(b, 4);
    let b5 = byte_bit(b, 5);
    let b6 = byte_bit(b, 6);
    let b7 = byte_bit(b, 7);
    assert(b0 == (b >> 7u8) & 1u8 && b1 == (b >> 6u8) & 1u8 && b2 == (b >> 5u8) & 1u8 && b3 == (b
        >> 4u8) & 1u8 && b4 == (b >> 3u8) & 1u8 && b5 == (b >> 2u8) & 1u8 && b6 == (b >> 1u8) & 1u8
        && b7 == (b >> 0u8) & 1u8);
    assert(((b & (0xffu8 << ((8 - r) as u8))) == 0) <==> (((b >> 7u8) & 1u8 == 0) && (r >= 2 ==> (b
        >> 6u8) & 1u8 == 0) && (r >= 3 ==> (b >> 5u8) & 1u8 == 0) && (r >= 4 ==> (b >> 4u8) & 1u8
        == 0) && (r >= 5 ==> (b >> 3u8) & 1u8 == 0) && (r >= 6 ==> (b >> 2u8) & 1u8 == 0) && (r
        >= 7 ==> (b >> 1u8) & 1u8 == 0) && (r >= 8 ==> (b >> 0u8) & 1u8 == 0))) by (bit_vector)
        requires
            1 <= r <= 8,
    ;
    if (b & (0xffu8 << ((8 - r) as u8))) == 0 {
        assert forall|j: int| 0 <= j < r implies #[trigger] byte_bit(b, j) == 0 by {
            if j == 0 {
            } else if j == 1 {
            } else if j == 2 {
            } else if j == 3 {
            } else if j == 4 {
            } else if j == 5 {
            } else if j == 6 {
            } else {
            }
        }
    } else {
        assert(!(forall|j: int| 0 <= j < r ==> #[trigger] byte_bit(b, j) == 0));
    }
}

/// The miner name that the store refuses: the one a miner has not changed.
pub const PLACEHOLDER_MINER: &'static str = "changemeyoufool";

/// The miner name reserved for genesis blocks.
pub const GENESIS_MINER: &'static str = "Genesis";

/// Reason given for a placeholder miner, or "Genesis" on a block with a parent.
pub const ERR_MINER: &'static str = "Invalid miner name";

/// Reason given for a dance move outside 1 to 4.
pub const ERR_DANCE_MOVE: &'static str = "Invalid dance move";

/// Reason given for a hash that does not meet the difficulty.
pub const ERR_PROOF_OF_WORK: &'static str = "Invalid proof of work";

/// The miner name of `b` is acceptable: not the placeholder, and not the
/// genesis name unless `b` has no parent.
pub open spec fn miner_name_ok(b: BlockView) -> bool {
    &&& b.miner != PLACEHOLDER_MINER@
    &&& !(b.miner == GENESIS_MINER@ && b.parent_hash.len() > 0)
}

/// `b` meets the proof of work at difficulty `d`.
pub open spec fn pow_ok(b: BlockView, d: u32) -> bool {
    has_leading_zero_bits(hash_of(b), d as nat)
}

/// `b` is a genesis block at difficulty `d`.
pub open spec fn is_genesis_block(b: BlockView, d: u32) -> bool {
    &&& b.parent_hash.len() == 0
    &&& b.miner == GENESIS_MINER@
    &&& pow_ok(b, d)
}

/// Whether two strings hold the same characters, compared by their bytes.
pub fn same_str(a: &str, b: &str) -> (r: bool)
    ensures
        r == (a@ == b@),
{
    proof {
        vstd::utf8::encode_utf8_decode_utf8(a@);
        vstd::utf8::encode_utf8_decode_utf8(b@);
    }
    same_bytes(a.as_bytes(), b.as_bytes())
}

/// Appends the bytes of `s` to `v`.
fn append_bytes(v: &mut Vec<u8>, s: &[u8])
    ensures
        final(v)@ == old(v)@ + s@,
{
    let mut i: usize = 0;
    while i < s.len()
        invariant
            0 <= i <= s@.len(),
            v@ == old(v)@ + s@.subrange(0, i as int),
        decreases s@.len() - i,
    {
        v.push(s[i]);
        i = i + 1;
        assert(s@.subrange(0, i as int) =~= s@.subrange(0, i - 1) + seq![s@[i - 1]]);
    }
    assert(s@.subrange(0, i as int) =~= s@);
}

/// Declares `rand::rngs::StdRng`, the random generator that drives the search.
#[verifier::external_type_specification]
#[verifier::external_body]
pub struct ExStdRng(rand::rngs::StdRng);

/// Relies on `rand::RngCore::next_u64` of `StdRng`: a fresh random value,
/// of which nothing can be promised.
#[verifier::external_body]
fn random_u64(rng: &mut rand::rngs::StdRng) -> u64 {
    rng.next_u64()
}

/// Relies on `rand::RngCore::next_u32` of `StdRng`: a fresh random value,
/// of which nothing can be promised.
#[verifier::external_body]
pub(crate) fn random_u32(rng: &mut rand::rngs::StdRng) -> u32 {
    rng.next_u32()
}

impl Block {
    pub fn new(parent_hash: Vec<u8>, miner: String, nonce: u64, dancemove: DanceMove) -> (r: Block)
        ensures
            r.parent_hash == parent_hash,
            r.miner == miner,
            r.nonce == nonce,
            r.dancemove == dancemove,
    {
        Block { parent_hash, miner, nonce, dancemove }
    }

    /// The bytes that are hashed.
    pub fn encode(&self) -> (r: Vec<u8>)
        ensures
            r@ == encode_block(self@),
    {
        let mut msg: Vec<u8> = Vec::new();
        append_bytes(&mut msg, self.parent_hash.as_slice());
        append_bytes(&mut msg, self.miner.as_str().as_bytes());
        let n = self.nonce;
        msg.push(((n >> 56u64) & 0xffu64) as u8);
        msg.push(((n >> 48u64) & 0xffu64) as u8);
        msg.push(((n >> 40u64) & 0xffu64) as u8);
        msg.push(((n >> 32u64) & 0xffu64) as u8);
        msg.push(((n >> 24u64) & 0xffu64) as u8);
        msg.push(((n >> 16u64) & 0xffu64) as u8);
        msg.push(((n >> 8u64) & 0xffu64) as u8);
        msg.push((n & 0xffu64) as u8);
        msg.push(self.dancemove.ordinal());
        assert(msg@ =~= encode_block(self@));
        msg
    }

    /// Computes the hash of the block.
    pub fn hash_block(&self) -> (r: [u8; 32])
        ensures
            r@ == hash_of(self@),
    {
        let msg = self.encode();
        sha256(msg.as_slice())
    }

    /// Sets the nonce and checks the proof of work with it: the hash if it
    /// meets the difficulty.
    pub fn try_nonce(&mut self, nonce: u64, difficulty: u32) -> (r: Option<Vec<u8>>)
        ensures
            final(self)@ == (BlockView { nonce, ..old(self)@ }),
            r is Some <==> pow_ok(final(self)@, difficulty),
            r matches Some(h) ==> h@ == hash_of(final(self)@),
    {
        self.nonce = nonce;
        let hash = self.hash_block();
        if self.pow_check(&hash, difficulty) {
            Some(self.hash())
        } else {
            None
        }
    }

    /// Searches for a nonce with which the block meets the difficulty,
    /// drawing a fresh random nonce each time, at most `max_iteration`
    /// times (unbounded when `None`). On success the block holds the nonce
    /// found and its hash is returned.
    pub fn solve_block(
        &mut self,
        rng: &mut rand::rngs::StdRng,
        difficulty: u32,
        max_iteration: Option<u64>,
    ) -> (r: Option<Vec<u8>>)
        ensures
            final(self)@ == (BlockView { nonce: final(self).nonce, ..old(self)@ }),
            r matches Some(h) ==> h@ == hash_of(final(self)@) && pow_ok(final(self)@, difficulty),
            r is None && max_iteration != Some(0u64) ==> !pow_ok(final(self)@, difficulty),
            max_iteration == Some(0u64) ==> r is None && final(self)@ == old(self)@,
    {
        let max_iter: u64 = match max_iteration {
            Some(k) => k,
            None => u64::MAX,
        };
        let mut iterations: u64 = 0;
        while iterations < max_iter
            invariant
                self@ == (BlockView { nonce: self.nonce, ..old(self)@ }),
                iterations <= max_iter,
                max_iter == 0 ==> self@ == old(self)@,
                iterations > 0 ==> !pow_ok(self@, difficulty),
                max_iteration == Some(0u64) ==> max_iter == 0,
                max_iteration != Some(0u64) ==> max_iter > 0,
            decreases max_iter - iterations,
        {
            let nonce = random_u64(rng);
            match self.try_nonce(nonce, difficulty) {
                Some(h) => {
                    return Some(h);
                },
                None => {},
            }
            iterations = iterations + 1;
        }
        None
    }

    /// Checks the proof of work: `hash` starts with `difficulty` zero bits.
    pub fn pow_check(&self, hash: &[u8], difficulty: u32) -> (r: bool)
        ensures
            r == has_leading_zero_bits(hash@, difficulty as nat),
    {
        if difficulty == 0 {
            return true;
        }
        let full_bytes: u32 = difficulty / 8;
        let remaining_bits: u32 = difficulty % 8;
        let mut i: usize = 0;
        while i < full_bytes as usize
            invariant
                0 <= i <= full_bytes,
                full_bytes == difficulty / 8,
                i <= hash@.len(),
                forall|k: int| 0 <= k < 8 * i ==> #[trigger] bit_msb(hash@, k) == 0,
            decreases full_bytes - i,
        {
            if i >= hash.len() {
                return false;
            }
            let b = hash[i];
            proof {
                lemma_top_bits(b, 8);
                assert((0xffu8 << 0u8) == 0xffu8) by (bit_vector);
                assert((b & 0xffu8) == b) by (bit_vector);
            }
            if b != 0 {
                proof {
                    let j = choose|j: int| 0 <= j < 8 && byte_bit(b, j) != 0;
                    let k = 8 * i + j;
                    assert(k / 8 == i && k % 8 == j) by (nonlinear_arith)
                        requires k == 8 * i + j, 0 <= j < 8;
                    assert(bit_msb(hash@, k) != 0);
                }
                return false;
            }
            proof {
                assert forall|k: int| 0 <= k < 8 * (i + 1) implies #[trigger] bit_msb(hash@, k) == 0 by {
                    if k >= 8 * i {
                        let j = k - 8 * i;
                        assert(k / 8 == i && k % 8 == j) by (nonlinear_arith)
                            requires k == 8 * i + j, 0 <= j < 8;
                        assert(byte_bit(b, j) == 0);
                    }
                }
            }
            i = i + 1;
        }
        if remaining_bits > 0 {
            let byte_pos = full_bytes as usize;
            if byte_pos >= hash.len() {
                return false;
            }
            let b = hash[byte_pos];
            let mask: u8 = 0xffu8 << ((8 - remaining_bits) as u8);
            proof {
                lemma_top_bits(b, remaining_bits as u8);
            }
            if (b & mask) != 0 {
                proof {
                    let j = choose|j: int| 0 <= j < remaining_bits && byte_bit(b, j) != 0;
                    let k = 8 * byte_pos + j;
                    assert(k / 8 == byte_pos && k % 8 == j) by (nonlinear_arith)
                        requires k == 8 * byte_pos + j, 0 <= j < 8;
                    assert(bit_msb(hash@, k) != 0);
                }
                return false;
            }
            proof {
                assert forall|k: int| 0 <= k < difficulty implies #[trigger] bit_msb(hash@, k) == 0 by {
                    if k >= 8 * byte_pos {
                        let j = k - 8 * byte_pos;
                        assert(k / 8 == byte_pos && k % 8 == j) by (nonlinear_arith)
                            requires k == 8 * byte_pos + j, 0 <= j < 8;
                        assert(byte_bit(b, j) == 0);
                    }
                }
            }
        }
        true
    }

    /// Checks the block against the rules of the ledger at `difficulty`:
    /// its miner name, its dance move and its proof of work, in that order.
    pub fn is_block_valid(&self, difficulty: u32) -> (r: Result<(), &'static str>)
        ensures
            !miner_name_ok(self@) ==> r == Err::<(), &str>(ERR_MINER),
            miner_name_ok(self@) && !pow_ok(self@, difficulty) ==> r == Err::<(), &str>(
                ERR_PROOF_OF_WORK,
            ),
            r is Ok <==> miner_name_ok(self@) && pow_ok(self@, difficulty),
    {
        let is_genesis_name = same_str(self.miner.as_str(), GENESIS_MINER);
        if same_str(self.miner.as_str(), PLACEHOLDER_MINER) || (is_genesis_name
            && self.parent_hash.len() != 0) {
            return Err(ERR_MINER);
        }
        let dance_value = self.dancemove.ordinal();
        if dance_value < 1 || dance_value > 4 {
            return Err(ERR_DANCE_MOVE);
        }
        let hash = self.hash_block();
        if !self.pow_check(&hash, difficulty) {
            return Err(ERR_PROOF_OF_WORK);
        }
        Ok(())
    }

    /// Whether the block is a genesis block: no parent, the genesis miner
    /// name, and a hash that meets the difficulty.
    pub fn is_genesis(&self, difficulty: u32) -> (r: bool)
        ensures
            r == is_genesis_block(self@, difficulty),
    {
        if self.parent_hash.len() == 0 && same_str(self.miner.as_str(), GENESIS_MINER) {
            let hash = self.hash_block();
            return self.pow_check(&hash, difficulty);
        }
        false
    }
}

impl Parenting for Block {
    open spec fn spec_is_parent(&self, parent_id: Seq<u8>) -> bool {
        parent_id == hash_of(self@)
    }

    open spec fn spec_parent_hash(&self) -> Seq<u8> {
        self.parent_hash@
    }

    open spec fn spec_hash(&self) -> Seq<u8> {
        hash_of(self@)
    }

    open spec fn spec_nonce(&self) -> u64 {
        self.nonce
    }

    /// Whether `parent_id` is this block's hash.
    fn is_parent(&self, parent_id: &[u8]) -> (r: bool) {
        let self_hash = self.hash_block();
        same_bytes(parent_id, &self_hash)
    }

    fn parent_hash(&self) -> (r: &[u8]) {
        self.parent_hash.as_slice()
    }

    fn hash(&self) -> (r: Vec<u8>) {
        let h = self.hash_block();
        let mut v: Vec<u8> = Vec::new();
        append_bytes(&mut v, &h);
        v
    }

    fn nonce(&self) -> (r: u64) {
        self.nonce
    }
}

} // verus!
