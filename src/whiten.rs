//! Whitening: compressing a pool of timing deltas into one block of output
//! bytes with a general-purpose keyed-by-salt hash.
use vstd::prelude::*;

verus! {

/// Number of timing deltas gathered for one block.
pub const POOL_LEN: usize = 256;

/// Number of bytes in one block of output.
pub const BLOCK_LEN: usize = 32;

/// Number of hash words in one block; each contributes eight bytes.
pub const WORDS_PER_BLOCK: u64 = 4;

/// The 64-bit digest that std's `DefaultHasher` (fresh, unkeyed) gives for the
/// pair `(salt, samples)`.
pub uninterp spec fn sip_digest(salt: u64, samples: Seq<u64>) -> u64;

/// Byte `j` (0 = least significant) of `x`.
pub open spec fn le_byte(x: u64, j: u64) -> u8 {
    (x >> (8 * j)) as u8
}

/// The block that whitening makes of `samples`: for each salt `w` in `0..4`,
/// the eight little-endian bytes of `sip_digest(w, samples)`, in salt order.
pub open spec fn whitened(samples: Seq<u64>) -> Seq<u8> {
    Seq::new(BLOCK_LEN as nat, |k: int| le_byte(sip_digest((k / 8) as u64, samples), (k % 8) as u64))
}

/// Relies on `std::hash::BuildHasher::hash_one` with
/// `BuildHasherDefault<DefaultHasher>`: it hashes `(salt, samples)` with a
/// freshly made `DefaultHasher`, whose keys are fixed, so the result depends
/// on the two arguments alone.
#[verifier::external_body]
fn digest(salt: u64, samples: &Vec<u64>) -> (r: u64)
    ensures
        r == sip_digest(salt, samples@),
{
    let builder = std::hash::BuildHasherDefault::<std::collections::hash_map::DefaultHasher>::default();
    std::hash::BuildHasher::hash_one(&builder, (salt, samples))
}

/// Whitening is a function of the pool alone: equal pools give equal blocks.
pub proof fn lemma_whitening_deterministic(s: Seq<u64>, t: Seq<u64>, x: [u8; 32], y: [u8; 32])
    requires
        s == t,
        x@ == whitened(s),
        y@ == whitened(t),
    ensures
        x == y,
{
    assert(x@ =~= y@);
}

/// Whitens a pool of timing deltas into a fresh 32-byte block.
pub fn whiten(samples: &Vec<u64>) -> (block: [u8; 32])
    ensures
        block@ == whitened(samples@),
{
    let mut block = [0u8; 32];
    let mut w: u64 = 0;
    while w < WORDS_PER_BLOCK
        invariant
            w <= WORDS_PER_BLOCK,
            block@.len() == BLOCK_LEN,
            forall|k: int| 0 <= k < 8 * w ==> block@[k] == #[trigger] whitened(samples@)[k],
        decreases WORDS_PER_BLOCK - w,
    {
        let h = digest(w, samples);
        let mut j: u64 = 0;
        while j < 8
            invariant
                w < WORDS_PER_BLOCK,
                j <= 8,
                h == sip_digest(w, samples@),
                block@.len() == BLOCK_LEN,
                forall|k: int| 0 <= k < 8 * w + j ==> block@[k] == #[trigger] whitened(samples@)[k],
            decreases 8 - j,
        {
            let pos = (8 * w + j) as usize;
            block[pos] = (h >> (8 * j)) as u8;
            proof {
                let k = 8 * w + j;
                assert(k / 8 == w && k % 8 == j) by (nonlinear_arith)
                    requires k == 8 * w + j, j < 8;
            }
            j = j + 1;
        }
        w = w + 1;
    }
    block
}

} // verus!
