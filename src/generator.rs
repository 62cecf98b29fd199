//! The generator: a block of whitened entropy, a cursor into it, and the
//! rules for when the block is refilled.
use vstd::prelude::*;
use crate::decode::{decode_le, le_value, lemma_le_value_bound, pow256};
use crate::whiten::{whiten, whitened, BLOCK_LEN, POOL_LEN};
use core::convert::Infallible;

verus! {

/// Where timing jitter comes from. Nothing is assumed of what a source
/// returns: every property of the generator holds for any source.
pub trait JitterSource {
    /// Measures once how many cycles a short, fixed run of filler work took.
    fn sample(&mut self) -> u64;

    /// Gives the rest of the current time slice back to the scheduler.
    fn relax(&mut self);
}

/// Number of harvests that a read of `n` bytes makes when the cursor stands
/// at `index`: none while the unread bytes suffice, and then one for each
/// further 32 bytes or part of them.
pub open spec fn refills(index: nat, n: nat) -> nat {
    if index + n <= BLOCK_LEN {
        0
    } else {
        ((index + n - 1) / (BLOCK_LEN as int)) as nat
    }
}

/// The bytes that the harvests of `pools` yield, in order.
pub open spec fn stream(pools: Seq<Seq<u64>>) -> Seq<u8>
    decreases pools.len(),
{
    if pools.len() == 0 {
        Seq::empty()
    } else {
        stream(pools.drop_last()) + whitened(pools.last())
    }
}

/// A true random number generator fed by CPU timing jitter.
///
/// Its cursor never leaves the block: at 32 the block is used up, and the
/// next read harvests a fresh one before it serves a byte.
pub struct Jitterbug {
    /// The current block of whitened entropy.
    buffer: [u8; 32],
    /// How many bytes of `buffer` have been served.
    index: usize,
    /// The most recent raw timing delta, kept across harvests.
    last_raw: u64,
}

impl Jitterbug {
    #[verifier::type_invariant]
    spec fn cursor_in_block(self) -> bool {
        self.index <= BLOCK_LEN
    }

    /// The current block of whitened bytes.
    pub closed spec fn contents(self) -> Seq<u8> {
        self.buffer@
    }

    /// How many bytes of the current block have been served.
    pub closed spec fn cursor(self) -> nat {
        self.index as nat
    }

    /// The most recent raw timing delta.
    pub closed spec fn last_delta(self) -> u64 {
        self.last_raw
    }

    /// The bytes of the current block not yet served.
    pub open spec fn pending(self) -> Seq<u8> {
        self.contents().subrange(self.cursor() as int, BLOCK_LEN as int)
    }

    /// The current block, and the last delta, come from a harvest that
    /// gathered `pool`.
    pub open spec fn drawn_from(self, pool: Seq<u64>) -> bool {
        &&& pool.len() == POOL_LEN
        &&& self.contents() == whitened(pool)
        &&& self.last_delta() == pool.last()
    }

    /// `self` was just filled by a harvest that gathered `pool`.
    pub open spec fn fresh_from(self, pool: Seq<u64>) -> bool {
        self.drawn_from(pool) && self.cursor() == 0
    }

    /// Serving `out` took `self` to `next`, refilling from each pool of
    /// `pools` in turn.
    pub open spec fn serves_via(self, next: Self, out: Seq<u8>, pools: Seq<Seq<u64>>) -> bool {
        &&& next.cursor() <= BLOCK_LEN
        &&& pools.len() == refills(self.cursor(), out.len())
        &&& forall|k: int| 0 <= k < pools.len() ==> (#[trigger] pools[k]).len() == POOL_LEN
        &&& self.pending() + stream(pools) == out + next.pending()
        &&& if pools.len() == 0 {
            next.contents() == self.contents() && next.last_delta() == self.last_delta()
        } else {
            next.drawn_from(pools.last())
        }
    }

    /// Serving `out` took `self` to `next`, with whatever harvests that needed.
    pub open spec fn serves(self, next: Self, out: Seq<u8>) -> bool {
        exists|pools: Seq<Seq<u64>>| self.serves_via(next, out, pools)
    }

    /// Going from `self` to `next` served `width` bytes whose little-endian
    /// value is `value`.
    pub open spec fn reads_word(self, next: Self, value: nat, width: nat) -> bool {
        exists|b: Seq<u8>| b.len() == width && value == le_value(b) && #[trigger] self.serves(next, b)
    }

    /// Records a raw timing delta and says whether it repeats the one before,
    /// which is the sign of a stalled or coarse timer.
    pub fn record_delta(&mut self, delta: u64) -> (stalled: bool)
        ensures
            stalled == (delta == old(self).last_delta()),
            final(self).last_delta() == delta,
            final(self).contents() == old(self).contents(),
            final(self).cursor() == old(self).cursor(),
            final(self).cursor() <= BLOCK_LEN,
    {
        proof {
            use_type_invariant(&*self);
        }
        let stalled = delta == self.last_raw;
        self.last_raw = delta;
        stalled
    }

    /// Samples 256 timing deltas from `source`, yielding after each one that
    /// repeats its predecessor, and whitens them into a fresh block.
    pub fn harvest<S: JitterSource>(&mut self, source: &mut S)
        ensures
            exists|pool: Seq<u64>| final(self).fresh_from(pool),
    {
        proof {
            use_type_invariant(&*self);
        }
        let mut pool: Vec<u64> = Vec::new();
        let mut k: usize = 0;
        while k < POOL_LEN
            invariant
                k <= POOL_LEN,
                pool@.len() == k,
                k > 0 ==> self.last_raw == pool@[k - 1],
            decreases POOL_LEN - k,
        {
            let delta = source.sample();
            if self.record_delta(delta) {
                source.relax();
            }
            pool.push(delta);
            k = k + 1;
        }
        let block = whiten(&pool);
        proof {
            use_type_invariant(&*self);
        }
        self.buffer = block;
        self.index = 0;
        assert(self.fresh_from(pool@));
    }

    /// Fills `dest` byte by byte from the current block, harvesting from
    /// `source` whenever the block is used up.
    pub fn fill_bytes<S: JitterSource>(&mut self, source: &mut S, dest: &mut [u8])
        ensures
            final(dest)@.len() == old(dest)@.len(),
            old(self).serves(*final(self), final(dest)@),
    {
        proof {
            use_type_invariant(&*self);
        }
        let ghost start = *self;
        let ghost mut pools: Seq<Seq<u64>> = Seq::empty();
        let n = dest.len();
        let mut i: usize = 0;
        assert(start.pending() + stream(pools) =~= dest@.take(0) + self.pending());
        while i < n
            invariant
                i <= n,
                n == dest@.len(),
                start.cursor() <= BLOCK_LEN,
                self.index <= BLOCK_LEN,
                self.index as int == start.cursor() + i - BLOCK_LEN * pools.len(),
                pools.len() > 0 ==> self.index >= 1,
                forall|k: int| 0 <= k < pools.len() ==> (#[trigger] pools[k]).len() == POOL_LEN,
                start.pending() + stream(pools) == dest@.take(i as int) + self.pending(),
                if pools.len() == 0 {
                    self.contents() == start.contents() && self.last_delta() == start.last_delta()
                } else {
                    self.drawn_from(pools.last())
                },
            decreases n - i,
        {
            if self.index >= BLOCK_LEN {
                let ghost before = dest@.take(i as int) + self.pending();
                assert(before =~= dest@.take(i as int));
                self.harvest(source);
                proof {
                    let pool = choose|pool: Seq<u64>| self.fresh_from(pool);
                    lemma_stream_push(pools, pool);
                    pools = pools.push(pool);
                    assert(self.pending() =~= whitened(pool));
                    assert(pools.last() == pool);
                    assert forall|k: int| 0 <= k < pools.len() implies (#[trigger] pools[k]).len()
                        == POOL_LEN by {
                        if k < pools.len() - 1 {
                            assert(pools[k] == pools.drop_last()[k]);
                        }
                    }
                }
            }
            proof {
                use_type_invariant(&*self);
            }
            let ghost served = dest@.take(i as int);
            let ghost rest = self.pending();
            let b = self.buffer[self.index];
            self.index = self.index + 1;
            dest[i] = b;
            i = i + 1;
            assert(dest@.take(i as int) =~= served.push(b));
            assert(served + rest =~= dest@.take(i as int) + self.pending());
        }
        proof {
            assert(dest@.take(n as int) =~= dest@);
            lemma_refills_count(start.cursor(), n as nat, pools.len());
            assert(start.serves_via(*self, dest@, pools));
        }
    }

    /// Serves four bytes as a little-endian `u32`.
    pub fn next_u32<S: JitterSource>(&mut self, source: &mut S) -> (r: u32)
        ensures
            old(self).reads_word(*final(self), r as nat, 4),
    {
        let mut bytes = [0u8; 4];
        self.fill_bytes(source, &mut bytes);
        let v = decode_le(&bytes);
        proof {
            lemma_le_value_bound(bytes@);
            reveal_with_fuel(pow256, 5);
        }
        v as u32
    }

    /// Serves eight bytes as a little-endian `u64`.
    pub fn next_u64<S: JitterSource>(&mut self, source: &mut S) -> (r: u64)
        ensures
            old(self).reads_word(*final(self), r as nat, 8),
    {
        let mut bytes = [0u8; 8];
        self.fill_bytes(source, &mut bytes);
        decode_le(&bytes)
    }

    /// `next_u32` in the shape of a fallible generator; it always succeeds.
    pub fn try_next_u32<S: JitterSource>(&mut self, source: &mut S) -> (r: Result<u32, Infallible>)
        ensures
            r matches Ok(v) && old(self).reads_word(*final(self), v as nat, 4),
    {
        Ok(self.next_u32(source))
    }

    /// `next_u64` in the shape of a fallible generator; it always succeeds.
    pub fn try_next_u64<S: JitterSource>(&mut self, source: &mut S) -> (r: Result<u64, Infallible>)
        ensures
            r matches Ok(v) && old(self).reads_word(*final(self), v as nat, 8),
    {
        Ok(self.next_u64(source))
    }

    /// `fill_bytes` in the shape of a fallible generator; it always succeeds.
    pub fn try_fill_bytes<S: JitterSource>(&mut self, source: &mut S, dest: &mut [u8]) -> (r: Result<
        (),
        Infallible,
    >)
        ensures
            r is Ok,
            final(dest)@.len() == old(dest)@.len(),
            old(self).serves(*final(self), final(dest)@),
    {
        self.fill_bytes(source, dest);
        Ok(())
    }

    /// Position of the cursor in the current block.
    pub fn index(&self) -> (r: usize)
        ensures
            r == self.cursor(),
            r <= BLOCK_LEN,
    {
        proof {
            use_type_invariant(self);
        }
        self.index
    }

    /// The most recent raw timing delta.
    pub fn last_raw(&self) -> (r: u64)
        ensures
            r == self.last_delta(),
    {
        self.last_raw
    }

    /// Creates a generator and fills its first block from `source`.
    pub fn new<S: JitterSource>(source: &mut S) -> (r: Self)
        ensures
            exists|pool: Seq<u64>| r.fresh_from(pool),
    {
        let mut r = Jitterbug { buffer: [0u8; 32], index: BLOCK_LEN, last_raw: 0 };
        r.harvest(source);
        r
    }
}

/// Byte `k` of the stream is byte `k % 32` of the block whitened from pool
/// `k / 32`.
pub proof fn lemma_stream_index(pools: Seq<Seq<u64>>)
    ensures
        stream(pools).len() == BLOCK_LEN * pools.len(),
        forall|k: int|
            0 <= k < stream(pools).len() ==> #[trigger] stream(pools)[k] == whitened(
                pools[k / 32],
            )[k % 32],
    decreases pools.len(),
{
    if pools.len() > 0 {
        let init = pools.drop_last();
        lemma_stream_index(init);
        assert forall|k: int| 0 <= k < stream(pools).len() implies #[trigger] stream(pools)[k]
            == whitened(pools[k / 32])[k % 32] by {
            if k < stream(init).len() {
                assert(k / 32 < init.len()) by (nonlinear_arith)
                    requires
                        k < 32 * init.len(),
                        0 <= k,
                ;
                assert(init[k / 32] == pools[k / 32]);
            } else {
                assert(k / 32 == init.len() && k % 32 == k - 32 * init.len()) by (nonlinear_arith)
                    requires
                        32 * init.len() <= k < 32 * init.len() + 32,
                ;
            }
        }
    }
}

/// Once the 32 bytes of a block have all been served, a read harvests before
/// it serves: its first byte is the first byte of the block whitened from the
/// first pool that it gathered.
pub proof fn lemma_exhausted_read_refills(
    g: Jitterbug,
    next: Jitterbug,
    out: Seq<u8>,
    pools: Seq<Seq<u64>>,
)
    requires
        g.cursor() == BLOCK_LEN,
        out.len() >= 1,
        g.serves_via(next, out, pools),
    ensures
        pools.len() >= 1,
        out[0] == whitened(pools[0])[0],
{
    assert(g.pending() =~= Seq::<u8>::empty());
    assert(g.pending() + stream(pools) =~= stream(pools));
    lemma_stream_index(pools);
    assert((out + next.pending())[0] == out[0]);
}

/// A read that the unread bytes of the block can satisfy harvests nothing:
/// it serves the next `out.len()` bytes of the block, in order, and moves the
/// cursor past them.
pub proof fn lemma_read_within_block(g: Jitterbug, next: Jitterbug, out: Seq<u8>)
    requires
        g.cursor() + out.len() <= BLOCK_LEN,
        g.serves(next, out),
    ensures
        out == g.contents().subrange(g.cursor() as int, (g.cursor() + out.len()) as int),
        next.contents() == g.contents(),
        next.last_delta() == g.last_delta(),
        next.cursor() == g.cursor() + out.len(),
{
    let pools = choose|pools: Seq<Seq<u64>>| g.serves_via(next, out, pools);
    assert(stream(pools) =~= Seq::<u8>::empty());
    assert(g.pending() + stream(pools) =~= g.pending());
    let n = out.len() as int;
    assert(out =~= g.pending().take(n)) by {
        assert forall|k: int| 0 <= k < n implies out[k] == g.pending()[k] by {
            assert((out + next.pending())[k] == out[k]);
        }
    }
}

/// A read of no bytes leaves the generator as it was.
pub proof fn lemma_empty_read_is_noop(g: Jitterbug, next: Jitterbug, pools: Seq<Seq<u64>>)
    requires
        g.cursor() <= BLOCK_LEN,
        g.serves_via(next, Seq::empty(), pools),
    ensures
        pools.len() == 0,
        next.contents() == g.contents(),
        next.cursor() == g.cursor(),
        next.last_delta() == g.last_delta(),
{
    assert(Seq::<u8>::empty() + next.pending() =~= next.pending());
    assert(g.pending() + stream(pools) =~= g.pending());
}

/// A read of 65 bytes harvests at least twice, wherever the cursor stood.
pub proof fn lemma_long_read_refills_twice(
    g: Jitterbug,
    next: Jitterbug,
    out: Seq<u8>,
    pools: Seq<Seq<u64>>,
)
    requires
        out.len() == 65,
        g.serves_via(next, out, pools),
    ensures
        pools.len() >= 2,
{
}

/// A cursor that stands at `c + n - 32 * p`, within the block and past its
/// start once a refill has been made, has made exactly the refills that a read
/// of `n` bytes from `c` calls for.
proof fn lemma_refills_count(c: nat, n: nat, p: nat)
    requires
        c <= BLOCK_LEN,
        0 <= c + n - BLOCK_LEN * p <= BLOCK_LEN,
        p > 0 ==> c + n - BLOCK_LEN * p >= 1,
    ensures
        p == refills(c, n),
{
    if p > 0 {
        let x = c + n;
        assert((x - 1) / 32 == p) by (nonlinear_arith)
            requires
                x - 32 * p >= 1,
                x - 32 * p <= 32,
                p > 0,
        ;
    }
}

/// One more harvest appends its block to the stream.
proof fn lemma_stream_push(pools: Seq<Seq<u64>>, pool: Seq<u64>)
    ensures
        stream(pools.push(pool)) == stream(pools) + whitened(pool),
{
    assert(pools.push(pool).drop_last() =~= pools);
}

} // verus!
