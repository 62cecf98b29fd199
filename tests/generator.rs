use jitterbug::decode::decode_le;
use jitterbug::{whiten, JitterSource, Jitterbug};
use std::collections::hash_map::DefaultHasher;
use std::hash::{Hash, Hasher};

/// A source whose deltas run `start, start + step, start + 2 * step, ...`.
struct Scripted {
    next: u64,
    step: u64,
    samples: usize,
    relaxes: usize,
}

impl Scripted {
    fn new(start: u64, step: u64) -> Scripted {
        Scripted { next: start, step, samples: 0, relaxes: 0 }
    }
}

impl JitterSource for Scripted {
    fn sample(&mut self) -> u64 {
        let d = self.next;
        self.next = self.next.wrapping_add(self.step);
        self.samples += 1;
        d
    }

    fn relax(&mut self) {
        self.relaxes += 1;
    }
}

/// The pool that harvest number `k` gathers from `Scripted::new(start, step)`.
fn pool_of(start: u64, step: u64, k: u64) -> Vec<u64> {
    (0..256u64).map(|j| start.wrapping_add((256 * k + j).wrapping_mul(step))).collect()
}

fn block_of(start: u64, step: u64, k: u64) -> [u8; 32] {
    whiten(&pool_of(start, step, k))
}

#[test]
fn new_generator_holds_a_fresh_block() {
    let mut src = Scripted::new(100, 3);
    let g = Jitterbug::new(&mut src);
    assert_eq!(g.index(), 0);
    assert_eq!(src.samples, 256);
    assert_eq!(g.last_raw(), 100 + 255 * 3);
}

#[test]
fn cursor_stays_within_block() {
    let mut src = Scripted::new(1, 1);
    let mut g = Jitterbug::new(&mut src);
    let sizes = [0usize, 1, 3, 31, 32, 33, 64, 65, 7, 100];
    for n in sizes {
        let mut dest = vec![0u8; n];
        g.fill_bytes(&mut src, &mut dest);
        assert!(g.index() <= 32);
        g.next_u32(&mut src);
        assert!(g.index() <= 32);
        g.next_u64(&mut src);
        assert!(g.index() <= 32);
    }
}

#[test]
fn exhausted_block_is_refilled_before_next_byte() {
    let mut src = Scripted::new(5, 7);
    let mut g = Jitterbug::new(&mut src);
    let mut first = [0u8; 32];
    g.fill_bytes(&mut src, &mut first);
    assert_eq!(first, block_of(5, 7, 0));
    assert_eq!(g.index(), 32);
    assert_eq!(src.samples, 256);
    let mut one = [0u8; 1];
    g.fill_bytes(&mut src, &mut one);
    assert_eq!(src.samples, 512);
    assert_eq!(g.index(), 1);
    assert_eq!(one[0], block_of(5, 7, 1)[0]);
    assert_ne!(block_of(5, 7, 0), block_of(5, 7, 1));
}

#[test]
fn whitening_is_deterministic() {
    let pool = pool_of(9, 11, 0);
    assert_eq!(whiten(&pool), whiten(&pool.clone()));
    let mut a_src = Scripted::new(42, 13);
    let mut b_src = Scripted::new(42, 13);
    let mut a = Jitterbug::new(&mut a_src);
    let mut b = Jitterbug::new(&mut b_src);
    let mut a_out = [0u8; 100];
    let mut b_out = [0u8; 100];
    a.fill_bytes(&mut a_src, &mut a_out);
    b.fill_bytes(&mut b_src, &mut b_out);
    assert_eq!(a_out, b_out);
}

#[test]
fn whitening_hashes_salt_and_pool() {
    let pool = pool_of(3, 17, 0);
    let block = whiten(&pool);
    for salt in 0..4u64 {
        let mut h = DefaultHasher::new();
        (salt, &pool).hash(&mut h);
        let word = h.finish().to_le_bytes();
        let at = salt as usize * 8;
        assert_eq!(&block[at..at + 8], &word[..]);
    }
    assert_ne!(&block[0..8], &block[8..16]);
    assert_ne!(block, whiten(&pool_of(4, 17, 0)));
}

#[test]
fn fill_of_nothing_is_a_no_op() {
    let mut src = Scripted::new(1, 2);
    let mut g = Jitterbug::new(&mut src);
    let mut three = [0u8; 3];
    g.fill_bytes(&mut src, &mut three);
    let mut empty: [u8; 0] = [];
    g.fill_bytes(&mut src, &mut empty);
    assert_eq!(g.index(), 3);
    assert_eq!(src.samples, 256);
    let mut two = [0u8; 2];
    g.fill_bytes(&mut src, &mut two);
    assert_eq!(two, [block_of(1, 2, 0)[3], block_of(1, 2, 0)[4]]);
}

#[test]
fn fill_of_65_bytes_harvests_at_least_twice() {
    let mut src = Scripted::new(8, 1);
    let mut g = Jitterbug::new(&mut src);
    let mut dest = [0u8; 65];
    g.fill_bytes(&mut src, &mut dest);
    assert_eq!(src.samples, 256 * 3);
    assert_eq!(g.index(), 1);
    assert_eq!(&dest[0..32], &block_of(8, 1, 0)[..]);
    assert_eq!(&dest[32..64], &block_of(8, 1, 1)[..]);
    assert_eq!(dest[64], block_of(8, 1, 2)[0]);

    let mut src = Scripted::new(8, 1);
    let mut g = Jitterbug::new(&mut src);
    let mut skip = [0u8; 32];
    g.fill_bytes(&mut src, &mut skip);
    let mut dest = [0u8; 65];
    g.fill_bytes(&mut src, &mut dest);
    assert_eq!(src.samples, 256 * 4);
    assert_eq!(g.index(), 1);
}

#[test]
fn fill_populates_every_byte() {
    let mut src = Scripted::new(77, 5);
    let mut g = Jitterbug::new(&mut src);
    let mut dest = vec![0u8; 200];
    g.fill_bytes(&mut src, &mut dest);
    let mut expected = Vec::new();
    for k in 0..7 {
        expected.extend_from_slice(&block_of(77, 5, k));
    }
    assert_eq!(dest, expected[..200].to_vec());
    assert_eq!(g.index(), 200 - 6 * 32);
}

#[test]
fn next_u32_decodes_four_bytes_little_endian() {
    let mut src = Scripted::new(2, 9);
    let mut g = Jitterbug::new(&mut src);
    let block = block_of(2, 9, 0);
    let a = g.next_u32(&mut src);
    let b = g.next_u32(&mut src);
    assert_eq!(a, u32::from_le_bytes([block[0], block[1], block[2], block[3]]));
    assert_eq!(b, u32::from_le_bytes([block[4], block[5], block[6], block[7]]));
    assert_eq!(g.index(), 8);
}

#[test]
fn next_u64_decodes_eight_bytes_across_a_refill() {
    let mut src = Scripted::new(6, 4);
    let mut g = Jitterbug::new(&mut src);
    let mut skip = [0u8; 28];
    g.fill_bytes(&mut src, &mut skip);
    let v = g.next_u64(&mut src);
    let old = block_of(6, 4, 0);
    let new = block_of(6, 4, 1);
    let bytes = [old[28], old[29], old[30], old[31], new[0], new[1], new[2], new[3]];
    assert_eq!(v, u64::from_le_bytes(bytes));
    assert_eq!(g.index(), 4);
}

#[test]
fn fallible_forms_always_succeed() {
    let mut a_src = Scripted::new(10, 10);
    let mut b_src = Scripted::new(10, 10);
    let mut a = Jitterbug::new(&mut a_src);
    let mut b = Jitterbug::new(&mut b_src);
    assert_eq!(a.try_next_u32(&mut a_src), Ok(b.next_u32(&mut b_src)));
    assert_eq!(a.try_next_u64(&mut a_src), Ok(b.next_u64(&mut b_src)));
    let mut x = [0u8; 40];
    let mut y = [0u8; 40];
    assert_eq!(a.try_fill_bytes(&mut a_src, &mut x), Ok(()));
    b.fill_bytes(&mut b_src, &mut y);
    assert_eq!(x, y);
}

#[test]
fn repeated_delta_still_terminates_and_is_remembered() {
    let mut src = Scripted::new(7, 0);
    let mut g = Jitterbug::new(&mut src);
    assert_eq!(src.samples, 256);
    assert_eq!(src.relaxes, 255);
    assert_eq!(g.last_raw(), 7);
    g.harvest(&mut src);
    assert_eq!(src.samples, 512);
    assert_eq!(src.relaxes, 255 + 256);
    assert_eq!(g.last_raw(), 7);
    assert_eq!(g.index(), 0);
}

#[test]
fn zero_deltas_stall_from_the_first_sample() {
    let mut src = Scripted::new(0, 0);
    let g = Jitterbug::new(&mut src);
    assert_eq!(src.relaxes, 256);
    assert_eq!(g.last_raw(), 0);
}

#[test]
fn distinct_deltas_never_relax() {
    let mut src = Scripted::new(1, 1);
    let mut g = Jitterbug::new(&mut src);
    g.harvest(&mut src);
    assert_eq!(src.relaxes, 0);
    assert_eq!(g.last_raw(), 512);
}

#[test]
fn record_delta_reports_repeats() {
    let mut src = Scripted::new(50, 1);
    let mut g = Jitterbug::new(&mut src);
    assert_eq!(g.last_raw(), 305);
    assert!(g.record_delta(305));
    assert!(!g.record_delta(306));
    assert_eq!(g.last_raw(), 306);
}

#[test]
fn decode_le_exact_values() {
    assert_eq!(decode_le(&[]), 0);
    assert_eq!(decode_le(&[0x01, 0x02, 0x03, 0x04]), 0x0403_0201);
    assert_eq!(decode_le(&[0xff; 8]), u64::MAX);
    assert_eq!(decode_le(&[0, 0, 0, 0, 0, 0, 0, 0x80]), 1u64 << 63);
}
