//! The random bits from which the level of each node is drawn.
use crate::consts::HNSW_SENTINEL;
use crate::rng::{xorshift, Rng};
use rayon::prelude::{IntoParallelIterator, ParallelIterator};
use vstd::prelude::*;

verus! {

/// Spreads the seeds of neighbouring nodes apart.
pub const LEVEL_STEP: u64 = 0x9E37_79B9_7F4A_7C15;

/// The 53 random bits of node `i`.
pub open spec fn level_bits(seed: u64, i: int) -> u64 {
    xorshift(seed.wrapping_add(i as u64).wrapping_mul(LEVEL_STEP) | 1) >> 11
}

/// The 53 random bits of node `i`.
pub fn level_draw(seed: u64, i: usize) -> (bits: u64)
    ensures
        bits == level_bits(seed, i as int),
        bits < 0x20_0000_0000_0000,
{
    let mut rng: Rng = Rng::new(seed.wrapping_add(i as u64).wrapping_mul(LEVEL_STEP));
    let x: u64 = rng.next();
    assert(x >> 11 < 0x20_0000_0000_0000) by (bit_vector);
    x >> 11
}

/// Calls rayon's parallel `map` over the range `0..n` and collects into a `Vec`. The contract claims that
/// the vector has one item for each index, in the order of the range, and that each is what the mapped
/// function returns for its index.
#[verifier::external_body]
fn draw_in_parallel(n: usize, seed: u64) -> (bits: Vec<u64>)
    requires
        n < HNSW_SENTINEL,
    ensures
        bits@.len() == n,
        forall|i: int| 0 <= i < n ==> #[trigger] bits@[i] == level_bits(seed, i),
{
    (0..n).into_par_iter().map(|i| level_draw(seed, i)).collect()
}

/// The random bits of every node below `n`.
pub fn level_draws(n: usize, seed: u64) -> (bits: Vec<u64>)
    requires
        n < HNSW_SENTINEL,
    ensures
        bits@ == Seq::new(n as nat, |i: int| level_bits(seed, i)),
{
    let bits: Vec<u64> = draw_in_parallel(n, seed);
    assert(bits@ =~= Seq::new(n as nat, |i: int| level_bits(seed, i)));
    bits
}

/// The bits of a node are the upper 53 of the number that the generator gives from the seed, plus the node,
/// times `0x9E3779B97F4A7C15`, made odd.
pub proof fn law_level_bits(seed: u64, i: u64)
    ensures
        level_bits(seed, i as int) == xorshift(
            (((seed + i) % 0x1_0000_0000_0000_0000 * 0x9E37_79B9_7F4A_7C15) % 0x1_0000_0000_0000_0000) as u64
                | 1u64,
        ) >> 11u64,
{
    let a = seed.wrapping_add(i);
    assert(a == (seed + i) % 0x1_0000_0000_0000_0000);
    assert(a.wrapping_mul(LEVEL_STEP) == (a * LEVEL_STEP) % 0x1_0000_0000_0000_0000);
}

} // verus!
