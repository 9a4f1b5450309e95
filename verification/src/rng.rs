//! The seeded generator behind every random choice of the builders.
use vstd::prelude::*;

verus! {

/// A 64-bit xorshift generator.
#[derive(Clone, Copy)]
pub struct Rng(pub u64);

/// The state that follows `x`.
pub open spec fn xorshift(x: u64) -> u64 {
    let a = x ^ (x << 13);
    let b = a ^ (a >> 7);
    b ^ (b << 17)
}

impl Rng {
    /// Starts the generator; the lowest bit is set so that the state is not zero.
    pub fn new(seed: u64) -> (r: Self)
        ensures
            r.0 == seed | 1,
            r.0 != 0,
    {
        assert(seed | 1 != 0) by (bit_vector);
        Rng(seed | 1)
    }

    /// Advances the generator and returns its new state.
    pub fn next(&mut self) -> (x: u64)
        ensures
            final(self).0 == xorshift(old(self).0),
            x == final(self).0,
    {
        let mut x: u64 = self.0;
        x = x ^ (x << 13);
        x = x ^ (x >> 7);
        x = x ^ (x << 17);
        self.0 = x;
        x
    }

    /// A number below `n`.
    pub fn range(&mut self, n: usize) -> (k: usize)
        requires
            n > 0,
        ensures
            final(self).0 == xorshift(old(self).0),
            k == (xorshift(old(self).0) as usize) % n,
            k < n,
    {
        (self.next() as usize) % n
    }
}

/// A state that is not zero is never followed by zero.
pub proof fn law_never_zero(x: u64)
    requires
        x != 0,
    ensures
        xorshift(x) != 0,
{
    assert(x != 0 ==> x ^ (x << 13) != 0) by (bit_vector);
    let a = x ^ (x << 13);
    assert(a != 0 ==> a ^ (a >> 7) != 0) by (bit_vector);
    let b = a ^ (a >> 7);
    assert(b != 0 ==> b ^ (b << 17) != 0) by (bit_vector);
}

/// A state is followed by itself exclusive-or shifted left by 13, that exclusive-or shifted right by 7, and that
/// exclusive-or shifted left by 17.
pub proof fn law_xorshift(x: u64, a: u64, b: u64)
    requires
        a == x ^ (x << 13u64),
        b == a ^ (a >> 7u64),
    ensures
        xorshift(x) == b ^ (b << 17u64),
{
}

} // verus!
