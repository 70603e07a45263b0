//! The seeded pseudo-random generator that places new tiles: a small linear
//! congruential generator.

use vstd::prelude::*;

verus! {

/// Modulus of the linear congruential generator.
pub const MODULUS: u32 = 6075;

/// Multiplier of the linear congruential generator.
pub const MULTIPLIER: u32 = 106;

/// Increment of the linear congruential generator.
pub const INCREMENT: u32 = 1283;

/// Linear congruential generator.
#[derive(Debug, Clone, Copy)]
pub struct Rnd {
    pub seed: u32,
}

/// The generator state is always reduced modulo `MODULUS`.
pub open spec fn rnd_wf(r: Rnd) -> bool {
    r.seed < 6075
}

/// The next generator state.
pub open spec fn spec_next(seed: u32) -> u32 {
    ((seed * 106 + 1283) % 6075) as u32
}

/// The tile exponent the generator draws from `seed`: `2` (a displayed 4)
/// roughly a tenth of the time, `1` (a displayed 2) otherwise.
pub open spec fn spec_move_value(seed: u32) -> u8 {
    if spec_next(seed) > 607 {
        1
    } else {
        2
    }
}

/// The empty-cell index the generator draws from `seed`, among
/// `empty_count` empty cells.
pub open spec fn spec_move_pos(seed: u32, empty_count: u8) -> u8 {
    (spec_next(seed) & (empty_count - 1) as u32) as u8
}

impl Rnd {
    /// A generator starting from `seed`.
    pub fn with_seed(seed: u32) -> (r: Rnd)
        ensures
            r.seed == seed % 6075,
            rnd_wf(r),
    {
        Rnd { seed: seed % MODULUS }
    }

    /// Step the generator and return the new state.
    pub fn next(&mut self) -> (n: u32)
        requires
            rnd_wf(*old(self)),
        ensures
            rnd_wf(*final(self)),
            n == spec_next(old(self).seed),
            final(self).seed == n,
    {
        let next = (self.seed * MULTIPLIER + INCREMENT) % MODULUS;
        self.seed = next;
        next
    }

    /// Draw the next tile placement: a tile exponent (1 or 2) and an index
    /// into the empty cells.
    pub fn next_move(&mut self, empty_count: u8) -> (m: (u8, u8))
        requires
            rnd_wf(*old(self)),
            empty_count >= 1,
        ensures
            rnd_wf(*final(self)),
            final(self).seed == spec_next(old(self).seed),
            m.0 == spec_move_value(old(self).seed),
            m.1 == spec_move_pos(old(self).seed, empty_count),
            m.0 == 1 || m.0 == 2,
            m.1 < empty_count,
    {
        let next = self.next();
        let value: u8 = if next > (MODULUS - 1) / 10 {
            1
        } else {
            2
        };
        let mask: u32 = (empty_count - 1) as u32;
        let masked = next & mask;
        proof {
            assert(masked <= mask) by (bit_vector)
                requires
                    masked == next & mask,
            ;
        }
        (value, masked as u8)
    }
}

} // verus!
