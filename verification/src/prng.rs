//! Deterministic pseudo-random generator used to draw masks and sharing
//! coefficients.
//!
//! The core is pure: it never reads an entropy source itself. The caller
//! seeds the generator once (from whatever entropy it trusts) and the
//! engines draw ring elements from it. Every drawn value is proved to lie
//! in the ring; nothing else is promised of the stream.

use vstd::prelude::*;
use crate::ring::{in_ring, valid_modulus};

verus! {

/// A linear congruential generator over 64-bit state.
pub struct Prng {
    state: u64,
}

impl Prng {
    /// Starts the stream at a caller-chosen seed.
    pub fn from_seed(seed: u64) -> Prng {
        Prng { state: seed }
    }

    /// Advances the state and returns its next raw 64-bit value.
    pub fn next_u64(&mut self) -> u64 {
        let wide: u128 = (self.state as u128) * 6364136223846793005u128 + 1442695040888963407u128;
        let next: u64 = (wide % 0x1_0000_0000_0000_0000u128) as u64;
        self.state = next;
        next
    }

    /// Draws one element of the ring `Z_m`.
    pub fn next_ring(&mut self, m: i64) -> (r: i64)
        requires
            valid_modulus(m as int),
        ensures
            in_ring(r as int, m as int),
    {
        let raw: u64 = self.next_u64();
        (raw % (m as u64)) as i64
    }
}

} // verus!
