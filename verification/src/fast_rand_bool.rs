//! A fast per-thread source of fair coin flips: one random 64-bit word is
//! drawn at a time and its bits are handed out one by one. Orientation
//! tie-breaks in the sorting and compaction phases use these coins; no
//! contract depends on which way a coin lands.

use vstd::prelude::*;

verus! {

/// Relies on rand::random: a fresh pseudo-random word; nothing is promised
/// of its value.
#[verifier::external_body]
pub(crate) fn rand_u64() -> u64 {
    rand::random::<u64>()
}

/// A buffer of random bits served as booleans.
pub struct FastRandBool {
    bits: u64,
    remaining: u8,
}

impl FastRandBool {
    pub fn new() -> (r: Self) {
        FastRandBool { bits: 0, remaining: 0 }
    }

    /// One fair coin flip. Callers must hold for either outcome.
    pub fn get_randbool(&mut self) -> bool {
        if self.remaining == 0 {
            self.bits = rand_u64();
            self.remaining = 64;
        }
        let b = self.bits % 2 == 1;
        self.bits = self.bits / 2;
        self.remaining = self.remaining - 1;
        b
    }
}

} // verus!
