//! Generation parameters.

use vstd::prelude::*;

verus! {

/// Immutable generation parameters, owned by one generator.
///
/// The collision-probability bound is held in parts per million (so the
/// default of 250000 stands for a probability of 0.25), which keeps the
/// generator's birthday-bound arithmetic in integers.
pub struct IdConfig {
    pub prefix: String,
    pub min_hash_length: usize,
    pub max_hash_length: usize,
    /// Highest accepted collision probability, in parts per million.
    pub max_collision_prob: u32,
}

impl IdConfig {
    /// A configuration with the default lengths (3 to 8) and collision
    /// bound (250000 ppm, i.e. 0.25).
    pub fn new(prefix: &str) -> (r: Self)
        ensures
            r.prefix@ == prefix@,
            r.min_hash_length == 3,
            r.max_hash_length == 8,
            r.max_collision_prob == 250000,
    {
        IdConfig {
            prefix: prefix.to_owned(),
            min_hash_length: 3,
            max_hash_length: 8,
            max_collision_prob: 250000,
        }
    }

    /// This configuration with another minimum hash length.
    pub fn min_hash_length(self, len: usize) -> (r: Self)
        ensures
            r.prefix == self.prefix,
            r.min_hash_length == len,
            r.max_hash_length == self.max_hash_length,
            r.max_collision_prob == self.max_collision_prob,
    {
        let mut c = self;
        c.min_hash_length = len;
        c
    }

    /// This configuration with another maximum hash length.
    pub fn max_hash_length(self, len: usize) -> (r: Self)
        ensures
            r.prefix == self.prefix,
            r.min_hash_length == self.min_hash_length,
            r.max_hash_length == len,
            r.max_collision_prob == self.max_collision_prob,
    {
        let mut c = self;
        c.max_hash_length = len;
        c
    }

    /// This configuration with another collision-probability bound, given
    /// in parts per million of a probability in (0, 1).
    pub fn max_collision_prob(self, prob_ppm: u32) -> (r: Self)
        requires
            0 < prob_ppm < 1000000,
        ensures
            r.prefix == self.prefix,
            r.min_hash_length == self.min_hash_length,
            r.max_hash_length == self.max_hash_length,
            r.max_collision_prob == prob_ppm,
    {
        let mut c = self;
        c.max_collision_prob = prob_ppm;
        c
    }
}

} // verus!
