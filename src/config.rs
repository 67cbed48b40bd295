//! Configuration of the reaction engine and of the generators.

use vstd::prelude::*;
use crate::rng::Rng;
use crate::generators::Standardization;

verus! {

/// A seed: fixed bytes for a reproducible run, or `None` for one drawn from the system.
#[derive(Clone, Copy, Debug, PartialEq, Eq)]
pub struct ConfigSeed(pub Option<[u8; 32]>);

/// Relies on `RandomState::new`, whose keys each process draws from system entropy.
#[verifier::external_body]
fn fresh_random_state() -> (r: std::collections::hash_map::RandomState) {
    std::collections::hash_map::RandomState::new()
}

/// Relies on `BuildHasher::hash_one`: a hash of one byte under the state's keys;
/// nothing is known of the value.
#[verifier::external_body]
fn hash_byte(s: &std::collections::hash_map::RandomState) -> (r: u64) {
    std::hash::BuildHasher::hash_one(s, 0u8)
}

/// A number drawn from system entropy.
fn system_entropy() -> (r: u64) {
    let s = fresh_random_state();
    hash_byte(&s)
}

impl ConfigSeed {
    /// The pseudorandom source this seed starts.
    pub fn rng(&self) -> (r: Rng)
        ensures
            self.0 is Some ==> r.state() == crate::rng::fold_seed(self.0->Some_0@),
    {
        match self.0 {
            Some(bytes) => Rng::from_seed(bytes),
            None => Rng::from_state(system_entropy()),
        }
    }
}

pub const DEFAULT_REDUCTION_LIMIT: usize = 100_000;

pub const DEFAULT_DEPTH_LIMIT: u32 = 10_000;

pub const DEFAULT_CAPACITY: usize = 10_000;

/// Limits of the reaction engine and the seed of its random source.
#[derive(Clone, Copy, Debug, PartialEq, Eq)]
pub struct Reactor {
    /// Most beta reductions one reaction may take; must be positive.
    pub reduction_limit: usize,
    /// Deepest nesting of abstractions a product may have.
    pub depth_limit: u32,
    /// Most members the soup grows to.
    pub size: usize,
    pub seed: ConfigSeed,
}

impl Reactor {
    pub fn new() -> (r: Reactor)
        ensures
            r.reduction_limit == DEFAULT_REDUCTION_LIMIT,
            r.depth_limit == DEFAULT_DEPTH_LIMIT,
            r.size == DEFAULT_CAPACITY,
            r.seed.0 is None,
    {
        Reactor {
            reduction_limit: DEFAULT_REDUCTION_LIMIT,
            depth_limit: DEFAULT_DEPTH_LIMIT,
            size: DEFAULT_CAPACITY,
            seed: ConfigSeed(None),
        }
    }
}

/// Settings of the binary-tree generator. Probabilities are in parts per million.
#[derive(Clone, Copy, Debug, PartialEq, Eq)]
pub struct BTreeGen {
    /// Number of nodes of each generated tree.
    pub size: u32,
    pub freevar_generation_probability: u32,
    pub n_max_free_vars: u32,
    pub standardization: Standardization,
    pub seed: ConfigSeed,
}

/// Settings of the depth-bounded generator. Each range gives the probability,
/// in parts per million, at depth 0 and at `max_depth`.
#[derive(Clone, Copy, Debug, PartialEq, Eq)]
pub struct FontanaGen {
    pub abstraction_prob_range: (u32, u32),
    pub application_prob_range: (u32, u32),
    pub max_depth: u32,
    pub n_max_free_vars: u32,
    pub seed: ConfigSeed,
}

} // verus!
