//! Algorithmic chemistry: a bounded soup of lambda terms that collide and react,
//! generators that seed it, and measures of the population.

pub mod term;
pub mod rng;
pub mod hex;
pub mod config;
pub mod soup;
pub mod generators;
pub mod analysis;
pub mod errors;
