//! Core of a NEAT-style neuroevolution search: genomes as layered
//! feed-forward graphs, compatibility-distance speciation, fitness sharing,
//! stagnation tracking and quota-based reproduction.
//!
//! All fractional quantities (connection weights, probabilities, distance
//! coefficients) are fixed-point integers in units of 1/1000, so that the
//! arithmetic of the pipeline can be stated and proved exactly.

pub mod network;
pub mod population;
pub mod rng;
pub mod settings;

use vstd::prelude::*;

verus! {

/// Fixed-point scale: the integer 1000 stands for the real number 1.0.
pub const SCALE: u64 = 1000;

} // verus!
