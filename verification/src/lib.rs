//! Evolution of small feed-forward neural networks by a population-based
//! genetic algorithm: genomes encode a network topology and its weights,
//! a population is scored by an externally supplied fitness judge, and the
//! next generation is produced by fitness-proportionate selection and
//! mutation.
//!
//! Every weight and every score is carried as the 64-bit pattern of an
//! IEEE-754 double: this crate stores, moves and serialises those patterns
//! exactly, and leaves floating-point arithmetic to the embedding host.

pub mod activation;
pub mod codec;
pub mod genome;
pub mod network;
pub mod population;
mod rng;
