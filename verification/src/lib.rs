//! Neuroevolution of augmenting topologies, in fixed-point arithmetic.
//!
//! A [`network::Network`] is a genome: a layered graph of nodes and weighted
//! links that grows by structural mutations and is evaluated by a forward
//! pass. A [`neat::NEAT`] is a population of genomes that is scored, ranked,
//! divided into species and mutated, one generation at a time.
//!
//! Weights, node values, scores, chances and distances are integers that
//! count 1/65536ths, so that everything the engine computes is exact and the
//! same on every machine.

pub mod breeding;
pub mod cycles;
pub mod distance;
pub mod error;
pub mod evaluate;
pub mod fixed;
pub mod forward;
pub mod heredity;
pub mod mutation;
pub mod neat;
pub mod network;
pub mod node;
pub mod order;
pub mod population;
pub mod rng;
pub mod select;
pub mod species;
pub mod topology;
