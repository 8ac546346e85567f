//! A small genetic algorithm, verified with Verus.
//!
//! A population of fixed-length chromosomes is evolved toward the pattern in
//! which every gene equals its own position. Each generation keeps an elite,
//! breeds it by single-point crossover and fills the remaining slots with
//! random individuals.

pub mod chromosome;
pub mod entropy;
pub mod evolution;
pub mod generation;
pub mod population;
pub mod ranking;

pub use chromosome::{
    fitness, make_offspring, Chromosome, CHROMOSOME_SIZE, MAX_FITNESS, MAX_GENE, MIDDLE,
};
pub use evolution::{evolve, random_population, run, MAX_ITERATIONS};
pub use generation::{next_generation, ELITE};
pub use population::{find_best, POPULATION_SIZE};
pub use ranking::sort_by_fitness;
