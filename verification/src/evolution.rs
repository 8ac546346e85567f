//! The evolution loop.

use vstd::prelude::*;
use crate::chromosome::{fitness_of, genes_in_range, Chromosome, MAX_FITNESS};
use crate::generation::{
    is_next_generation, lemma_best_survives, lemma_range_is_kept, next_generation,
};
use crate::population::{
    find_best, fittest, lemma_last_fittest_exists, population_in_range, population_well_formed,
    POPULATION_SIZE,
};

verus! {

/// Number of generations after which the evolution stops, whatever it has
/// found.
pub const MAX_ITERATIONS: u32 = 5000;

/// Whether `population` is one with which an evolution may start: it is of
/// the fixed size, every individual stores the fitness of its genes, and all
/// genes are within range.
pub open spec fn is_initial_population(population: Seq<Chromosome>) -> bool {
    &&& population.len() == POPULATION_SIZE
    &&& population_in_range(population)
    &&& population_well_formed(population)
}

/// Whether an evolution that starts with `population` and lasts at most
/// `iterations` generations may end with `best`. It ends with the fittest
/// individual of the first generation in which that individual is perfect,
/// or else with the fittest individual of the generation reached when the
/// iterations are used up.
pub open spec fn may_evolve_to(
    population: Seq<Chromosome>,
    iterations: nat,
    best: Chromosome,
) -> bool
    decreases iterations,
{
    if iterations == 0 || fitness_of(fittest(population)@) == MAX_FITNESS {
        best == fittest(population)
    } else {
        exists|next: Seq<Chromosome>| #[trigger]
            is_next_generation(population, next) && may_evolve_to(
                next,
                (iterations - 1) as nat,
                best,
            )
    }
}

/// Whatever an evolution ends with is at least as fit as the fittest individual
/// it started with.
pub proof fn lemma_evolution_keeps_the_best(
    population: Seq<Chromosome>,
    iterations: nat,
    best: Chromosome,
)
    requires
        population.len() == POPULATION_SIZE,
        may_evolve_to(population, iterations, best),
    ensures
        fitness_of(best@) >= fitness_of(fittest(population)@),
    decreases iterations,
{
    if !(iterations == 0 || fitness_of(fittest(population)@) == MAX_FITNESS) {
        let next = choose|next: Seq<Chromosome>| #[trigger]
            is_next_generation(population, next) && may_evolve_to(
                next,
                (iterations - 1) as nat,
                best,
            );
        lemma_best_survives(population, next);
        lemma_evolution_keeps_the_best(next, (iterations - 1) as nat, best);
    }
}

/// An evolution of a population whose genes are all within range ends with an
/// individual whose genes are within range.
pub proof fn lemma_evolution_stays_in_range(
    population: Seq<Chromosome>,
    iterations: nat,
    best: Chromosome,
)
    requires
        population.len() == POPULATION_SIZE,
        population_in_range(population),
        may_evolve_to(population, iterations, best),
    ensures
        genes_in_range(best@),
    decreases iterations,
{
    if iterations == 0 || fitness_of(fittest(population)@) == MAX_FITNESS {
        lemma_last_fittest_exists(population);
    } else {
        let next = choose|next: Seq<Chromosome>| #[trigger]
            is_next_generation(population, next) && may_evolve_to(
                next,
                (iterations - 1) as nat,
                best,
            );
        lemma_range_is_kept(population, next);
        lemma_evolution_stays_in_range(next, (iterations - 1) as nat, best);
    }
}

/// An evolution of a population whose individuals all store the fitness of
/// their genes ends with an individual that does.
pub proof fn lemma_evolution_stays_well_formed(
    population: Seq<Chromosome>,
    iterations: nat,
    best: Chromosome,
)
    requires
        population.len() == POPULATION_SIZE,
        population_well_formed(population),
        may_evolve_to(population, iterations, best),
    ensures
        best.well_formed(),
    decreases iterations,
{
    if iterations == 0 || fitness_of(fittest(population)@) == MAX_FITNESS {
        lemma_last_fittest_exists(population);
    } else {
        let next = choose|next: Seq<Chromosome>| #[trigger]
            is_next_generation(population, next) && may_evolve_to(
                next,
                (iterations - 1) as nat,
                best,
            );
        lemma_evolution_stays_well_formed(next, (iterations - 1) as nat, best);
    }
}

/// Draws a whole population at random.
pub fn random_population() -> (population: [Chromosome; POPULATION_SIZE])
    ensures
        is_initial_population(population@),
{
    let mut population = [Chromosome::default(); POPULATION_SIZE];
    for i in 1..POPULATION_SIZE
        invariant
            is_initial_population(population@),
    {
        population[i] = Chromosome::default();
    }
    population
}

/// Evolves `population` for at most `iterations` generations and returns the
/// best individual of the last one. The evolution stops at the first
/// generation whose best individual has the greatest possible fitness.
pub fn evolve(population: [Chromosome; POPULATION_SIZE], iterations: u32) -> (best: Chromosome)
    ensures
        may_evolve_to(population@, iterations as nat, best),
        best.well_formed(),
        fitness_of(best@) <= MAX_FITNESS,
        fitness_of(best@) >= fitness_of(fittest(population@)@),
        population_in_range(population@) ==> genes_in_range(best@),
{
    let mut current = population;
    let ghost mut remaining: nat = iterations as nat;
    for generation in 0..iterations
        invariant
            remaining == iterations - generation,
            forall|best: Chromosome| #[trigger]
                may_evolve_to(current@, remaining, best) ==> may_evolve_to(
                    population@,
                    iterations as nat,
                    best,
                ),
    {
        let best = find_best(current);
        if best.fitness() == MAX_FITNESS {
            proof {
                assert(may_evolve_to(current@, remaining, best));
                lemma_evolution_keeps_the_best(population@, iterations as nat, best);
                if population_in_range(population@) {
                    lemma_evolution_stays_in_range(population@, iterations as nat, best);
                }
            }
            return best;
        }
        let ghost previous = current@;
        current = next_generation(current);
        proof {
            assert forall|best: Chromosome| #[trigger]
                may_evolve_to(current@, (remaining - 1) as nat, best) implies may_evolve_to(
                population@,
                iterations as nat,
                best,
            ) by {
                assert(is_next_generation(previous, current@));
                assert(may_evolve_to(previous, remaining, best));
            }
            remaining = (remaining - 1) as nat;
        }
    }
    let best = find_best(current);
    proof {
        use_type_invariant(&best);
        best.lemma_bounds();
        assert(may_evolve_to(current@, remaining, best));
        lemma_evolution_keeps_the_best(population@, iterations as nat, best);
        if population_in_range(population@) {
            lemma_evolution_stays_in_range(population@, iterations as nat, best);
        }
    }
    best
}

/// Evolves a random population for at most `MAX_ITERATIONS` generations and
/// returns the best individual found.
pub fn run() -> (best: Chromosome)
    ensures
        exists|population: Seq<Chromosome>| #[trigger]
            is_initial_population(population) && may_evolve_to(
                population,
                MAX_ITERATIONS as nat,
                best,
            ),
        best.well_formed(),
        fitness_of(best@) <= MAX_FITNESS,
        genes_in_range(best@),
{
    let population = random_population();
    let best = evolve(population, MAX_ITERATIONS);
    assert(is_initial_population(population@));
    best
}

} // verus!
