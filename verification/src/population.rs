//! Populations and the selection of their best individual.

use vstd::prelude::*;
use crate::chromosome::{fitness_of, genes_in_range, Chromosome};

verus! {

/// Number of individuals in a population.
pub const POPULATION_SIZE: usize = 40;

/// Whether every gene of every individual lies in the range from which random
/// genes are drawn.
pub open spec fn population_in_range(population: Seq<Chromosome>) -> bool {
    forall|i: int| 0 <= i < population.len() ==> genes_in_range(#[trigger] population[i]@)
}

/// Whether every individual stores the fitness of its own genes.
pub open spec fn population_well_formed(population: Seq<Chromosome>) -> bool {
    forall|i: int| 0 <= i < population.len() ==> (#[trigger] population[i]).well_formed()
}

/// Whether `at` is the position of the last individual of `population` that
/// no other individual surpasses in fitness.
pub open spec fn is_last_fittest(population: Seq<Chromosome>, at: int) -> bool {
    &&& 0 <= at < population.len()
    &&& forall|i: int|
        0 <= i < population.len() ==> fitness_of(#[trigger] population[i]@) <= fitness_of(
            population[at]@,
        )
    &&& forall|i: int|
        at < i < population.len() ==> fitness_of(#[trigger] population[i]@) < fitness_of(
            population[at]@,
        )
}

/// The position of the last individual of maximal fitness.
pub open spec fn last_fittest(population: Seq<Chromosome>) -> int {
    choose|at: int| is_last_fittest(population, at)
}

/// The individual of greatest fitness; among several of that fitness, the one
/// that stands last.
pub open spec fn fittest(population: Seq<Chromosome>) -> Chromosome {
    population[last_fittest(population)]
}

/// At most one position is that of the last fittest individual.
pub proof fn lemma_last_fittest_unique(population: Seq<Chromosome>, at: int)
    requires
        is_last_fittest(population, at),
    ensures
        last_fittest(population) == at,
{
    let other = last_fittest(population);
    if other < at {
        assert(fitness_of(population[at]@) < fitness_of(population[other]@));
    } else if at < other {
        assert(fitness_of(population[other]@) < fitness_of(population[at]@));
    }
}

/// Every population that is not empty has a last fittest individual.
pub proof fn lemma_last_fittest_exists(population: Seq<Chromosome>)
    requires
        population.len() > 0,
    ensures
        is_last_fittest(population, last_fittest(population)),
    decreases population.len(),
{
    let last = population.len() - 1;
    if population.len() == 1 {
        assert(is_last_fittest(population, 0));
    } else {
        let front = population.drop_last();
        lemma_last_fittest_exists(front);
        let at = last_fittest(front);
        if fitness_of(population[last]@) >= fitness_of(front[at]@) {
            assert forall|i: int| 0 <= i < population.len() implies fitness_of(
                #[trigger] population[i]@,
            ) <= fitness_of(population[last]@) by {
                if i < last {
                    assert(population[i] == front[i]);
                }
            }
            assert(is_last_fittest(population, last));
        } else {
            assert forall|i: int| 0 <= i < population.len() implies fitness_of(
                #[trigger] population[i]@,
            ) <= fitness_of(population[at]@) by {
                if i < last {
                    assert(population[i] == front[i]);
                }
            }
            assert forall|i: int| at < i < population.len() implies fitness_of(
                #[trigger] population[i]@,
            ) < fitness_of(population[at]@) by {
                if i < last {
                    assert(population[i] == front[i]);
                }
            }
            assert(is_last_fittest(population, at));
        }
    }
}

/// Returns the individual of greatest fitness; among several of that fitness,
/// the one that stands last.
pub fn find_best(population: [Chromosome; POPULATION_SIZE]) -> (best: Chromosome)
    ensures
        is_last_fittest(population@, last_fittest(population@)),
        best == fittest(population@),
        forall|i: int|
            0 <= i < POPULATION_SIZE ==> fitness_of(#[trigger] population@[i]@) <= fitness_of(
                best@,
            ),
{
    let mut best = population[0];
    let ghost mut at: int = 0;
    for i in 1..POPULATION_SIZE
        invariant
            is_last_fittest(population@.take(i as int), at),
            best == population@[at],
    {
        let candidate = population[i];
        if candidate.fitness() >= best.fitness() {
            best = candidate;
            proof {
                at = i as int;
            }
        }
    }
    proof {
        assert(population@.take(POPULATION_SIZE as int) =~= population@);
        lemma_last_fittest_unique(population@, at);
    }
    best
}

} // verus!
