//! Producing the next generation: elitism, crossover and newcomers.

use vstd::prelude::*;
use crate::chromosome::{crossover, fitness_of, genes_in_range, make_offspring, Chromosome};
use crate::population::{
    fittest, lemma_last_fittest_exists, population_in_range, population_well_formed,
    POPULATION_SIZE,
};
use crate::ranking::{
    lemma_sorted_ends_with_fittest, lemma_sorted_is_permutation, lemma_sorted_member,
    sort_by_fitness, sorted_by_fitness,
};

verus! {

/// Number of individuals that survive into the next generation and breed.
/// It is even, so that the elite splits into couples, and the elite and its
/// offspring together leave room in the population for newcomers.
pub const ELITE: usize = 6;

/// The elite of a population: its `ELITE` fittest individuals, in ascending
/// order of fitness.
pub open spec fn elite_of(population: Seq<Chromosome>) -> Seq<Chromosome> {
    sorted_by_fitness(population).skip(population.len() - ELITE)
}

/// The position, within the elite, of the individual with which the one at
/// `at` forms a couple: couples are formed by neighbours, starting at zero.
pub open spec fn partner(at: int) -> int {
    if at % 2 == 0 {
        at + 1
    } else {
        at - 1
    }
}

/// Whether `next` is a generation that may follow `population`. Its first
/// `ELITE` individuals are the elite of `population`. The next `ELITE` are the
/// elite's offspring: each elite individual has one child with its partner, of
/// which it is the first parent, and the child stands `ELITE` places after it.
/// All others are newcomers, of which only the range of their genes is known.
/// Every individual stores the fitness of its genes.
pub open spec fn is_next_generation(population: Seq<Chromosome>, next: Seq<Chromosome>) -> bool {
    &&& next.len() == population.len()
    &&& next.take(ELITE as int) == elite_of(population)
    &&& forall|i: int|
        0 <= i < ELITE ==> (#[trigger] next[ELITE + i])@ == crossover(
            elite_of(population)[i]@,
            elite_of(population)[partner(i)]@,
        )
    &&& forall|i: int| 2 * ELITE <= i < next.len() ==> genes_in_range(#[trigger] next[i]@)
    &&& population_well_formed(next)
}

/// Elitism never loses the best: the fittest individual of a population is the
/// last of the elite of the generation that follows, whose own fittest
/// individual is therefore at least as fit.
pub proof fn lemma_best_survives(population: Seq<Chromosome>, next: Seq<Chromosome>)
    requires
        population.len() >= ELITE,
        is_next_generation(population, next),
    ensures
        next[ELITE - 1] == fittest(population),
        fitness_of(fittest(next)@) >= fitness_of(fittest(population)@),
{
    lemma_sorted_is_permutation(population);
    lemma_sorted_ends_with_fittest(population);
    assert(next[ELITE - 1] == next.take(ELITE as int)[ELITE - 1]);
    lemma_last_fittest_exists(next);
}

/// A generation that follows a population whose genes are all within range
/// has all its genes within range.
pub proof fn lemma_range_is_kept(population: Seq<Chromosome>, next: Seq<Chromosome>)
    requires
        population.len() >= ELITE,
        is_next_generation(population, next),
        population_in_range(population),
    ensures
        population_in_range(next),
{
    let elite = elite_of(population);
    lemma_sorted_is_permutation(population);
    assert forall|i: int| 0 <= i < ELITE implies genes_in_range(#[trigger] elite[i]@) by {
        lemma_sorted_member(population, population.len() - ELITE + i);
    }
    assert forall|i: int| 0 <= i < next.len() implies genes_in_range(#[trigger] next[i]@) by {
        if i < ELITE {
            assert(next[i] == next.take(ELITE as int)[i]);
        } else if i < 2 * ELITE {
            let of = i - ELITE;
            assert(next[i] == next[ELITE + of]);
            elite[of].lemma_bounds();
            elite[partner(of)].lemma_bounds();
            assert(genes_in_range(elite[partner(of)]@));
        }
    }
}

/// Produces the next generation: the elite of `population`, followed by the
/// elite's offspring, followed by newcomers drawn at random.
pub fn next_generation(
    population: [Chromosome; POPULATION_SIZE],
) -> (next: [Chromosome; POPULATION_SIZE])
    ensures
        is_next_generation(population@, next@),
        population_in_range(population@) ==> population_in_range(next@),
        next@[ELITE - 1] == fittest(population@),
        fitness_of(fittest(next@)@) >= fitness_of(fittest(population@)@),
{
    let mut sorted = population;
    sort_by_fitness(&mut sorted);
    let ghost elite = elite_of(population@);
    let start: usize = POPULATION_SIZE - ELITE;
    proof {
        lemma_sorted_is_permutation(population@);
    }

    let mut next = sorted;
    for i in 0..ELITE
        invariant
            start == POPULATION_SIZE - ELITE,
            sorted@ == sorted_by_fitness(population@),
            elite == elite_of(population@),
            elite.len() == ELITE,
            forall|j: int| 0 <= j < i ==> next@[j] == elite[j],
            forall|j: int| 0 <= j < i ==> (#[trigger] next@[j]).well_formed(),
    {
        let survivor = sorted[start + i];
        proof {
            use_type_invariant(&survivor);
        }
        next[i] = survivor;
    }

    let mut i: usize = 0;
    while i < ELITE
        invariant
            i <= ELITE,
            i % 2 == 0,
            elite.len() == ELITE,
            forall|j: int| 0 <= j < ELITE ==> next@[j] == elite[j],
            forall|j: int| 0 <= j < ELITE + i ==> (#[trigger] next@[j]).well_formed(),
            forall|j: int|
                0 <= j < i ==> (#[trigger] next@[ELITE + j])@ == crossover(
                    elite[j]@,
                    elite[partner(j)]@,
                ),
        decreases ELITE - i,
    {
        let mom = next[i];
        let dad = next[i + 1];
        next[ELITE + i] = make_offspring(mom, dad);
        next[ELITE + i + 1] = make_offspring(dad, mom);
        i += 2;
    }

    for i in (2 * ELITE)..POPULATION_SIZE
        invariant
            elite.len() == ELITE,
            forall|j: int| 0 <= j < ELITE ==> next@[j] == elite[j],
            forall|j: int| 0 <= j < i ==> (#[trigger] next@[j]).well_formed(),
            forall|j: int| 2 * ELITE <= j < i ==> genes_in_range(#[trigger] next@[j]@),
            forall|j: int|
                0 <= j < ELITE ==> (#[trigger] next@[ELITE + j])@ == crossover(
                    elite[j]@,
                    elite[partner(j)]@,
                ),
    {
        next[i] = Chromosome::default();
    }
    proof {
        assert(next@.take(ELITE as int) =~= elite);
        lemma_best_survives(population@, next@);
        if population_in_range(population@) {
            lemma_range_is_kept(population@, next@);
        }
    }
    next
}

} // verus!
