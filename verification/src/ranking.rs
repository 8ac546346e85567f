//! Ordering a population by fitness.

use vstd::prelude::*;
use crate::chromosome::{fitness_of, Chromosome, MAX_FITNESS};
use crate::population::{fittest, last_fittest, lemma_last_fittest_exists, POPULATION_SIZE};

verus! {

/// The test that an individual has the given fitness.
pub open spec fn has_fitness(fitness: nat) -> spec_fn(Chromosome) -> bool {
    |c: Chromosome| fitness_of(c@) == fitness
}

/// The individuals of `population` whose fitness is `fitness`, in the order in
/// which they stand in `population`.
pub open spec fn with_fitness(population: Seq<Chromosome>, fitness: nat) -> Seq<Chromosome> {
    population.filter(has_fitness(fitness))
}

/// The individuals of fitness below `bound` in ascending order of fitness,
/// those of equal fitness in the order in which they stand in `population`.
pub open spec fn ranked_below(population: Seq<Chromosome>, bound: nat) -> Seq<Chromosome>
    decreases bound,
{
    if bound == 0 {
        Seq::empty()
    } else {
        ranked_below(population, (bound - 1) as nat) + with_fitness(
            population,
            (bound - 1) as nat,
        )
    }
}

/// The population in ascending order of fitness. Individuals of equal fitness
/// keep the order in which they stood.
pub open spec fn sorted_by_fitness(population: Seq<Chromosome>) -> Seq<Chromosome> {
    ranked_below(population, (MAX_FITNESS + 1) as nat)
}

/// Whether no individual of `population` is fitter than one that stands after
/// it.
pub open spec fn is_ascending(population: Seq<Chromosome>) -> bool {
    forall|first: int, second: int|
        0 <= first <= second < population.len() ==> fitness_of(#[trigger] population[first]@)
            <= fitness_of(#[trigger] population[second]@)
}

/// Sorts the population in ascending order of fitness, keeping individuals of
/// equal fitness in their order.
pub fn sort_by_fitness(population: &mut [Chromosome; POPULATION_SIZE])
    ensures
        final(population)@ == sorted_by_fitness(old(population)@),
{
    let ghost before = population@;
    let mut sorted: Vec<Chromosome> = Vec::new();
    let mut fitness: u8 = 0;
    while fitness <= MAX_FITNESS
        invariant
            fitness <= MAX_FITNESS + 1,
            population@ == before,
            sorted@ == ranked_below(before, fitness as nat),
        decreases MAX_FITNESS + 1 - fitness,
    {
        let ghost lower = sorted@;
        for i in 0..POPULATION_SIZE
            invariant
                population@ == before,
                sorted@ == lower + with_fitness(before.take(i as int), fitness as nat),
        {
            let candidate = population[i];
            proof {
                before.take(i as int).lemma_filter_push(candidate, has_fitness(fitness as nat));
                assert(before.take(i as int).push(candidate) =~= before.take(i + 1));
            }
            if candidate.fitness() == fitness {
                sorted.push(candidate);
            }
        }
        assert(before.take(POPULATION_SIZE as int) =~= before);
        fitness += 1;
    }
    proof {
        lemma_sorted_is_permutation(before);
    }
    for i in 0..POPULATION_SIZE
        invariant
            sorted@ == sorted_by_fitness(before),
            sorted@.len() == POPULATION_SIZE,
            forall|j: int| 0 <= j < i ==> population@[j] == sorted@[j],
    {
        population[i] = sorted[i];
    }
}

/// Nothing is ranked in an empty population.
proof fn lemma_ranked_of_empty(bound: nat)
    ensures
        ranked_below(Seq::<Chromosome>::empty(), bound) == Seq::<Chromosome>::empty(),
    decreases bound,
{
    reveal(Seq::filter);
    if bound > 0 {
        lemma_ranked_of_empty((bound - 1) as nat);
        assert(ranked_below(Seq::<Chromosome>::empty(), bound) =~= Seq::<Chromosome>::empty());
    }
}

/// Appending an individual to a population adds it to the ranking when its
/// fitness is below the bound, and leaves the ranking's members unchanged
/// otherwise.
proof fn lemma_ranked_push(population: Seq<Chromosome>, last: Chromosome, bound: nat)
    ensures
        ranked_below(population.push(last), bound).to_multiset() == if fitness_of(last@) < bound {
            ranked_below(population, bound).to_multiset().insert(last)
        } else {
            ranked_below(population, bound).to_multiset()
        },
    decreases bound,
{
    if bound > 0 {
        let below = (bound - 1) as nat;
        lemma_ranked_push(population, last, below);
        population.lemma_filter_push(last, has_fitness(below));
        vstd::seq_lib::lemma_multiset_commutative(
            ranked_below(population.push(last), below),
            with_fitness(population.push(last), below),
        );
        vstd::seq_lib::lemma_multiset_commutative(
            ranked_below(population, below),
            with_fitness(population, below),
        );
        vstd::seq_lib::to_multiset_build(with_fitness(population, below), last);
        assert(ranked_below(population.push(last), bound).to_multiset() =~= if fitness_of(last@)
            < bound {
            ranked_below(population, bound).to_multiset().insert(last)
        } else {
            ranked_below(population, bound).to_multiset()
        });
    }
}

/// Sorting rearranges: every individual occurs in the sorted population as
/// often as in the population itself.
pub proof fn lemma_sorted_is_permutation(population: Seq<Chromosome>)
    ensures
        sorted_by_fitness(population).to_multiset() == population.to_multiset(),
        sorted_by_fitness(population).len() == population.len(),
    decreases population.len(),
{
    let bound = (MAX_FITNESS + 1) as nat;
    if population.len() == 0 {
        assert(population =~= Seq::empty());
        lemma_ranked_of_empty(bound);
    } else {
        let front = population.drop_last();
        let last = population.last();
        assert(front.push(last) =~= population);
        lemma_sorted_is_permutation(front);
        lemma_ranked_push(front, last, bound);
        last.lemma_bounds();
        vstd::seq_lib::to_multiset_build(front, last);
    }
    sorted_by_fitness(population).to_multiset_ensures();
    population.to_multiset_ensures();
}

/// Every member of the sorted population is a member of the population.
pub proof fn lemma_sorted_member(population: Seq<Chromosome>, at: int)
    requires
        0 <= at < population.len(),
    ensures
        population.contains(sorted_by_fitness(population)[at]),
{
    let sorted = sorted_by_fitness(population);
    lemma_sorted_is_permutation(population);
    assert(sorted.contains(sorted[at]));
    vstd::seq_lib::to_multiset_contains(sorted, sorted[at]);
    vstd::seq_lib::to_multiset_contains(population, sorted[at]);
}

/// Every ranked individual has a fitness below the bound of the ranking.
proof fn lemma_ranked_member(population: Seq<Chromosome>, bound: nat, at: int)
    requires
        0 <= at < ranked_below(population, bound).len(),
    ensures
        fitness_of(ranked_below(population, bound)[at]@) < bound,
    decreases bound,
{
    let below = (bound - 1) as nat;
    let lower = ranked_below(population, below);
    if at < lower.len() {
        lemma_ranked_member(population, below, at);
    } else {
        population.lemma_filter_pred(has_fitness(below), at - lower.len());
    }
}

/// In a ranking, no individual is fitter than one that stands after it.
proof fn lemma_ranked_is_ordered(population: Seq<Chromosome>, bound: nat, first: int, second: int)
    requires
        0 <= first <= second < ranked_below(population, bound).len(),
    ensures
        fitness_of(ranked_below(population, bound)[first]@) <= fitness_of(
            ranked_below(population, bound)[second]@,
        ),
    decreases bound,
{
    let below = (bound - 1) as nat;
    let lower = ranked_below(population, below);
    if second < lower.len() {
        lemma_ranked_is_ordered(population, below, first, second);
    } else {
        population.lemma_filter_pred(has_fitness(below), second - lower.len());
        if first < lower.len() {
            lemma_ranked_member(population, below, first);
        } else {
            population.lemma_filter_pred(has_fitness(below), first - lower.len());
        }
    }
}

/// The sorted population ascends in fitness.
pub proof fn lemma_sorted_is_ordered(population: Seq<Chromosome>)
    ensures
        is_ascending(sorted_by_fitness(population)),
{
    let sorted = sorted_by_fitness(population);
    assert forall|first: int, second: int| 0 <= first <= second < sorted.len() implies fitness_of(
        #[trigger] sorted[first]@,
    ) <= fitness_of(#[trigger] sorted[second]@) by {
        lemma_ranked_is_ordered(population, (MAX_FITNESS + 1) as nat, first, second);
    }
}

/// Where no individual has a given fitness, selecting by it selects nothing.
proof fn lemma_with_fitness_of_none(population: Seq<Chromosome>, fitness: nat)
    requires
        forall|i: int| 0 <= i < population.len() ==> fitness_of(#[trigger] population[i]@) != fitness,
    ensures
        with_fitness(population, fitness) == Seq::<Chromosome>::empty(),
    decreases population.len(),
{
    reveal(Seq::filter);
    if population.len() > 0 {
        let front = population.drop_last();
        assert forall|i: int| 0 <= i < front.len() implies fitness_of(#[trigger] front[i]@)
            != fitness by {
            assert(front[i] == population[i]);
        }
        lemma_with_fitness_of_none(front, fitness);
        assert(fitness_of(population[population.len() - 1]@) != fitness);
    }
    assert(with_fitness(population, fitness) =~= Seq::<Chromosome>::empty());
}

/// Selecting by fitness among those selected by fitness: the same again for
/// the same fitness, nothing for another.
proof fn lemma_with_fitness_twice(population: Seq<Chromosome>, first: nat, second: nat)
    ensures
        with_fitness(with_fitness(population, first), second) == if first == second {
            with_fitness(population, first)
        } else {
            Seq::<Chromosome>::empty()
        },
    decreases population.len(),
{
    if population.len() == 0 {
        reveal(Seq::filter);
    } else {
        let front = population.drop_last();
        let last = population.last();
        assert(front.push(last) =~= population);
        lemma_with_fitness_twice(front, first, second);
        front.lemma_filter_push(last, has_fitness(first));
        with_fitness(front, first).lemma_filter_push(last, has_fitness(second));
    }
}

/// Selecting by fitness in a ranking selects what it selects in the
/// population, as far as the ranking reaches.
proof fn lemma_ranked_keeps_order(population: Seq<Chromosome>, bound: nat, fitness: nat)
    ensures
        with_fitness(ranked_below(population, bound), fitness) == if fitness < bound {
            with_fitness(population, fitness)
        } else {
            Seq::<Chromosome>::empty()
        },
    decreases bound,
{
    if bound == 0 {
        reveal(Seq::filter);
    } else {
        let below = (bound - 1) as nat;
        lemma_ranked_keeps_order(population, below, fitness);
        lemma_with_fitness_twice(population, below, fitness);
        Seq::filter_distributes_over_add(
            ranked_below(population, below),
            with_fitness(population, below),
            has_fitness(fitness),
        );
        assert(with_fitness(ranked_below(population, bound), fitness) =~= if fitness < bound {
            with_fitness(population, fitness)
        } else {
            Seq::<Chromosome>::empty()
        });
    }
}

/// Sorting is stable: the individuals of any one fitness stand in the sorted
/// population in the order in which they stand in the population itself.
pub proof fn lemma_sorted_is_stable(population: Seq<Chromosome>, fitness: nat)
    ensures
        with_fitness(sorted_by_fitness(population), fitness) == with_fitness(population, fitness),
{
    lemma_ranked_keeps_order(population, (MAX_FITNESS + 1) as nat, fitness);
    if fitness > MAX_FITNESS {
        assert forall|i: int| 0 <= i < population.len() implies fitness_of(
            #[trigger] population[i]@,
        ) != fitness by {
            population[i].lemma_bounds();
        }
        lemma_with_fitness_of_none(population, fitness);
    }
}

/// A ranking that reaches above the greatest fitness of the population ends
/// with the last fittest individual.
proof fn lemma_ranked_ends_with_fittest(population: Seq<Chromosome>, bound: nat)
    requires
        population.len() > 0,
        fitness_of(fittest(population)@) < bound,
    ensures
        ranked_below(population, bound).len() > 0,
        ranked_below(population, bound).last() == fittest(population),
    decreases bound,
{
    lemma_last_fittest_exists(population);
    let at = last_fittest(population);
    let top = fitness_of(population[at]@);
    let below = (bound - 1) as nat;
    let lower = ranked_below(population, below);
    if top < below {
        lemma_ranked_ends_with_fittest(population, below);
        lemma_with_fitness_of_none(population, below);
        assert(ranked_below(population, bound) =~= lower);
    } else {
        let head = population.take(at);
        let tail = population.skip(at + 1);
        assert(population =~= head.push(population[at]) + tail);
        Seq::filter_distributes_over_add(head.push(population[at]), tail, has_fitness(top));
        head.lemma_filter_push(population[at], has_fitness(top));
        assert forall|i: int| 0 <= i < tail.len() implies fitness_of(#[trigger] tail[i]@)
            != top by {
            assert(tail[i] == population[at + 1 + i]);
        }
        lemma_with_fitness_of_none(tail, top);
        assert(with_fitness(population, top) =~= with_fitness(head, top).push(population[at]));
    }
}

/// The sorted population ends with the individual that `fittest` selects.
pub proof fn lemma_sorted_ends_with_fittest(population: Seq<Chromosome>)
    requires
        population.len() > 0,
    ensures
        sorted_by_fitness(population).len() > 0,
        sorted_by_fitness(population).last() == fittest(population),
{
    fittest(population).lemma_bounds();
    lemma_ranked_ends_with_fittest(population, (MAX_FITNESS + 1) as nat);
}

/// A ranking is made of the selections by fitness alone: two populations that
/// agree on these, up to a bound, have the same ranking below that bound.
proof fn lemma_ranked_by_selections(first: Seq<Chromosome>, second: Seq<Chromosome>, bound: nat)
    requires
        forall|fitness: nat|
            fitness < bound ==> #[trigger] with_fitness(first, fitness) == with_fitness(
                second,
                fitness,
            ),
    ensures
        ranked_below(first, bound) == ranked_below(second, bound),
    decreases bound,
{
    if bound > 0 {
        let below = (bound - 1) as nat;
        lemma_ranked_by_selections(first, second, below);
        assert(with_fitness(first, below) == with_fitness(second, below));
    }
}

/// Appending an individual that is at least as fit as all others: a ranking
/// that does not reach its fitness is unchanged, and one that does ends with
/// it.
proof fn lemma_ranked_push_fittest(front: Seq<Chromosome>, last: Chromosome, bound: nat)
    requires
        forall|i: int| 0 <= i < front.len() ==> fitness_of(#[trigger] front[i]@) <= fitness_of(last@),
    ensures
        ranked_below(front.push(last), bound) == if bound <= fitness_of(last@) {
            ranked_below(front, bound)
        } else {
            ranked_below(front, fitness_of(last@) + 1).push(last)
        },
    decreases bound,
{
    if bound > 0 {
        let top = fitness_of(last@);
        let below = (bound - 1) as nat;
        lemma_ranked_push_fittest(front, last, below);
        front.lemma_filter_push(last, has_fitness(below));
        if below == top {
            assert(ranked_below(front.push(last), bound) =~= ranked_below(front, top + 1).push(
                last,
            ));
        } else if below > top {
            lemma_with_fitness_of_none(front, below);
            assert(ranked_below(front.push(last), bound) =~= ranked_below(front, top + 1).push(
                last,
            ));
        }
    }
}

/// An ascending population is its own ranking, below any bound that exceeds
/// the fitness of its members.
proof fn lemma_ascending_is_ranked(population: Seq<Chromosome>, bound: nat)
    requires
        is_ascending(population),
        forall|i: int| 0 <= i < population.len() ==> fitness_of(#[trigger] population[i]@) < bound,
    ensures
        ranked_below(population, bound) == population,
    decreases population.len(),
{
    if population.len() == 0 {
        assert(population =~= Seq::empty());
        lemma_ranked_of_empty(bound);
    } else {
        let front = population.drop_last();
        let last = population.last();
        let top = fitness_of(last@);
        assert(front.push(last) =~= population);
        assert forall|i: int| 0 <= i < front.len() implies fitness_of(#[trigger] front[i]@)
            < top + 1 by {
            assert(front[i] == population[i]);
        }
        assert(is_ascending(front)) by {
            assert forall|first: int, second: int|
                0 <= first <= second < front.len() implies fitness_of(#[trigger] front[first]@)
                <= fitness_of(#[trigger] front[second]@) by {
                assert(front[first] == population[first]);
                assert(front[second] == population[second]);
            }
        }
        lemma_ascending_is_ranked(front, top + 1);
        lemma_ranked_push_fittest(front, last, bound);
    }
}

/// Sorting has one result: a population that ascends in fitness and holds the
/// individuals of every fitness in the order in which they stand in
/// `population` is the sorted population.
pub proof fn lemma_sorted_is_unique(population: Seq<Chromosome>, other: Seq<Chromosome>)
    requires
        is_ascending(other),
        forall|fitness: nat| #[trigger]
            with_fitness(other, fitness) == with_fitness(population, fitness),
    ensures
        other == sorted_by_fitness(population),
{
    let bound = (MAX_FITNESS + 1) as nat;
    assert forall|i: int| 0 <= i < other.len() implies fitness_of(#[trigger] other[i]@)
        < bound by {
        other[i].lemma_bounds();
    }
    lemma_ascending_is_ranked(other, bound);
    lemma_ranked_by_selections(other, population, bound);
}

} // verus!
