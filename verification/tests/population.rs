use genetic::{find_best, sort_by_fitness, Chromosome, CHROMOSOME_SIZE, POPULATION_SIZE};

/// An individual of the given fitness that can be told from every other: its
/// first `fitness` genes match their position, all others hold a negative
/// value made from `id`.
fn individual(fitness: usize, id: usize) -> Chromosome {
    let mut genes = [-(id as i8) - 1; CHROMOSOME_SIZE];
    for position in 0..fitness {
        genes[position] = position as i8;
    }
    Chromosome::new(genes)
}

fn population_of(fitness: [usize; POPULATION_SIZE]) -> [Chromosome; POPULATION_SIZE] {
    let mut population = [individual(0, 0); POPULATION_SIZE];
    for at in 0..POPULATION_SIZE {
        population[at] = individual(fitness[at], at);
    }
    population
}

const MIXED: [usize; POPULATION_SIZE] = [
    3, 1, 4, 1, 5, 9, 2, 6, 5, 3, 5, 8, 9, 7, 9, 3, 2, 3, 8, 4, 6, 2, 6, 4, 3, 3, 8, 3, 2, 7, 9, 5,
    0, 2, 8, 8, 4, 1, 9, 7,
];

#[test]
fn helper_builds_individuals_of_the_wanted_fitness() {
    for fitness in 0..=CHROMOSOME_SIZE {
        assert_eq!(individual(fitness, 7).fitness() as usize, fitness);
    }
}

#[test]
fn best_is_at_least_as_fit_as_every_member() {
    let population = population_of(MIXED);
    let best = find_best(population);
    assert_eq!(best.fitness(), 9);
    for member in population {
        assert!(member.fitness() <= best.fitness());
    }
}

#[test]
fn best_is_a_member_of_the_population() {
    let population = population_of(MIXED);
    let best = find_best(population);
    assert!(population.iter().any(|member| member.genes() == best.genes()));
}

#[test]
fn among_equally_fit_the_last_is_best() {
    let population = population_of(MIXED);
    let best = find_best(population);
    assert_eq!(best.genes(), population[38].genes());
    assert_ne!(best.genes(), population[5].genes());
}

#[test]
fn best_of_a_uniform_population_is_its_last_member() {
    let population = population_of([4; POPULATION_SIZE]);
    assert_eq!(find_best(population).genes(), population[POPULATION_SIZE - 1].genes());
}

#[test]
fn best_is_found_wherever_it_stands() {
    for at in 0..POPULATION_SIZE {
        let mut fitness = [2; POPULATION_SIZE];
        fitness[at] = 7;
        let population = population_of(fitness);
        let best = find_best(population);
        assert_eq!(best.fitness(), 7);
        assert_eq!(best.genes(), population[at].genes());
    }
}

#[test]
fn best_does_not_change_the_population() {
    let population = population_of(MIXED);
    let _ = find_best(population);
    for at in 0..POPULATION_SIZE {
        assert_eq!(population[at].genes(), individual(MIXED[at], at).genes());
    }
}

#[test]
fn best_of_a_sorted_population_is_its_last_member() {
    let mut population = population_of(MIXED);
    let best = find_best(population);
    sort_by_fitness(&mut population);
    assert_eq!(population[POPULATION_SIZE - 1].genes(), best.genes());
    assert_eq!(find_best(population).genes(), best.genes());
}

#[test]
fn sorting_orders_by_ascending_fitness() {
    let mut population = population_of(MIXED);
    sort_by_fitness(&mut population);
    for at in 1..POPULATION_SIZE {
        assert!(population[at - 1].fitness() <= population[at].fitness());
    }
    let mut expected = MIXED;
    expected.sort();
    for at in 0..POPULATION_SIZE {
        assert_eq!(population[at].fitness() as usize, expected[at]);
    }
}

#[test]
fn sorting_keeps_every_member() {
    let before = population_of(MIXED);
    let mut population = before;
    sort_by_fitness(&mut population);
    for member in before {
        let occurrences =
            population.iter().filter(|other| other.genes() == member.genes()).count();
        assert_eq!(occurrences, 1);
    }
}

#[test]
fn sorting_keeps_equally_fit_members_in_their_order() {
    let before = population_of(MIXED);
    let mut population = before;
    sort_by_fitness(&mut population);
    let mut order: Vec<usize> = (0..POPULATION_SIZE).collect();
    order.sort_by_key(|&at| MIXED[at]);
    for rank in 0..POPULATION_SIZE {
        assert_eq!(population[rank].genes(), before[order[rank]].genes());
    }
}

#[test]
fn sorting_agrees_with_a_stable_sort_by_stored_fitness() {
    let before = population_of(MIXED);
    let mut population = before;
    sort_by_fitness(&mut population);
    let mut expected = before;
    expected.sort_by(|a, b| a.fitness().cmp(&b.fitness()));
    for at in 0..POPULATION_SIZE {
        assert_eq!(population[at].genes(), expected[at].genes());
    }
}

#[test]
fn sorting_a_sorted_population_changes_nothing() {
    let mut population = population_of(MIXED);
    sort_by_fitness(&mut population);
    let once = population;
    sort_by_fitness(&mut population);
    for at in 0..POPULATION_SIZE {
        assert_eq!(population[at].genes(), once[at].genes());
    }
}

#[test]
fn sorting_a_descending_population_reverses_distinct_ranks() {
    let mut fitness = [0; POPULATION_SIZE];
    for at in 0..POPULATION_SIZE {
        fitness[at] = 10 - at / 4;
    }
    let before = population_of(fitness);
    let mut population = before;
    sort_by_fitness(&mut population);
    assert_eq!(population[0].genes(), before[36].genes());
    assert_eq!(population[3].genes(), before[39].genes());
    assert_eq!(population[36].genes(), before[0].genes());
    assert_eq!(population[39].genes(), before[3].genes());
}
