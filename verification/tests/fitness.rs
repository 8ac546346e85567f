use genetic::{fitness, CHROMOSOME_SIZE, MAX_FITNESS, MAX_GENE, MIDDLE};

#[test]
fn target_pattern_has_the_greatest_fitness() {
    assert_eq!(fitness([0, 1, 2, 3, 4, 5, 6, 7, 8, 9]), 10);
    assert_eq!(fitness([0, 1, 2, 3, 4, 5, 6, 7, 8, 9]), MAX_FITNESS);
}

#[test]
fn reversed_pattern_has_no_fitness() {
    assert_eq!(fitness([9, 8, 7, 6, 5, 4, 3, 2, 1, 0]), 0);
}

#[test]
fn fitness_counts_the_genes_that_equal_their_position() {
    assert_eq!(fitness([0, 1, 4, 3, 9, 9, 9, 9, 9, 9]), 4);
    assert_eq!(fitness([0, 0, 0, 0, 0, 0, 0, 0, 0, 0]), 1);
    assert_eq!(fitness([9, 9, 9, 9, 9, 9, 9, 9, 9, 9]), 1);
    assert_eq!(fitness([1, 2, 3, 4, 5, 6, 7, 8, 9, 0]), 0);
    assert_eq!(fitness([5, 1, 5, 3, 5, 5, 5, 7, 5, 9]), 5);
}

#[test]
fn each_position_counts_once() {
    for position in 0..CHROMOSOME_SIZE {
        let mut genes = [-1i8; CHROMOSOME_SIZE];
        assert_eq!(fitness(genes), 0);
        genes[position] = position as i8;
        assert_eq!(fitness(genes), 1);
    }
}

#[test]
fn fitness_grows_by_one_with_each_matching_gene() {
    let mut genes = [-1i8; CHROMOSOME_SIZE];
    for position in 0..CHROMOSOME_SIZE {
        genes[position] = position as i8;
        assert_eq!(fitness(genes) as usize, position + 1);
    }
}

#[test]
fn fitness_accepts_genes_outside_the_random_range() {
    assert_eq!(fitness([-128, 127, -1, 100, 10, 11, -10, 64, -64, 99]), 0);
    assert_eq!(fitness([0, 127, -1, 3, 10, 11, -10, 64, -64, 9]), 3);
}

#[test]
fn fitness_never_exceeds_the_number_of_genes() {
    let samples: [[i8; CHROMOSOME_SIZE]; 4] = [
        [0, 1, 2, 3, 4, 5, 6, 7, 8, 9],
        [0; CHROMOSOME_SIZE],
        [127; CHROMOSOME_SIZE],
        [3, 1, 4, 1, 5, 9, 2, 6, 5, 3],
    ];
    for genes in samples {
        assert!(fitness(genes) as usize <= CHROMOSOME_SIZE);
    }
}

#[test]
fn constants_describe_one_chromosome() {
    assert_eq!(CHROMOSOME_SIZE, 10);
    assert_eq!(MAX_GENE as usize, CHROMOSOME_SIZE);
    assert_eq!(MAX_FITNESS as usize, CHROMOSOME_SIZE);
    assert_eq!(MIDDLE, 5);
}
