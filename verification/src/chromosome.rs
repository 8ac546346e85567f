//! Chromosomes and the fitness that measures them.

use vstd::prelude::*;
use vstd::set_lib::*;
use crate::entropy::gen_range;

verus! {

/// Number of genes in a chromosome.
pub const CHROMOSOME_SIZE: usize = 10;

/// Exclusive upper bound of a gene drawn at random; the lower bound is zero.
pub const MAX_GENE: i8 = CHROMOSOME_SIZE as i8;

/// Fitness of a chromosome that holds the target pattern at every position.
pub const MAX_FITNESS: u8 = CHROMOSOME_SIZE as u8;

/// The position at which a crossover switches from one parent to the other.
pub const MIDDLE: usize = CHROMOSOME_SIZE / 2;

/// The positions of `genes` that hold their own index.
pub open spec fn matching_positions(genes: Seq<i8>) -> Set<int> {
    Set::new(|i: int| 0 <= i < genes.len() && genes[i] == i)
}

/// The number of positions of `genes` that hold their own index.
pub open spec fn fitness_of(genes: Seq<i8>) -> nat {
    matching_positions(genes).len()
}

/// The matching positions are finitely many, and a fitness never exceeds the
/// number of genes.
pub proof fn lemma_fitness_bound(genes: Seq<i8>)
    ensures
        matching_positions(genes).finite(),
        fitness_of(genes) <= genes.len(),
{
    lemma_int_range(0, genes.len() as int);
    lemma_len_subset(matching_positions(genes), set_int_range(0, genes.len() as int));
}

/// Appending a gene adds one to the fitness exactly when the gene equals the
/// position at which it lands.
pub proof fn lemma_fitness_push(genes: Seq<i8>, gene: i8)
    ensures
        fitness_of(genes.push(gene)) == fitness_of(genes) + if gene == genes.len() {
            1nat
        } else {
            0nat
        },
{
    let before = matching_positions(genes);
    let after = matching_positions(genes.push(gene));
    let at = genes.len() as int;
    lemma_fitness_bound(genes);
    if gene == genes.len() {
        assert(after =~= before.insert(at));
    } else {
        assert(after =~= before);
    }
}

/// Whether `genes` is the pattern that the evolution aims at: every gene
/// equals its position.
pub open spec fn is_target(genes: Seq<i8>) -> bool {
    forall|i: int| 0 <= i < genes.len() ==> #[trigger] genes[i] == i
}

/// The fitness reaches the number of genes for the target pattern and for no
/// other genes.
pub proof fn lemma_perfect_fitness(genes: Seq<i8>)
    ensures
        fitness_of(genes) == genes.len() <==> is_target(genes),
{
    let positions = set_int_range(0, genes.len() as int);
    lemma_int_range(0, genes.len() as int);
    if is_target(genes) {
        assert(matching_positions(genes) =~= positions);
    } else {
        let miss = choose|i: int| 0 <= i < genes.len() && genes[i] != i;
        lemma_len_subset(matching_positions(genes), positions.remove(miss));
    }
}

/// Counts the positions whose gene equals its index.
pub fn fitness(genes: [i8; CHROMOSOME_SIZE]) -> (result: u8)
    ensures
        result == fitness_of(genes@),
        result <= CHROMOSOME_SIZE,
{
    let mut result: u8 = 0;
    assert(matching_positions(genes@.take(0)) =~= Set::empty());
    for i in 0..CHROMOSOME_SIZE
        invariant
            result == fitness_of(genes@.take(i as int)),
            result <= i,
    {
        proof {
            lemma_fitness_push(genes@.take(i as int), genes@[i as int]);
            assert(genes@.take(i as int).push(genes@[i as int]) =~= genes@.take(i + 1));
        }
        if genes[i] == i as i8 {
            result += 1;
        }
    }
    assert(genes@.take(CHROMOSOME_SIZE as int) =~= genes@);
    result
}

/// Whether every gene lies in the range from which random genes are drawn.
pub open spec fn genes_in_range(genes: Seq<i8>) -> bool {
    forall|i: int| 0 <= i < genes.len() ==> 0 <= #[trigger] genes[i] < MAX_GENE
}

/// The genes of the child of two parents: the first half of the first parent
/// followed by the second half of the second.
pub open spec fn crossover(mom: Seq<i8>, dad: Seq<i8>) -> Seq<i8> {
    mom.take(MIDDLE as int) + dad.skip(MIDDLE as int)
}

/// A candidate solution: its genes together with their fitness, computed once.
#[derive(Copy, Clone)]
pub struct Chromosome {
    genes: [i8; CHROMOSOME_SIZE],
    fitness: u8,
}

impl View for Chromosome {
    type V = Seq<i8>;

    /// A chromosome is modelled by the sequence of its genes.
    closed spec fn view(&self) -> Seq<i8> {
        self.genes@
    }
}

impl Chromosome {
    /// The fitness stored beside the genes.
    pub closed spec fn spec_fitness(&self) -> u8 {
        self.fitness
    }

    /// The stored fitness is the fitness of the genes.
    #[verifier::type_invariant]
    pub open spec fn well_formed(self) -> bool {
        self.spec_fitness() == fitness_of(self@)
    }

    /// Every chromosome has `CHROMOSOME_SIZE` genes, and so a fitness of at
    /// most `MAX_FITNESS`.
    pub proof fn lemma_bounds(self)
        ensures
            self@.len() == CHROMOSOME_SIZE,
            fitness_of(self@) <= MAX_FITNESS,
    {
        lemma_fitness_bound(self@);
    }

    /// Builds the chromosome with the given genes.
    pub fn new(genes: [i8; CHROMOSOME_SIZE]) -> (chromosome: Self)
        ensures
            chromosome@ == genes@,
            chromosome.well_formed(),
    {
        Chromosome { genes, fitness: fitness(genes) }
    }

    /// The genes, in order.
    pub fn genes(&self) -> (genes: [i8; CHROMOSOME_SIZE])
        ensures
            genes@ == self@,
    {
        self.genes
    }

    /// The fitness of the genes.
    #[verifier::when_used_as_spec(spec_fitness)]
    pub fn fitness(&self) -> (fitness: u8)
        ensures
            fitness == self.spec_fitness(),
            fitness == fitness_of(self@),
            fitness <= MAX_FITNESS,
    {
        proof {
            use_type_invariant(self);
            self.lemma_bounds();
        }
        self.fitness
    }
}

impl Default for Chromosome {
    /// Draws every gene at random from zero up to, but not including,
    /// `MAX_GENE`, each gene independently of the others.
    fn default() -> (chromosome: Self)
        ensures
            genes_in_range(chromosome@),
            chromosome.well_formed(),
    {
        let mut rng = rand::thread_rng();
        let mut genes = [0i8; CHROMOSOME_SIZE];
        for i in 0..CHROMOSOME_SIZE
            invariant
                forall|j: int| 0 <= j < i ==> 0 <= #[trigger] genes@[j] < MAX_GENE,
        {
            genes[i] = gen_range(&mut rng, 0, MAX_GENE);
        }
        Chromosome::new(genes)
    }
}

/// Breeds a child that has the first half of `mom`'s genes and the second half
/// of `dad`'s.
pub fn make_offspring(mom: Chromosome, dad: Chromosome) -> (child: Chromosome)
    ensures
        child@ == crossover(mom@, dad@),
        child@.subrange(0, MIDDLE as int) == mom@.subrange(0, MIDDLE as int),
        child@.subrange(MIDDLE as int, CHROMOSOME_SIZE as int) == dad@.subrange(
            MIDDLE as int,
            CHROMOSOME_SIZE as int,
        ),
        child.well_formed(),
{
    let mut genes = [0i8; CHROMOSOME_SIZE];
    for i in 0..MIDDLE
        invariant
            forall|j: int| 0 <= j < i ==> genes@[j] == mom@[j],
    {
        genes[i] = mom.genes[i];
    }
    for i in MIDDLE..CHROMOSOME_SIZE
        invariant
            forall|j: int| 0 <= j < MIDDLE ==> genes@[j] == mom@[j],
            forall|j: int| MIDDLE <= j < i ==> genes@[j] == dad@[j],
    {
        genes[i] = dad.genes[i];
    }
    assert(genes@ =~= crossover(mom@, dad@));
    Chromosome::new(genes)
}

} // verus!
