//! The biased random-key genetic algorithm.

use rand::Rng;
use vstd::prelude::*;

use crate::placer::{fitness, Chromosome, Decoder, InnerSolution};

verus! {

/// One unit, written as parts per million.
pub const PPM: u32 = 1_000_000;

/// Relies on `rand::thread_rng` and `Rng::gen::<u32>`: a uniformly drawn `u32`.
#[verifier::external_body]
fn random_u32() -> (r: u32) {
    rand::thread_rng().gen::<u32>()
}

/// Relies on `Rng::gen_range(0, bound)` of `rand::thread_rng`: a value in `[0, bound)`; it
/// panics when `bound` is zero, which `requires` rules out.
#[verifier::external_body]
fn random_below(bound: usize) -> (r: usize)
    requires
        bound > 0,
    ensures
        r < bound,
{
    rand::thread_rng().gen_range(0, bound)
}

/// The algorithm's settings, as absolute counts.
#[derive(Clone, Copy, Debug)]
pub struct Params {
    pub population_size: usize,
    pub num_elites: usize,
    pub num_mutants: usize,
    /// The chance that an offspring takes a gene from its elite parent, in parts per million.
    pub inherit_elite_probability: u32,
    pub max_generations: i32,
    pub max_generations_no_improvement: i32,
}

impl Params {
    pub open spec fn num_offsprings(self) -> int {
        self.population_size - self.num_elites - self.num_mutants
    }

    /// The population is not empty, elites and mutants leave room for each other, offspring
    /// have an elite and a non-elite parent to come from, and the probability is at most one.
    pub open spec fn wf(self) -> bool {
        &&& self.population_size >= 1
        &&& self.num_elites + self.num_mutants <= self.population_size
        &&& self.num_offsprings() > 0 ==> self.num_elites >= 1
        &&& self.inherit_elite_probability <= PPM
    }
}

/// A draw `p` (read as `p / 2^32`) takes the elite gene when it is at most the probability
/// (read as `probability / 10^6`).
pub open spec fn inherits(p: u32, probability: u32) -> bool {
    p * 1_000_000 <= probability * 0x1_0000_0000
}

/// The crossover of `elite` and `non_elite` under `draws`, gene by gene.
pub open spec fn cross(elite: Seq<u32>, non_elite: Seq<u32>, draws: Seq<u32>, probability: u32) -> Seq<u32> {
    Seq::new(
        elite.len(),
        |i: int|
            if inherits(draws[i], probability) {
                elite[i]
            } else {
                non_elite[i]
            },
    )
}

/// With an inheritance probability of one, crossover gives the elite parent back.
pub proof fn lemma_certain_inheritance(elite: Seq<u32>, non_elite: Seq<u32>, draws: Seq<u32>)
    ensures
        cross(elite, non_elite, draws, PPM) == elite,
{
    assert forall|i: int| 0 <= i < elite.len() implies inherits(draws[i], PPM) by {
    }
    assert(cross(elite, non_elite, draws, PPM) =~= elite);
}

/// Biased uniform crossover: gene `i` comes from `elite` when draw `i` inherits, otherwise from
/// `non_elite`.
pub fn crossover(elite: &Chromosome, non_elite: &Chromosome, draws: &Vec<u32>, probability: u32) -> (r:
    Chromosome)
    requires
        non_elite@.len() == elite@.len(),
        draws@.len() == elite@.len(),
    ensures
        r@ == cross(elite@, non_elite@, draws@, probability),
        r@.len() == elite@.len(),
        forall|i: int|
            0 <= i < elite@.len() ==> #[trigger] r@[i] == if inherits(draws@[i], probability) {
                elite@[i]
            } else {
                non_elite@[i]
            },
        probability == PPM ==> r@ == elite@,
{
    let mut offspring: Vec<u32> = Vec::new();
    let mut i: usize = 0;
    while i < elite.len()
        invariant
            i <= elite@.len(),
            non_elite@.len() == elite@.len(),
            draws@.len() == elite@.len(),
            offspring@.len() == i,
            forall|k: int|
                0 <= k < i ==> #[trigger] offspring@[k] == if inherits(draws@[k], probability) {
                    elite@[k]
                } else {
                    non_elite@[k]
                },
        decreases elite@.len() - i,
    {
        let p = draws[i];
        let gene = if (p as u64) * 1_000_000 <= (probability as u64) * 0x1_0000_0000 {
            elite[i]
        } else {
            non_elite[i]
        };
        offspring.push(gene);
        i += 1;
    }
    if probability == PPM {
        assert forall|k: int| 0 <= k < elite@.len() implies offspring@[k] == elite@[k] by {
            assert(inherits(draws@[k], probability));
        }
        assert(offspring@ =~= elite@);
    }
    assert(offspring@ =~= cross(elite@, non_elite@, draws@, probability));
    offspring
}

/// The count of generations in a row without a strict improvement, after a generation that
/// took the best fitness from `prev_fitness` to `curr_fitness`.
pub fn next_stall_count(prev_fitness: u128, curr_fitness: u128, count: i32) -> (r: i32)
    requires
        count < i32::MAX,
    ensures
        r == if curr_fitness < prev_fitness {
            0
        } else {
            count + 1
        },
{
    if curr_fitness < prev_fitness {
        0
    } else {
        count + 1
    }
}

/// Produces random chromosomes of a fixed length.
#[derive(Clone, Copy, Debug)]
pub struct RandGenerator {
    pub length: usize,
}

impl RandGenerator {
    pub fn new(length: usize) -> (r: RandGenerator)
        ensures
            r.length == length,
    {
        RandGenerator { length }
    }

    /// `length` independent uniform keys.
    pub fn generate_individual(&self) -> (r: Chromosome)
        ensures
            r@.len() == self.length,
    {
        let mut keys: Vec<u32> = Vec::new();
        let mut i: usize = 0;
        while i < self.length
            invariant
                i <= self.length,
                keys@.len() == i,
            decreases self.length - i,
        {
            keys.push(random_u32());
            i += 1;
        }
        keys
    }
}

/// A member of the population: a chromosome, its decoding and its fitness.
pub struct InnerChromosome {
    pub chromosome: Chromosome,
    pub solution: InnerSolution,
    pub fitness: u128,
}

impl InnerChromosome {
    /// The chromosome has the decoder's length, the solution decodes it, and the fitness
    /// scores the solution.
    pub open spec fn wf(self, decoder: Decoder) -> bool {
        &&& self.chromosome@.len() == 2 * decoder.num_items()
        &&& decoder.decodes(self.chromosome@, self.solution)
        &&& self.fitness == fitness(self.solution, decoder.bin_volume as int)
    }

    /// A copy of this member.
    pub fn duplicate(&self) -> (r: InnerChromosome)
        ensures
            r.chromosome@ == self.chromosome@,
            r.solution.num_bins == self.solution.num_bins,
            r.solution.least_load == self.solution.least_load,
            r.solution.placements@ == self.solution.placements@,
            r.fitness == self.fitness,
    {
        let mut chromosome: Vec<u32> = Vec::new();
        let mut i: usize = 0;
        while i < self.chromosome.len()
            invariant
                i <= self.chromosome@.len(),
                chromosome@ == self.chromosome@.take(i as int),
            decreases self.chromosome@.len() - i,
        {
            chromosome.push(self.chromosome[i]);
            i += 1;
            assert(chromosome@ =~= self.chromosome@.take(i as int));
        }
        assert(self.chromosome@.take(i as int) =~= self.chromosome@);
        InnerChromosome { chromosome, solution: self.solution.duplicate(), fitness: self.fitness }
    }
}

/// `a` and `b` hold the same chromosome, solution and fitness.
pub open spec fn same_member(a: InnerChromosome, b: InnerChromosome) -> bool {
    &&& a.chromosome@ == b.chromosome@
    &&& a.solution.num_bins == b.solution.num_bins
    &&& a.solution.least_load == b.solution.least_load
    &&& a.solution.placements@ == b.solution.placements@
    &&& a.fitness == b.fitness
}

/// A copy of `keys`.
fn copy_keys(keys: &Vec<u32>) -> (r: Vec<u32>)
    ensures
        r@ == keys@,
{
    let mut r: Vec<u32> = Vec::new();
    let mut i: usize = 0;
    while i < keys.len()
        invariant
            i <= keys@.len(),
            r@ == keys@.take(i as int),
        decreases keys@.len() - i,
    {
        r.push(keys[i]);
        i += 1;
        assert(r@ =~= keys@.take(i as int));
    }
    assert(keys@.take(i as int) =~= keys@);
    r
}

/// Ascending by fitness.
pub open spec fn sorted_by_fitness(pop: Seq<InnerChromosome>) -> bool {
    forall|i: int, j: int| 0 <= i < j < pop.len() ==> (#[trigger] pop[i]).fitness <= (#[trigger] pop[j]).fitness
}

/// `a` and `b` have the same length and each holds every member of the other.
pub open spec fn same_members(a: Seq<InnerChromosome>, b: Seq<InnerChromosome>) -> bool {
    &&& a.len() == b.len()
    &&& forall|i: int| 0 <= i < a.len() ==> b.contains(#[trigger] a[i])
    &&& forall|i: int| 0 <= i < b.len() ==> a.contains(#[trigger] b[i])
}

/// The population sorted ascending by fitness (an insertion sort; equal fitnesses come in no
/// particular order).
pub fn sort_population(population: Vec<InnerChromosome>) -> (r: Vec<InnerChromosome>)
    ensures
        sorted_by_fitness(r@),
        r@.to_multiset() == population@.to_multiset(),
        same_members(population@, r@),
{
    broadcast use vstd::seq_lib::group_to_multiset_ensures;

    let ghost input = population@;
    let mut rest = population;
    let mut sorted: Vec<InnerChromosome> = Vec::new();
    while rest.len() > 0
        invariant
            sorted_by_fitness(sorted@),
            sorted@.len() + rest@.len() == input.len(),
            forall|i: int| 0 <= i < sorted@.len() ==> input.contains(#[trigger] sorted@[i]),
            forall|i: int| 0 <= i < rest@.len() ==> input.contains(#[trigger] rest@[i]),
            forall|i: int| 0 <= i < input.len() ==> sorted@.contains(#[trigger] input[i]) || rest@.contains(input[i]),
            sorted@.to_multiset().add(rest@.to_multiset()) == input.to_multiset(),
        decreases rest@.len(),
    {
        let ghost old_rest = rest@;
        let ghost old_sorted = sorted@;
        let item = rest.pop().unwrap();
        assert(old_rest.last() == item);
        assert(rest@ =~= old_rest.drop_last());
        assert(old_rest =~= rest@.push(item));
        let mut p: usize = 0;
        while p < sorted.len() && sorted[p].fitness <= item.fitness
            invariant
                p <= sorted@.len(),
                forall|q: int| 0 <= q < p ==> (#[trigger] sorted@[q]).fitness <= item.fitness,
            decreases sorted@.len() - p,
        {
            p += 1;
        }
        sorted.insert(p, item);
        assert(sorted@ == old_sorted.insert(p as int, item));
        proof {
            vstd::seq_lib::to_multiset_insert(old_sorted, p as int, item);
            vstd::seq_lib::to_multiset_build(rest@, item);
        }
        assert(sorted@.to_multiset() =~= old_sorted.to_multiset().insert(item));
        assert(old_rest.to_multiset() =~= rest@.to_multiset().insert(item));
        assert(sorted@.to_multiset().add(rest@.to_multiset()) =~= old_sorted.to_multiset().add(old_rest.to_multiset()));
        assert forall|x: int, y: int| 0 <= x < y < sorted@.len() implies (#[trigger] sorted@[x]).fitness <= (#[trigger] sorted@[y]).fitness by {
            if y < p {
                assert(sorted@[x] == old_sorted[x] && sorted@[y] == old_sorted[y]);
            } else if y == p {
                assert(sorted@[x] == old_sorted[x]);
            } else if x < p {
                assert(sorted@[x] == old_sorted[x] && sorted@[y] == old_sorted[y - 1]);
            } else if x == p {
                assert(sorted@[y] == old_sorted[y - 1]);
                assert(old_sorted[p as int].fitness > item.fitness);
            } else {
                assert(sorted@[x] == old_sorted[x - 1] && sorted@[y] == old_sorted[y - 1]);
            }
        }
        assert forall|i: int| 0 <= i < sorted@.len() implies input.contains(#[trigger] sorted@[i]) by {
            if i < p {
                assert(sorted@[i] == old_sorted[i]);
            } else if i > p {
                assert(sorted@[i] == old_sorted[i - 1]);
            } else {
                assert(old_rest[old_rest.len() - 1] == item);
            }
        }
        assert forall|i: int| 0 <= i < rest@.len() implies input.contains(#[trigger] rest@[i]) by {
            assert(rest@[i] == old_rest[i]);
        }
        assert forall|i: int| 0 <= i < input.len() implies sorted@.contains(#[trigger] input[i]) || rest@.contains(input[i]) by {
            if old_sorted.contains(input[i]) {
                let k = choose|k: int| 0 <= k < old_sorted.len() && old_sorted[k] == input[i];
                if k < p {
                    assert(sorted@[k] == input[i]);
                } else {
                    assert(sorted@[k + 1] == input[i]);
                }
            } else {
                let k = choose|k: int| 0 <= k < old_rest.len() && old_rest[k] == input[i];
                if k == old_rest.len() - 1 {
                    assert(sorted@[p as int] == input[i]);
                } else {
                    assert(rest@[k] == input[i]);
                }
            }
        }
    }
    assert(rest@ =~= Seq::<InnerChromosome>::empty());
    assert(sorted@.to_multiset() =~= input.to_multiset());
    sorted
}

/// The genetic algorithm over one decoder.
pub struct Solver {
    pub generator: RandGenerator,
    pub decoder: Decoder,
    pub params: Params,
    pub population: Vec<InnerChromosome>,
}

impl Solver {
    pub open spec fn wf(self) -> bool {
        &&& self.params.wf()
        &&& self.decoder.wf()
        &&& self.generator.length == 2 * self.decoder.num_items()
    }

    /// Every member is well formed for the decoder.
    pub open spec fn members_wf(self, pop: Seq<InnerChromosome>) -> bool {
        forall|i: int| 0 <= i < pop.len() ==> (#[trigger] pop[i]).wf(self.decoder)
    }

    /// A full population, sorted ascending by fitness, of well-formed members.
    pub open spec fn ready(self) -> bool {
        &&& self.wf()
        &&& self.population@.len() == self.params.population_size
        &&& sorted_by_fitness(self.population@)
        &&& self.members_wf(self.population@)
    }

    /// The same settings and decoder as `other`.
    pub open spec fn same_setup(self, other: Solver) -> bool {
        &&& self.generator == other.generator
        &&& self.params == other.params
        &&& self.decoder == other.decoder
    }

    pub fn new(params: Params, generator: RandGenerator, decoder: Decoder) -> (r: Solver)
        requires
            params.wf(),
            decoder.wf(),
            generator.length == 2 * decoder.num_items(),
        ensures
            r.wf(),
            r.params == params,
            r.generator == generator,
            r.decoder == decoder,
            r.population@.len() == 0,
    {
        Solver { generator, decoder, params, population: Vec::new() }
    }

    /// Decodes and scores `chromosome`.
    fn evaluate_chromosome(&self, chromosome: Chromosome) -> (r: InnerChromosome)
        requires
            self.wf(),
            chromosome@.len() == 2 * self.decoder.num_items(),
        ensures
            r.wf(self.decoder),
            r.chromosome@ == chromosome@,
    {
        let solution = self.decoder.decode_chromosome(&chromosome);
        let fitness = self.decoder.fitness_of(&solution);
        InnerChromosome { chromosome, solution, fitness }
    }

    /// A fresh random member.
    fn random_individual(&self) -> (r: InnerChromosome)
        requires
            self.wf(),
        ensures
            r.wf(self.decoder),
    {
        let chromosome = self.generator.generate_individual();
        self.evaluate_chromosome(chromosome)
    }

    /// Fills the population with random members and sorts it.
    pub fn init_population(&mut self)
        requires
            old(self).wf(),
        ensures
            final(self).ready(),
            final(self).same_setup(*old(self)),
    {
        let mut population: Vec<InnerChromosome> = Vec::new();
        let mut i: usize = 0;
        while i < self.params.population_size
            invariant
                self.wf(),
                i <= self.params.population_size,
                population@.len() == i,
                self.members_wf(population@),
            decreases self.params.population_size - i,
        {
            population.push(self.random_individual());
            i += 1;
        }
        let sorted = sort_population(population);
        proof {
            assert forall|k: int| 0 <= k < sorted@.len() implies (#[trigger] sorted@[k]).wf(self.decoder) by {
                let j = choose|j: int| 0 <= j < population@.len() && population@[j] == sorted@[k];
            }
        }
        self.population = sorted;
    }

    /// Appends copies of the elites to `new_population`.
    fn fill_elites(&self, new_population: &mut Vec<InnerChromosome>)
        requires
            self.ready(),
        ensures
            final(new_population)@.len() == old(new_population)@.len() + self.params.num_elites,
            final(new_population)@.take(old(new_population)@.len() as int) == old(new_population)@,
            forall|k: int|
                0 <= k < self.params.num_elites ==> same_member(
                    #[trigger] final(new_population)@[old(new_population)@.len() + k],
                    self.population@[k],
                ),
    {
        let ghost start = new_population@;
        let mut i: usize = 0;
        while i < self.params.num_elites
            invariant
                self.ready(),
                i <= self.params.num_elites,
                new_population@.len() == start.len() + i,
                new_population@.take(start.len() as int) == start,
                forall|k: int| 0 <= k < i ==> same_member(#[trigger] new_population@[start.len() + k], self.population@[k]),
            decreases self.params.num_elites - i,
        {
            let copy = self.population[i].duplicate();
            let ghost before = new_population@;
            new_population.push(copy);
            assert(new_population@.take(start.len() as int) =~= before.take(start.len() as int));
            assert forall|k: int| 0 <= k < i + 1 implies same_member(#[trigger] new_population@[start.len() + k], self.population@[k]) by {
                if k < i {
                    assert(new_population@[start.len() + k] == before[start.len() + k]);
                }
            }
            i += 1;
        }
    }

    /// Appends the decodings of `mutants` to `new_population`.
    fn fill_mutants(&self, new_population: &mut Vec<InnerChromosome>, mutants: &Vec<Chromosome>)
        requires
            self.wf(),
            forall|k: int| 0 <= k < mutants@.len() ==> (#[trigger] mutants@[k])@.len() == 2 * self.decoder.num_items(),
        ensures
            final(new_population)@.len() == old(new_population)@.len() + mutants@.len(),
            final(new_population)@.take(old(new_population)@.len() as int) == old(new_population)@,
            forall|k: int|
                0 <= k < mutants@.len() ==> {
                    let m = #[trigger] final(new_population)@[old(new_population)@.len() + k];
                    m.chromosome@ == mutants@[k]@ && m.wf(self.decoder)
                },
    {
        let ghost start = new_population@;
        let mut i: usize = 0;
        while i < mutants.len()
            invariant
                self.wf(),
                forall|k: int| 0 <= k < mutants@.len() ==> (#[trigger] mutants@[k])@.len() == 2 * self.decoder.num_items(),
                i <= mutants@.len(),
                new_population@.len() == start.len() + i,
                new_population@.take(start.len() as int) == start,
                forall|k: int|
                    0 <= k < i ==> {
                        let m = #[trigger] new_population@[start.len() + k];
                        m.chromosome@ == mutants@[k]@ && m.wf(self.decoder)
                    },
            decreases mutants@.len() - i,
        {
            let mutant = self.evaluate_chromosome(copy_keys(&mutants[i]));
            let ghost before = new_population@;
            new_population.push(mutant);
            assert(new_population@.take(start.len() as int) =~= before.take(start.len() as int));
            assert forall|k: int| 0 <= k < i + 1 implies {
                let m = #[trigger] new_population@[start.len() + k];
                m.chromosome@ == mutants@[k]@ && m.wf(self.decoder)
            } by {
                if k < i {
                    assert(new_population@[start.len() + k] == before[start.len() + k]);
                }
            }
            i += 1;
        }
    }

    /// Appends, for each pair of parents, the decoding of their crossover under the matching
    /// draws.
    fn fill_offsprings(
        &self,
        new_population: &mut Vec<InnerChromosome>,
        parents: &Vec<(usize, usize)>,
        draws: &Vec<Vec<u32>>,
    )
        requires
            self.ready(),
            self.parents_ok(parents@),
            draws@.len() == parents@.len(),
            forall|k: int| 0 <= k < draws@.len() ==> (#[trigger] draws@[k])@.len() == 2 * self.decoder.num_items(),
        ensures
            final(new_population)@.len() == old(new_population)@.len() + parents@.len(),
            final(new_population)@.take(old(new_population)@.len() as int) == old(new_population)@,
            forall|k: int|
                0 <= k < parents@.len() ==> {
                    let m = #[trigger] final(new_population)@[old(new_population)@.len() + k];
                    m.chromosome@ == self.offspring_keys(parents@[k], draws@[k]@) && m.wf(self.decoder)
                },
    {
        let ghost start = new_population@;
        let mut i: usize = 0;
        while i < parents.len()
            invariant
                self.ready(),
                self.parents_ok(parents@),
                draws@.len() == parents@.len(),
                forall|k: int| 0 <= k < draws@.len() ==> (#[trigger] draws@[k])@.len() == 2 * self.decoder.num_items(),
                i <= parents@.len(),
                new_population@.len() == start.len() + i,
                new_population@.take(start.len() as int) == start,
                forall|k: int|
                    0 <= k < i ==> {
                        let m = #[trigger] new_population@[start.len() + k];
                        m.chromosome@ == self.offspring_keys(parents@[k], draws@[k]@) && m.wf(self.decoder)
                    },
            decreases parents@.len() - i,
        {
            let (e, ne) = parents[i];
            proof {
                assert(self.population@[e as int].wf(self.decoder));
                assert(self.population@[ne as int].wf(self.decoder));
            }
            let offspring = crossover(
                &self.population[e].chromosome,
                &self.population[ne].chromosome,
                &draws[i],
                self.params.inherit_elite_probability,
            );
            let child = self.evaluate_chromosome(offspring);
            let ghost before = new_population@;
            new_population.push(child);
            assert(new_population@.take(start.len() as int) =~= before.take(start.len() as int));
            assert forall|k: int| 0 <= k < i + 1 implies {
                let m = #[trigger] new_population@[start.len() + k];
                m.chromosome@ == self.offspring_keys(parents@[k], draws@[k]@) && m.wf(self.decoder)
            } by {
                if k < i {
                    assert(new_population@[start.len() + k] == before[start.len() + k]);
                }
            }
            i += 1;
        }
    }

    /// Each pair holds an elite index and a non-elite index of the population.
    pub open spec fn parents_ok(self, parents: Seq<(usize, usize)>) -> bool {
        forall|k: int|
            0 <= k < parents.len() ==> (#[trigger] parents[k]).0 < self.params.num_elites <= parents[k].1
                < self.params.population_size
    }

    /// The chromosome that crossing the parents `pair` under `draws` gives.
    pub open spec fn offspring_keys(self, pair: (usize, usize), draws: Seq<u32>) -> Seq<u32> {
        cross(
            self.population@[pair.0 as int].chromosome@,
            self.population@[pair.1 as int].chromosome@,
            draws,
            self.params.inherit_elite_probability,
        )
    }

    /// `u` lists, in order, the current elites unchanged, the decodings of `mutants`, and the
    /// decodings of the crossovers of `parents` under `draws`.
    pub open spec fn generation_slots(
        self,
        u: Seq<InnerChromosome>,
        mutants: Seq<Seq<u32>>,
        parents: Seq<(usize, usize)>,
        draws: Seq<Seq<u32>>,
    ) -> bool {
        let e = self.params.num_elites as int;
        let m = mutants.len() as int;
        &&& u.len() == e + m + parents.len()
        &&& forall|k: int| 0 <= k < e ==> same_member(#[trigger] u[k], self.population@[k])
        &&& forall|k: int|
            0 <= k < m ==> (#[trigger] u[e + k]).chromosome@ == mutants[k] && u[e + k].wf(self.decoder)
        &&& forall|k: int|
            0 <= k < parents.len() ==> (#[trigger] u[e + m + k]).chromosome@ == self.offspring_keys(
                parents[k],
                draws[k],
            ) && u[e + m + k].wf(self.decoder)
    }

    /// `next` is a generation made from these draws: the slots above in some order.
    pub open spec fn is_next_generation(
        self,
        next: Seq<InnerChromosome>,
        mutants: Seq<Seq<u32>>,
        parents: Seq<(usize, usize)>,
        draws: Seq<Seq<u32>>,
    ) -> bool {
        exists|u: Seq<InnerChromosome>|
            #[trigger] self.generation_slots(u, mutants, parents, draws) && next.to_multiset() == u.to_multiset()
    }

    /// With an inheritance probability of one, every offspring slot carries its elite
    /// parent's chromosome.
    pub proof fn lemma_certain_offspring(
        self,
        u: Seq<InnerChromosome>,
        mutants: Seq<Seq<u32>>,
        parents: Seq<(usize, usize)>,
        draws: Seq<Seq<u32>>,
    )
        requires
            self.params.inherit_elite_probability == PPM,
            self.generation_slots(u, mutants, parents, draws),
        ensures
            forall|k: int|
                0 <= k < parents.len() ==> (#[trigger] u[self.params.num_elites + mutants.len() + k]).chromosome@
                    == self.population@[parents[k].0 as int].chromosome@,
    {
        let e = self.params.num_elites as int;
        let m = mutants.len() as int;
        assert forall|k: int| 0 <= k < parents.len() implies (#[trigger] u[e + m + k]).chromosome@
            == self.population@[parents[k].0 as int].chromosome@ by {
            lemma_certain_inheritance(
                self.population@[parents[k].0 as int].chromosome@,
                self.population@[parents[k].1 as int].chromosome@,
                draws[k],
            );
        }
    }

    /// The draws a generation takes: `num_mutants` mutants and, for each offspring, a pair of
    /// parents and one draw per gene, all of the chromosome length.
    pub open spec fn draws_ok(self, mutants: Seq<Seq<u32>>, parents: Seq<(usize, usize)>, draws: Seq<Seq<u32>>) -> bool {
        &&& mutants.len() == self.params.num_mutants
        &&& parents.len() == self.params.num_offsprings()
        &&& draws.len() == parents.len()
        &&& self.parents_ok(parents)
        &&& forall|k: int| 0 <= k < mutants.len() ==> (#[trigger] mutants[k]).len() == 2 * self.decoder.num_items()
        &&& forall|k: int| 0 <= k < draws.len() ==> (#[trigger] draws[k]).len() == 2 * self.decoder.num_items()
    }

    /// The next generation for the given draws, sorted ascending by fitness: the elites copied
    /// unchanged, each mutant decoded and scored, and each offspring (the crossover of its
    /// parents under its draws) decoded and scored.
    pub fn next_generation(&self, mutants: &Vec<Chromosome>, parents: &Vec<(usize, usize)>, draws: &Vec<Vec<u32>>) -> (r: Vec<InnerChromosome>)
        requires
            self.ready(),
            self.draws_ok(mutants@.map_values(|v: Chromosome| v@), parents@, draws@.map_values(|v: Vec<u32>| v@)),
        ensures
            sorted_by_fitness(r@),
            r@.len() == self.params.population_size,
            self.members_wf(r@),
            self.is_next_generation(r@, mutants@.map_values(|v: Chromosome| v@), parents@, draws@.map_values(|v: Vec<u32>| v@)),
    {
        let ghost ms = mutants@.map_values(|v: Chromosome| v@);
        let ghost ds = draws@.map_values(|v: Vec<u32>| v@);
        assert forall|k: int| 0 <= k < mutants@.len() implies (#[trigger] mutants@[k])@.len() == 2 * self.decoder.num_items() by {
            assert(ms[k] == mutants@[k]@);
        }
        assert forall|k: int| 0 <= k < draws@.len() implies (#[trigger] draws@[k])@.len() == 2 * self.decoder.num_items() by {
            assert(ds[k] == draws@[k]@);
        }
        let mut new_population: Vec<InnerChromosome> = Vec::new();
        self.fill_elites(&mut new_population);
        let ghost after_elites = new_population@;
        self.fill_mutants(&mut new_population, mutants);
        let ghost after_mutants = new_population@;
        self.fill_offsprings(&mut new_population, parents, draws);
        let ghost u = new_population@;
        let ghost e = self.params.num_elites as int;
        let ghost m = mutants@.len() as int;
        proof {
            assert forall|k: int| 0 <= k < e implies same_member(#[trigger] u[k], self.population@[k]) by {
                assert(u[k] == after_mutants[k]);
                assert(after_mutants[k] == after_elites[k]);
                assert(after_elites[0 + k] == after_elites[k]);
                assert(self.population@[k].wf(self.decoder));
            }
            assert forall|k: int| 0 <= k < m implies (#[trigger] u[e + k]).chromosome@ == ms[k] && u[e + k].wf(self.decoder) by {
                assert(u[e + k] == after_mutants[e + k]);
            }
            assert forall|k: int| 0 <= k < parents@.len() implies (#[trigger] u[e + m + k]).chromosome@ == self.offspring_keys(parents@[k], ds[k]) && u[e + m + k].wf(self.decoder) by {
            }
            assert(self.generation_slots(u, ms, parents@, ds));
            assert forall|k: int| 0 <= k < u.len() implies (#[trigger] u[k]).wf(self.decoder) by {
                if k < e {
                    assert(same_member(u[k], self.population@[k]));
                    assert(self.population@[k].wf(self.decoder));
                } else if k < e + m {
                    assert(u[e + (k - e)] == u[k]);
                } else {
                    assert(u[e + m + (k - e - m)] == u[k]);
                }
            }
        }
        let sorted = sort_population(new_population);
        proof {
            assert forall|k: int| 0 <= k < sorted@.len() implies (#[trigger] sorted@[k]).wf(self.decoder) by {
                let j = choose|j: int| 0 <= j < u.len() && u[j] == sorted@[k];
            }
        }
        sorted
    }

    /// Draws the indices of an elite and of a non-elite parent.
    fn pickup_parents_for_crossover(&self) -> (r: (usize, usize))
        requires
            self.wf(),
            1 <= self.params.num_elites < self.params.population_size,
        ensures
            r.0 < self.params.num_elites,
            self.params.num_elites <= r.1 < self.params.population_size,
    {
        let elite_size = self.params.num_elites;
        let non_elite_size = self.params.population_size - elite_size;
        (random_below(elite_size), elite_size + random_below(non_elite_size))
    }

    /// Draws the mutants, the parents and the crossover draws of one generation.
    fn draw_generation(&self) -> (r: (Vec<Chromosome>, Vec<(usize, usize)>, Vec<Vec<u32>>))
        requires
            self.ready(),
        ensures
            self.draws_ok(r.0@.map_values(|v: Chromosome| v@), r.1@, r.2@.map_values(|v: Vec<u32>| v@)),
    {
        let mut mutants: Vec<Chromosome> = Vec::new();
        let mut i: usize = 0;
        while i < self.params.num_mutants
            invariant
                self.ready(),
                i <= self.params.num_mutants,
                mutants@.len() == i,
                forall|k: int| 0 <= k < i ==> (#[trigger] mutants@[k])@.len() == 2 * self.decoder.num_items(),
            decreases self.params.num_mutants - i,
        {
            mutants.push(self.generator.generate_individual());
            i += 1;
        }
        let num_offsprings = self.params.population_size - self.params.num_elites - self.params.num_mutants;
        let len = self.generator.length;
        let mut parents: Vec<(usize, usize)> = Vec::new();
        let mut draws: Vec<Vec<u32>> = Vec::new();
        let mut j: usize = 0;
        while j < num_offsprings
            invariant
                self.ready(),
                num_offsprings == self.params.num_offsprings(),
                len == 2 * self.decoder.num_items(),
                j <= num_offsprings,
                parents@.len() == j,
                draws@.len() == j,
                self.parents_ok(parents@),
                forall|k: int| 0 <= k < j ==> (#[trigger] draws@[k])@.len() == len,
            decreases num_offsprings - j,
        {
            parents.push(self.pickup_parents_for_crossover());
            let mut genes: Vec<u32> = Vec::new();
            let mut g: usize = 0;
            while g < len
                invariant
                    g <= len,
                    genes@.len() == g,
                decreases len - g,
            {
                genes.push(random_u32());
                g += 1;
            }
            draws.push(genes);
            j += 1;
        }
        (mutants, parents, draws)
    }

    /// Replaces the population by the next generation, made from fresh random draws. The
    /// population keeps its size, and with at least one elite the best fitness never gets
    /// worse.
    pub fn evolve_new_generation(&mut self)
        requires
            old(self).ready(),
        ensures
            final(self).ready(),
            final(self).same_setup(*old(self)),
            final(self).population@.len() == old(self).params.population_size,
            exists|mutants: Seq<Seq<u32>>, parents: Seq<(usize, usize)>, draws: Seq<Seq<u32>>|
                #[trigger] old(self).draws_ok(mutants, parents, draws) && old(self).is_next_generation(
                    final(self).population@,
                    mutants,
                    parents,
                    draws,
                ),
            old(self).params.num_elites >= 1 ==> final(self).population@[0].fitness
                <= old(self).population@[0].fitness,
    {
        broadcast use vstd::seq_lib::group_to_multiset_ensures;

        let (mutants, parents, draws) = self.draw_generation();
        let next = self.next_generation(&mutants, &parents, &draws);
        let ghost ms = mutants@.map_values(|v: Chromosome| v@);
        let ghost ds = draws@.map_values(|v: Vec<u32>| v@);
        proof {
            assert(self.draws_ok(ms, parents@, ds));
            let u = choose|u: Seq<InnerChromosome>|
                #[trigger] self.generation_slots(u, ms, parents@, ds) && next@.to_multiset() == u.to_multiset();
            if self.params.num_elites >= 1 {
                assert(same_member(u[0], self.population@[0]));
                assert(u.contains(u[0]));
                assert(u.to_multiset().count(u[0]) > 0);
                assert(next@.contains(u[0]));
                let j = choose|j: int| 0 <= j < next@.len() && next@[j] == u[0];
                if j > 0 {
                    assert(next@[0].fitness <= next@[j].fitness);
                }
            }
        }
        self.population = next;
    }

    /// Runs generations while fewer than `max_generations` have run and the last
    /// `max_generations_no_improvement` did not all fail to lower the best fitness strictly.
    /// Returns how many generations ran and how many of the last ones in a row brought no
    /// strict improvement. With at least one elite the best fitness never gets worse.
    pub fn run_generations(&mut self) -> (r: (i32, i32))
        requires
            old(self).ready(),
        ensures
            final(self).ready(),
            final(self).same_setup(*old(self)),
            0 <= r.1 <= r.0,
            r.0 == 0 || r.0 <= final(self).params.max_generations,
            r.0 >= final(self).params.max_generations || r.1 >= final(self).params.max_generations_no_improvement,
            old(self).params.num_elites >= 1 ==> final(self).population@[0].fitness
                <= old(self).population@[0].fitness,
    {
        let mut generation: i32 = 0;
        let mut generations_no_improvement: i32 = 0;
        let ghost setup = *self;
        let ghost first = self.population@[0].fitness;
        while generation < self.params.max_generations
            && generations_no_improvement < self.params.max_generations_no_improvement
            invariant
                self.ready(),
                self.same_setup(setup),
                0 <= generations_no_improvement <= generation,
                generation == 0 || generation <= self.params.max_generations,
                setup.params.num_elites >= 1 ==> self.population@[0].fitness <= first,
            decreases self.params.max_generations - generation,
        {
            let prev_fitness = self.population[0].fitness;
            self.evolve_new_generation();
            let curr_fitness = self.population[0].fitness;
            generations_no_improvement = next_stall_count(prev_fitness, curr_fitness, generations_no_improvement);
            generation += 1;
        }
        (generation, generations_no_improvement)
    }

    /// Runs the algorithm: a random first generation, then generations as `run_generations`
    /// says. Returns the best member's solution.
    pub fn solve(&mut self) -> (r: InnerSolution)
        requires
            old(self).wf(),
        ensures
            final(self).ready(),
            final(self).same_setup(*old(self)),
            r.num_bins == final(self).population@[0].solution.num_bins,
            r.least_load == final(self).population@[0].solution.least_load,
            r.placements@ == final(self).population@[0].solution.placements@,
            final(self).decoder.decodes(final(self).population@[0].chromosome@, r),
    {
        self.init_population();
        self.run_generations();
        proof {
            assert(self.population@[0].wf(self.decoder));
        }
        self.population[0].solution.duplicate()
    }
}

} // verus!
