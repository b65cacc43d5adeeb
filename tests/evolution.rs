use kaosu_packer::ga::{crossover, next_stall_count, sort_population, InnerChromosome, Params, RandGenerator, Solver, PPM};
use kaosu_packer::geom::{Cuboid, RotationType};
use kaosu_packer::placer::{Decoder, InnerSolution};

fn member(fitness: u128, tag: u32) -> InnerChromosome {
    InnerChromosome {
        chromosome: vec![tag],
        solution: InnerSolution::new(1, 0, Vec::new()),
        fitness,
    }
}

#[test]
fn crossover_follows_the_draws() {
    let elite = vec![1u32, 2, 3];
    let non_elite = vec![7u32, 8, 9];
    let draws = vec![0u32, u32::MAX, 1 << 31];
    assert_eq!(crossover(&elite, &non_elite, &draws, 500_000), vec![1, 8, 3]);
    assert_eq!(crossover(&elite, &non_elite, &draws, 0), vec![1, 8, 9]);
}

#[test]
fn certain_inheritance_copies_the_elite() {
    let elite = vec![1u32, 2, 3, 4];
    let non_elite = vec![7u32, 8, 9, 10];
    let draws = vec![u32::MAX, 0, 12345, u32::MAX - 1];
    assert_eq!(crossover(&elite, &non_elite, &draws, PPM), elite);
}

#[test]
fn generator_length() {
    let g = RandGenerator::new(12);
    assert_eq!(g.generate_individual().len(), 12);
    assert_eq!(RandGenerator::new(0).generate_individual().len(), 0);
}

#[test]
fn sorting_keeps_members_and_orders_by_fitness() {
    let pop = vec![member(5, 0), member(3, 1), member(9, 2), member(3, 3), member(1, 4)];
    let sorted = sort_population(pop);
    let fitness: Vec<u128> = sorted.iter().map(|m| m.fitness).collect();
    assert_eq!(fitness, vec![1, 3, 3, 5, 9]);
    let mut tags: Vec<u32> = sorted.iter().map(|m| m.chromosome[0]).collect();
    assert_eq!(tags[0], 4);
    assert_eq!(tags[3], 0);
    assert_eq!(tags[4], 2);
    tags.sort();
    assert_eq!(tags, vec![0, 1, 2, 3, 4]);
}

fn solver(params: Params) -> Solver {
    let items = vec![Cuboid::new(5, 5, 5), Cuboid::new(5, 5, 10), Cuboid::new(10, 5, 5), Cuboid::new(3, 3, 3)];
    let decoder = Decoder::new(&items, Cuboid::new(10, 10, 10), RotationType::ThreeDimension);
    Solver::new(params, RandGenerator::new(8), decoder)
}

#[test]
fn solver_returns_a_full_sorted_population() {
    let params = Params {
        population_size: 20,
        num_elites: 3,
        num_mutants: 4,
        inherit_elite_probability: 600_000,
        max_generations: 10,
        max_generations_no_improvement: 3,
    };
    let mut s = solver(params);
    let best = s.solve();
    assert_eq!(s.population.len(), 20);
    for w in s.population.windows(2) {
        assert!(w[0].fitness <= w[1].fitness);
    }
    assert_eq!(best.num_bins, s.population[0].solution.num_bins);
    assert_eq!(best.least_load, s.population[0].solution.least_load);
    assert_eq!(best.placements.len(), 4);
    assert_eq!(s.decoder.fitness_of(&best), s.population[0].fitness);
}

#[test]
fn solver_without_offspring() {
    let params = Params {
        population_size: 6,
        num_elites: 0,
        num_mutants: 6,
        inherit_elite_probability: 0,
        max_generations: 3,
        max_generations_no_improvement: 10,
    };
    let mut s = solver(params);
    let best = s.solve();
    assert_eq!(s.population.len(), 6);
    assert!(best.num_bins >= 1);
}

#[test]
fn naive_test() {
    let params = Params {
        population_size: 10,
        num_elites: 3,
        num_mutants: 2,
        inherit_elite_probability: 600_000,
        max_generations: 10,
        max_generations_no_improvement: 3,
    };
    let items = vec![Cuboid::new(2, 3, 4); 5];
    let decoder = Decoder::new(&items, Cuboid::new(10, 10, 10), RotationType::ThreeDimension);
    let mut solver = Solver::new(params, RandGenerator::new(10), decoder);
    let _: InnerSolution = solver.solve();
}

#[test]
fn a_generation_keeps_size_and_never_loses_the_best() {
    let params = Params {
        population_size: 12,
        num_elites: 2,
        num_mutants: 3,
        inherit_elite_probability: PPM,
        max_generations: 1,
        max_generations_no_improvement: 1,
    };
    let mut s = solver(params);
    s.init_population();
    let mut best = s.population[0].fitness;
    for _ in 0..5 {
        let elites: Vec<Vec<u32>> = s.population[..2].iter().map(|m| m.chromosome.clone()).collect();
        s.evolve_new_generation();
        assert_eq!(s.population.len(), 12);
        assert!(s.population[0].fitness <= best);
        best = s.population[0].fitness;
        let elite_copies = s.population.iter().filter(|m| elites.contains(&m.chromosome)).count();
        assert!(elite_copies >= 2 + 7);
    }
}

#[test]
fn stall_count_resets_only_on_strict_improvement() {
    assert_eq!(next_stall_count(10, 9, 4), 0);
    assert_eq!(next_stall_count(10, 10, 4), 5);
    assert_eq!(next_stall_count(10, 11, 0), 1);
}

#[test]
fn next_generation_is_elites_mutants_and_offspring() {
    let params = Params {
        population_size: 8,
        num_elites: 2,
        num_mutants: 2,
        inherit_elite_probability: PPM,
        max_generations: 1,
        max_generations_no_improvement: 1,
    };
    let mut s = solver(params);
    s.init_population();
    let mutants = vec![vec![1u32; 8], vec![u32::MAX; 8]];
    let parents = vec![(0usize, 2usize), (1, 7), (0, 5), (1, 3)];
    let draws = vec![vec![u32::MAX; 8]; 4];
    let next = s.next_generation(&mutants, &parents, &draws);
    assert_eq!(next.len(), 8);
    for w in next.windows(2) {
        assert!(w[0].fitness <= w[1].fitness);
    }
    let count = |c: &Vec<u32>| next.iter().filter(|m| &m.chromosome == c).count();
    let e0 = s.population[0].chromosome.clone();
    let e1 = s.population[1].chromosome.clone();
    if e0 != e1 {
        assert!(count(&e0) >= 3);
        assert!(count(&e1) >= 3);
    }
    assert!(count(&mutants[0]) >= 1);
    assert!(count(&mutants[1]) >= 1);
    for m in &next {
        assert_eq!(s.decoder.fitness_of(&m.solution), m.fitness);
    }
}

#[test]
fn run_generations_respects_the_caps() {
    let params = Params {
        population_size: 10,
        num_elites: 2,
        num_mutants: 3,
        inherit_elite_probability: 700_000,
        max_generations: 4,
        max_generations_no_improvement: 2,
    };
    let mut s = solver(params);
    s.init_population();
    let best = s.population[0].fitness;
    let (generations, stalled) = s.run_generations();
    assert!(generations <= 4);
    assert!(generations == 4 || stalled >= 2);
    assert!(stalled <= generations);
    assert!(s.population[0].fitness <= best);
}
