use rustea::ecga::Ecga;
use rustea::fitness::{FitnessEvaluator, FitnessFunc, OneMaxFunction, OptimizationGoal};
use rustea::gene::Allele;
use rustea::genome::Genome;
use rustea::individual::Individual;
use rustea::selection::{
    CopyOffspringSelection, NoSelection, SelectionError, SelectionOperator, TournamentSelection,
    TruncationSelection,
};
use rustea::simplega::{BuildError, SimpleGABuilder, Status};
use rustea::variation::{Umda, UniformCrossover, VariationOperator};

fn bools(bits: &[bool]) -> Vec<Allele> {
    bits.iter().map(|b| Allele::Bool(*b)).collect()
}

fn evaluated_population(n: usize, len: usize) -> (Vec<Individual>, FitnessEvaluator<OneMaxFunction>) {
    let mut evaluator = FitnessEvaluator::new(OneMaxFunction, OptimizationGoal::Maximize);
    let mut population = Vec::new();
    for i in 0..n {
        let mut idv = Individual::from_genotype(bools(
            &(0..len).map(|j| (i + j) % 3 == 0).collect::<Vec<bool>>(),
        ));
        evaluator.evaluate(&mut idv);
        population.push(idv);
    }
    (population, evaluator)
}

#[test]
fn truncation_preserves_population_size() {
    let (mut population, mut evaluator) = evaluated_population(10, 6);
    let mut offspring = Vec::new();
    for i in 0..10 {
        let mut idv = Individual::from_genotype(bools(
            &(0..6).map(|j| (i * j) % 2 == 0).collect::<Vec<bool>>(),
        ));
        evaluator.evaluate(&mut idv);
        offspring.push(idv);
    }
    let r = TruncationSelection.select(&mut population, offspring, &evaluator);
    assert!(r.is_ok());
    assert_eq!(population.len(), 10);
}

#[test]
fn tournament_pool_size_mismatch() {
    let (mut population, mut evaluator) = evaluated_population(10, 6);
    let mut offspring = Vec::new();
    for i in 0..10 {
        let mut idv = Individual::from_genotype(bools(
            &(0..6).map(|j| (i + 2 * j) % 2 == 0).collect::<Vec<bool>>(),
        ));
        evaluator.evaluate(&mut idv);
        offspring.push(idv);
    }
    let op = TournamentSelection { tournament_size: 3, include_parents: true };
    let r = op.select(&mut population, offspring, &evaluator);
    assert_eq!(r, Err(SelectionError::PoolSizeMismatch));
    assert_eq!(population.len(), 10);
}

#[test]
fn tournament_with_unit_groups_permutes_pool() {
    let (mut population, evaluator) = evaluated_population(4, 6);
    let mut before: Vec<i64> = population.iter().map(|i| i.fitness()).collect();
    before.sort();
    let op = TournamentSelection { tournament_size: 1, include_parents: true };
    let r = op.select(&mut population, Vec::new(), &evaluator);
    assert!(r.is_ok());
    let mut after: Vec<i64> = population.iter().map(|i| i.fitness()).collect();
    after.sort();
    assert_eq!(before, after);
}

#[test]
fn variation_advances_counter_by_exactly_one_per_child() {
    let (population, mut evaluator) = evaluated_population(7, 5);
    let genome = Genome::with_bool_domain(5);
    let op = Umda::with_genome(genome);
    let before = evaluator.evaluations();
    let children = op.create_offspring(&population, &mut evaluator);
    assert_eq!(children.len(), 7);
    assert_eq!(evaluator.evaluations(), before + children.len());
    for c in &children {
        let _ = c.fitness();
    }
}

#[test]
fn crossover_produces_evaluated_pairs() {
    let (population, mut evaluator) = evaluated_population(9, 8);
    let genome = Genome::with_bool_domain(8);
    let op = UniformCrossover::with_probability(genome, 1, 2);
    let before = evaluator.evaluations();
    let children = op.create_offspring(&population, &mut evaluator);
    // An odd parent is dropped for the generation.
    assert_eq!(children.len(), 8);
    assert_eq!(evaluator.evaluations(), before + 8);
    assert!(!op.mutates());
}

#[test]
fn build_without_population_is_a_configuration_error() {
    let r = SimpleGABuilder::<OneMaxFunction, TruncationSelection, Umda>::new()
        .evaluation_function(OneMaxFunction)
        .selection(TruncationSelection)
        .variation(Umda::with_genome(Genome::with_bool_domain(4)))
        .build();
    match r {
        Err(BuildError::Configuration) => {},
        _ => panic!("expected a configuration error"),
    }
}

#[test]
fn one_max_umda_reaches_target() {
    let mut reached = false;
    for _attempt in 0..3 {
        let genome = Genome::with_bool_domain(128);
        let variation = Umda::with_genome(genome.clone());
        let builder = SimpleGABuilder::new()
            .genome(genome)
            .random_population(200)
            .evaluation_function(OneMaxFunction)
            .goal(OptimizationGoal::Maximize)
            .selection(TruncationSelection)
            .variation(variation)
            .target(128);
        let mut ga = builder.build().unwrap();
        let status = ga.run(100_000);
        match status {
            Status::TargetReached(n) => {
                assert!(n < 100_000 + 200);
                assert_eq!(n, ga.evaluations());
                let best = ga.best_individual().unwrap();
                assert_eq!(best.fitness(), 128);
                reached = true;
                break;
            }
            Status::BudgetReached(_) => continue,
        }
    }
    assert!(reached, "the target was not reached in three seeded runs");
}

#[test]
fn run_respects_evaluation_budget() {
    let genome = Genome::with_bool_domain(16);
    let variation = Umda::with_genome(genome.clone());
    let builder = SimpleGABuilder::new()
        .genome(genome)
        .random_population(10)
        .evaluation_function(OneMaxFunction)
        .goal(OptimizationGoal::Minimize)
        .selection(NoSelection)
        .variation(variation);
    let mut ga = builder.build().unwrap();
    let status = ga.run(55);
    match status {
        Status::BudgetReached(n) => {
            assert!(n >= 55);
            assert!(n <= 55 + 10);
            assert!(n >= 10);
        }
        Status::TargetReached(_) => panic!("no target was configured"),
    }
}

#[test]
fn ecga_learns_block_structure() {
    // Forty Boolean variables in ten contiguous blocks of four; in the
    // selected population each block is all-true or all-false, blocks
    // varying independently, so the MDL search should merge exactly the
    // blocks.
    let genome = Genome::with_bool_domain(40);
    let op = Ecga::with_genome(genome, 3, 10);
    let mut selected = Vec::new();
    for i in 0..300usize {
        let mut bits = Vec::new();
        for b in 0..10usize {
            let v = (i.wrapping_mul(31).wrapping_add(b.wrapping_mul(17)).wrapping_add(i / 7 * b))
                % 7 < 3;
            for _ in 0..4 {
                bits.push(v);
            }
        }
        selected.push(Individual::from_genotype(bools(&bits)));
    }
    let model = op.select_model(&selected);
    let factors = model.factorization().iter();
    for b in 0..10usize {
        let expected: Vec<usize> = (4 * b..4 * b + 4).collect();
        let found = factors.iter().any(|f| {
            let mut s = f.clone();
            s.sort();
            s == expected
        });
        assert!(found, "block {} was not recovered: {:?}", b, factors);
    }
}

#[test]
fn ecga_offspring_are_counted() {
    let (population, mut evaluator) = evaluated_population(20, 8);
    let genome = Genome::with_bool_domain(8);
    let op = Ecga::with_genome(genome, 1, 2);
    let before = evaluator.evaluations();
    let children = op.create_offspring(&population, &mut evaluator);
    assert_eq!(children.len(), 20);
    assert_eq!(evaluator.evaluations(), before + 20);
}

struct TrapFitness;

impl FitnessFunc for TrapFitness {
    fn evaluate(&self, genotype: &Vec<Allele>) -> i64 {
        // Per block of four: 4 when all-false, else the number of trues.
        let mut total = 0i64;
        for chunk in genotype.chunks(4) {
            let ones = chunk.iter().filter(|a| **a == Allele::Bool(true)).count() as i64;
            total += if ones == 0 { 4 } else { ones };
        }
        total
    }
}

#[test]
fn trap_fitness_values() {
    let all_false = bools(&[false; 8]);
    let all_true = bools(&[true; 8]);
    assert_eq!(TrapFitness.evaluate(&all_false), 8);
    assert_eq!(TrapFitness.evaluate(&all_true), 8);
    let mixed = bools(&[true, false, false, false, true, true, true, true]);
    assert_eq!(TrapFitness.evaluate(&mixed), 5);
}

#[test]
fn no_selection_keeps_population() {
    let (mut population, mut evaluator) = evaluated_population(6, 5);
    let before: Vec<i64> = population.iter().map(|i| i.fitness()).collect();
    let mut offspring = Vec::new();
    for _ in 0..3 {
        let mut idv = Individual::from_genotype(bools(&[true; 5]));
        evaluator.evaluate(&mut idv);
        offspring.push(idv);
    }
    let r = NoSelection.select(&mut population, offspring, &evaluator);
    assert!(r.is_ok());
    let after: Vec<i64> = population.iter().map(|i| i.fitness()).collect();
    assert_eq!(before, after);
}

#[test]
fn copy_offspring_replaces_population() {
    let (mut population, mut evaluator) = evaluated_population(4, 6);
    let mut offspring = Vec::new();
    let mut expected = Vec::new();
    for i in 0..4 {
        let mut idv = Individual::from_genotype(bools(
            &(0..6).map(|j| j < i).collect::<Vec<bool>>(),
        ));
        evaluator.evaluate(&mut idv);
        expected.push(idv.fitness());
        offspring.push(idv);
    }
    let r = CopyOffspringSelection.select(&mut population, offspring, &evaluator);
    assert!(r.is_ok());
    let after: Vec<i64> = population.iter().map(|i| i.fitness()).collect();
    assert_eq!(after, expected);
}

#[test]
fn truncation_keeps_the_best_sorted() {
    let (mut population, mut evaluator) = evaluated_population(4, 8);
    // Maximizing; add offspring with known fitness 8 (all true) and 0.
    let mut offspring = Vec::new();
    for good in [true, false] {
        let mut idv = Individual::from_genotype(bools(&[good; 8]));
        evaluator.evaluate(&mut idv);
        offspring.push(idv);
    }
    let mut combined: Vec<i64> = population.iter().map(|i| i.fitness()).collect();
    combined.extend(offspring.iter().map(|i| i.fitness()));
    combined.sort();
    combined.reverse();
    let r = TruncationSelection.select(&mut population, offspring, &evaluator);
    assert!(r.is_ok());
    let after: Vec<i64> = population.iter().map(|i| i.fitness()).collect();
    assert_eq!(after, combined[..4].to_vec());
}
