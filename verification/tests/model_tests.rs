use rustea::fitness::{FitnessEvaluator, OptimizationGoal};
use rustea::fitness::OneMaxFunction;
use rustea::gene::Allele;
use rustea::genome::Genome;
use rustea::individual::Individual;
use rustea::model::{Factorization, MultivariateModel, UnivariateModel};
use rustea::fitness::{deceptive_trap, one_max, one_max_raw};
use rustea::entropy::{log2_fp, LOG_ONE};

fn bools(bits: &[bool]) -> Vec<Allele> {
    bits.iter().map(|b| Allele::Bool(*b)).collect()
}

#[test]
fn join_univariate_factors_large() {
    let n: usize = 100;

    let factorization = Factorization::univariate(n);

    let factorizations = factorization.join_all();

    assert_eq!(factorizations.len(), (n * (n - 1)) / 2)
}

#[test]
fn join_univariate_factors_len_4() {
    let n: usize = 4;

    let factorization = Factorization::univariate(n);

    let factorizations = factorization.join_all();

    assert_eq!(factorizations[0].iter(), vec![vec![2], vec![3], vec![0, 1]]);
    assert_eq!(factorizations[1].iter(), vec![vec![1], vec![3], vec![0, 2]]);
    assert_eq!(factorizations[2].iter(), vec![vec![1], vec![2], vec![0, 3]]);
    assert_eq!(factorizations[3].iter(), vec![vec![0], vec![3], vec![1, 2]]);
    assert_eq!(factorizations[4].iter(), vec![vec![0], vec![2], vec![1, 3]]);
    assert_eq!(factorizations[5].iter(), vec![vec![0], vec![1], vec![2, 3]]);

    assert_eq!(factorizations.len(), (n * (n - 1)) / 2)
}

#[test]
fn join_all_of_single_factor_is_empty() {
    let factorization = Factorization::univariate(1);
    assert_eq!(factorization.join_all().len(), 0);
}

#[test]
fn join_all_results_are_distinct() {
    let factorization = Factorization::univariate(4);
    let all = factorization.join_all();
    for i in 0..all.len() {
        for j in (i + 1)..all.len() {
            assert_ne!(all[i].iter(), all[j].iter());
        }
    }
    assert_eq!(all.len(), 6);
}

#[test]
fn join_of_joined_factor_merges_three_sets() {
    let f = Factorization::univariate(4);
    let once = f.join(0, 1);
    assert_eq!(once.iter(), vec![vec![2], vec![3], vec![0, 1]]);
    let twice = once.join(0, 2);
    assert_eq!(twice.iter(), vec![vec![3], vec![2, 0, 1]]);
    let mut merged = twice.iter()[1].clone();
    merged.sort();
    assert_eq!(merged, vec![0, 1, 2]);
}

#[test]
fn univariate_marginals_match_counts() {
    // Ten individuals over four Boolean variables with true-counts
    // 7, 5, 0 and 10 per position.
    let genome = Genome::with_bool_domain(4);
    let mut population = Vec::new();
    for i in 0..10 {
        let g = bools(&[i < 7, i < 5, false, true]);
        population.push(Individual::from_genotype(g));
    }
    let model = UnivariateModel::estimate_from_population(&genome, &population);
    assert_eq!(model.sample_size(), 10);
    // The Boolean domain lists false first, true second.
    let expected_true = [7usize, 5, 0, 10];
    for i in 0..4 {
        let (count_true, n) = model.probability(i, 1);
        let (count_false, n2) = model.probability(i, 0);
        assert_eq!(n, 10);
        assert_eq!(n2, 10);
        assert_eq!(count_true, expected_true[i]);
        assert_eq!(count_false, 10 - expected_true[i]);
        assert_eq!(count_true as f64 / n as f64, expected_true[i] as f64 / 10.0);
    }
}

#[test]
fn sampling_from_identical_population_reproduces_it() {
    let genome = Genome::with_bool_domain(3);
    let shared = bools(&[true, false, true]);
    let mut population = Vec::new();
    for _ in 0..5 {
        population.push(Individual::from_genotype(shared.clone()));
    }
    let model = UnivariateModel::estimate_from_population(&genome, &population);
    let mut rng = rand::rng();
    for _ in 0..20 {
        let child = model.sample(&genome, &mut rng);
        assert_eq!(child, shared);
    }
}

fn mdl_population() -> Vec<Individual> {
    let rows: [[bool; 4]; 8] = [
        [true, false, false, false],
        [true, true, false, true],
        [false, true, true, true],
        [true, true, false, false],
        [false, false, true, false],
        [false, true, true, true],
        [true, false, false, false],
        [true, false, false, true],
    ];
    rows.iter().map(|r| Individual::from_genotype(bools(r))).collect()
}

const SCALE: f64 = 4294967296.0;

#[test]
fn compressed_population_complexity() {
    let genome = Genome::with_bool_domain(4);
    let population = mdl_population();

    let univariate_model = MultivariateModel::estimate_from_population(
        &genome,
        &population,
        Factorization::univariate(4),
    );

    let joined_model = MultivariateModel::estimate_from_population(
        &genome,
        &population,
        Factorization::univariate(4).join(0, 2),
    );

    let cpc_uni = univariate_model.compressed_population_complexity() as f64 / SCALE;
    let cpc_joined = joined_model.compressed_population_complexity() as f64 / SCALE;

    assert!((cpc_uni - 31.3).abs() < 0.1, "univariate CPC was {}", cpc_uni);
    assert!((cpc_joined - 23.6).abs() < 0.1, "joined CPC was {}", cpc_joined);
}

#[test]
fn model_complexity() {
    let genome = Genome::with_bool_domain(4);
    let population = mdl_population();

    let univariate_model = MultivariateModel::estimate_from_population(
        &genome,
        &population,
        Factorization::univariate(4),
    );

    let joined_model = MultivariateModel::estimate_from_population(
        &genome,
        &population,
        Factorization::univariate(4).join(0, 2),
    );

    let mc_uni = univariate_model.model_complexity() as f64 / SCALE;
    let mc_joined = joined_model.model_complexity() as f64 / SCALE;

    assert!((mc_uni - 12.7).abs() < 0.1, "univariate MC was {}", mc_uni);
    assert!((mc_joined - 15.8).abs() < 0.1, "joined MC was {}", mc_joined);
}

#[test]
fn multivariate_joint_probabilities_sum_to_sample_size() {
    let genome = Genome::with_bool_domain(4);
    let population = mdl_population();
    let model = MultivariateModel::estimate_from_population(
        &genome,
        &population,
        Factorization::univariate(4).join(1, 3),
    );
    // Every factor's counts sum to the sample size, so its
    // probabilities sum to one exactly.
    let fact_len = model.factorization().len();
    for f in 0..fact_len {
        let outcomes = model.factorization().iter()[f]
            .iter()
            .map(|_| 2usize)
            .product::<usize>();
        let mut total = 0usize;
        for k in 0..outcomes {
            let (c, n) = model.probability(f, k);
            assert_eq!(n, 8);
            total += c;
        }
        assert_eq!(total, 8);
    }
}

#[test]
fn multivariate_sample_keeps_joined_outcomes() {
    // Positions 0 and 1 only ever occur as (false,true) or (true,false);
    // samples from the fitted joint model may never emit the outcomes
    // that had probability zero.
    let genome = Genome::with_bool_domain(3);
    let mut population = Vec::new();
    for i in 0..8 {
        let first = i % 4 == 0;
        population.push(Individual::from_genotype(bools(&[first, !first, i % 2 == 0])));
    }
    let model = MultivariateModel::estimate_from_population(
        &genome,
        &population,
        Factorization::univariate(3).join(0, 1),
    );
    let mut rng = rand::rng();
    for _ in 0..50 {
        let g = model.sample(&genome, &mut rng);
        let b0 = g[0] == Allele::Bool(true);
        let b1 = g[1] == Allele::Bool(true);
        assert!(b0 != b1);
    }
}

#[test]
fn evaluator_counts_and_orders() {
    let mut evaluator = FitnessEvaluator::new(OneMaxFunction, OptimizationGoal::Maximize);
    assert_eq!(evaluator.evaluations(), 0);
    let mut idv = Individual::from_genotype(bools(&[true, true, false]));
    let f = evaluator.evaluate(&mut idv);
    assert_eq!(f, 2);
    assert_eq!(idv.fitness(), 2);
    assert_eq!(evaluator.evaluations(), 1);
    // Under Maximize, better (larger) is Less.
    assert_eq!(evaluator.cmp(&3, &1), std::cmp::Ordering::Less);
    assert_eq!(evaluator.cmp(&1, &3), std::cmp::Ordering::Greater);
    assert_eq!(evaluator.cmp(&2, &2), std::cmp::Ordering::Equal);
}

#[test]
fn fitness_formulas() {
    let g = bools(&[true, false, true, true, false]);
    assert_eq!(one_max(&g), 3);
    assert_eq!(one_max_raw(&vec![true, false, true]), 2);
    // Blocks of 4: all-false scores 4, all-true scores 0, else the count.
    let trap = bools(&[
        false, false, false, false, // 4
        true, true, true, true, // 0
        true, false, true, false, // 2
    ]);
    assert_eq!(deceptive_trap(&trap, 4), 6);
}

#[test]
fn log2_fixed_point_values() {
    assert_eq!(log2_fp(1), 0);
    assert_eq!(log2_fp(2), LOG_ONE);
    assert_eq!(log2_fp(8), 3 * LOG_ONE);
    let approx = log2_fp(10) as f64 / LOG_ONE as f64;
    assert!((approx - 3.321928).abs() < 1e-5, "log2(10) was {}", approx);
}

#[test]
fn multivariate_model_with_one_joined_factor() {
    const N: usize = 10;

    let genome = Genome::with_bool_domain(N);

    // Factorization: [(0,1), 2, 3, 4, 5, 6, 7, 8, 9].
    let factorization = Factorization::univariate(N).join(0, 1);

    let mut rng = rand::rng();

    // A random population whose first two variables are (false,true) a
    // quarter of the time and (true,false) otherwise.
    let population: Vec<Individual> = (0..100000)
        .map(|_| {
            let mut genotype = genome.sample_uniform(&mut rng);
            if rand::RngExt::random_bool(&mut rng, 0.25) {
                genotype[0] = Allele::Bool(false);
                genotype[1] = Allele::Bool(true);
            } else {
                genotype[0] = Allele::Bool(true);
                genotype[1] = Allele::Bool(false);
            }
            Individual::from_genotype(genotype)
        })
        .collect();

    let model = MultivariateModel::estimate_from_population(&genome, &population, factorization);

    let mut counts = vec![0usize; N - 2];

    let mut count_00 = 0usize;
    let mut count_01 = 0usize;
    let mut count_10 = 0usize;
    let mut count_11 = 0usize;

    const SAMPLE_SIZE: usize = 100000;

    for _ in 0..SAMPLE_SIZE {
        let sample = model.sample(&genome, &mut rng);

        let b0 = sample[0] == Allele::Bool(true);
        let b1 = sample[1] == Allele::Bool(true);
        match (b0, b1) {
            (false, false) => count_00 += 1,
            (false, true) => count_01 += 1,
            (true, false) => count_10 += 1,
            (true, true) => count_11 += 1,
        }

        for i in 2..N {
            if sample[i] == Allele::Bool(true) {
                counts[i - 2] += 1;
            }
        }
    }

    assert_eq!(count_00, 0);
    assert_eq!(count_11, 0);
    assert!((count_01 as f64 / SAMPLE_SIZE as f64 - 0.25).abs() < 0.01);
    assert!((count_10 as f64 / SAMPLE_SIZE as f64 - 0.75).abs() < 0.01);

    for count in counts {
        assert!((count as f64 / SAMPLE_SIZE as f64 - 0.5).abs() < 0.01);
    }
}

#[test]
fn join_accepts_either_index_order() {
    let f = Factorization::univariate(4);
    // Joining (2, 0) removes both factors and appends their
    // concatenation in argument order.
    let joined = f.join(2, 0);
    assert_eq!(joined.iter(), vec![vec![1], vec![3], vec![2, 0]]);
}
