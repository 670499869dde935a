//! The generational driver: evaluate, check the target, variate, select,
//! until the evaluation budget is spent; and the builder that assembles a
//! run.

use vstd::prelude::*;
use core::cmp::Ordering;
use crate::fitness::{FitnessEvaluator, FitnessFunc, OptimizationGoal, spec_better, spec_better_eq};
use crate::gene::Allele;
use crate::genome::Genome;
use crate::individual::Individual;
use crate::rng::fresh_rng;
use crate::selection::{SelectionOperator, all_evaluated, pop_genos};
use crate::variation::VariationOperator;

verus! {

/// How a run ended: the target fitness was reached, or the evaluation
/// budget was spent.  Either way the payload is the total number of
/// evaluations performed.
#[derive(Clone, Copy, PartialEq, Eq, Structural, Debug)]
pub enum Status {
    TargetReached(usize),
    BudgetReached(usize),
}

/// A failure to assemble a run: a mandatory collaborator is missing.
#[derive(Clone, Copy, PartialEq, Eq, Structural, Debug)]
pub enum BuildError {
    Configuration,
}

/// The evolutionary driver: an owned population, the counting evaluator,
/// one selection and one variation operator, and an optional target
/// fitness.
pub struct SimpleGA<FF: FitnessFunc, S: SelectionOperator, V: VariationOperator> {
    population: Vec<Individual>,
    fitness_func: FitnessEvaluator<FF>,
    selection_operator: S,
    variation_operator: V,
    target_fitness: Option<i64>,
    verbose: bool,
}

impl<FF: FitnessFunc, S: SelectionOperator, V: VariationOperator> SimpleGA<FF, S, V> {
    /// The current population.
    pub closed spec fn pop(&self) -> Seq<Individual> {
        self.population@
    }

    /// The evaluator.
    pub closed spec fn func(&self) -> FitnessEvaluator<FF> {
        self.fitness_func
    }

    /// The configured target fitness, if any.
    pub closed spec fn target(&self) -> Option<i64> {
        self.target_fitness
    }

    /// The configured operators.
    pub closed spec fn ops(&self) -> (S, V) {
        (self.selection_operator, self.variation_operator)
    }

    /// A runnable configuration: the variation operator is sound and
    /// accepts the population, every individual's genotype obeys the
    /// operator's discipline, and the selection operator accepts the
    /// offspring volume the variation operator produces.
    pub open spec fn wf(&self) -> bool {
        &&& self.ops().1.wf()
        &&& self.ops().1.pop_len_ok(self.pop().len())
        &&& forall|i: int| 0 <= i < self.pop().len() ==> self.ops().1.idv_ok((#[trigger] self.pop()[i]).geno())
        &&& self.ops().0.select_requires(
            self.pop().len(),
            self.ops().1.offspring_count(self.pop().len()),
        )
        &&& self.ops().0.select_ok(
            self.pop().len(),
            self.ops().1.offspring_count(self.pop().len()),
        )
    }

    /// The current evaluation count.
    pub fn evaluations(&self) -> (r: usize)
        ensures
            r == self.func().evals(),
    {
        self.fitness_func.evaluations()
    }

    /// The index of a best (respectively worst) individual: one whose
    /// fitness no other individual beats (respectively undercuts) under
    /// the goal ordering; `None` exactly on an empty population.
    fn extreme_index(&self, best: bool) -> (r: Option<usize>)
        requires
            all_evaluated(self.pop()),
        ensures
            r is Some <==> self.pop().len() > 0,
            match r {
                Some(i) => i < self.pop().len() && forall|j: int|
                    0 <= j < self.pop().len() ==> if best {
                        !spec_better(
                            self.func().spec_goal(),
                            (#[trigger] self.pop()[j]).fit().unwrap(),
                            self.pop()[i as int].fit().unwrap(),
                        )
                    } else {
                        !spec_better(
                            self.func().spec_goal(),
                            self.pop()[i as int].fit().unwrap(),
                            (#[trigger] self.pop()[j]).fit().unwrap(),
                        )
                    },
                None => true,
            },
    {
        let n = self.population.len();
        if n == 0 {
            return None;
        }
        let mut cur: usize = 0;
        let mut j: usize = 1;
        while j < n
            invariant
                cur < j <= n,
                n == self.pop().len(),
                all_evaluated(self.pop()),
                forall|m: int|
                    0 <= m < j ==> if best {
                        !spec_better(
                            self.func().spec_goal(),
                            (#[trigger] self.pop()[m]).fit().unwrap(),
                            self.pop()[cur as int].fit().unwrap(),
                        )
                    } else {
                        !spec_better(
                            self.func().spec_goal(),
                            self.pop()[cur as int].fit().unwrap(),
                            (#[trigger] self.pop()[m]).fit().unwrap(),
                        )
                    },
            decreases n - j,
        {
            let fj = self.population[j].fitness();
            let fc = self.population[cur].fitness();
            let c = self.fitness_func.cmp(&fj, &fc);
            if best {
                if matches!(c, Ordering::Less) {
                    cur = j;
                }
            } else {
                if matches!(c, Ordering::Greater) {
                    cur = j;
                }
            }
            j = j + 1;
        }
        Some(cur)
    }

    /// A best individual of the population under the goal ordering, or
    /// `None` on an empty population.
    pub fn best_individual(&self) -> (r: Option<&Individual>)
        requires
            all_evaluated(self.pop()),
        ensures
            r is Some <==> self.pop().len() > 0,
            match r {
                Some(idv) => self.pop().contains(*idv) && forall|j: int|
                    0 <= j < self.pop().len() ==> !spec_better(
                        self.func().spec_goal(),
                        (#[trigger] self.pop()[j]).fit().unwrap(),
                        idv.fit().unwrap(),
                    ),
                None => true,
            },
    {
        match self.extreme_index(true) {
            None => None,
            Some(i) => {
                proof {
                    assert(self.pop().contains(self.pop()[i as int]));
                }
                Some(&self.population[i])
            },
        }
    }

    /// A worst individual of the population under the goal ordering, or
    /// `None` on an empty population.
    pub fn worst_individual(&self) -> (r: Option<&Individual>)
        requires
            all_evaluated(self.pop()),
        ensures
            r is Some <==> self.pop().len() > 0,
            match r {
                Some(idv) => self.pop().contains(*idv) && forall|j: int|
                    0 <= j < self.pop().len() ==> !spec_better(
                        self.func().spec_goal(),
                        idv.fit().unwrap(),
                        (#[trigger] self.pop()[j]).fit().unwrap(),
                    ),
                None => true,
            },
    {
        match self.extreme_index(false) {
            None => None,
            Some(i) => {
                proof {
                    assert(self.pop().contains(self.pop()[i as int]));
                }
                Some(&self.population[i])
            },
        }
    }

    /// Runs the generational loop: first every individual is evaluated
    /// once; then, while the budget is not spent, the run stops with
    /// `TargetReached` as soon as some individual is at least as good as
    /// the configured target, and otherwise offspring are produced,
    /// evaluated and folded back by selection.  The population size
    /// never changes, and the total number of evaluations never exceeds
    /// the budget plus one initial evaluation per individual.
    pub fn run(&mut self, evaluation_budget: usize) -> (r: Status)
        requires
            old(self).wf(),
            old(self).pop().len() >= 1,
            old(self).ops().1.offspring_count(old(self).pop().len()) >= 1,
            old(self).func().evals() + old(self).pop().len() <= usize::MAX,
            evaluation_budget + old(self).pop().len() <= usize::MAX,
        ensures
            final(self).wf(),
            final(self).pop().len() == old(self).pop().len(),
            all_evaluated(final(self).pop()),
            final(self).target() == old(self).target(),
            final(self).func().spec_goal() == old(self).func().spec_goal(),
            final(self).func().evals() >= old(self).func().evals() + old(self).pop().len(),
            final(self).func().evals() <= old(self).func().evals() + old(self).pop().len()
                || final(self).func().evals() < evaluation_budget + old(self).pop().len(),
            match r {
                Status::TargetReached(e) => e == final(self).func().evals() && old(
                    self,
                ).target() is Some && exists|i: int|
                    0 <= i < final(self).pop().len() && spec_better_eq(
                        final(self).func().spec_goal(),
                        (#[trigger] final(self).pop()[i]).fit().unwrap(),
                        old(self).target().unwrap(),
                    ),
                Status::BudgetReached(e) => e == final(self).func().evals() && e
                    >= evaluation_budget,
            },
    {
        let ghost start_evals = self.fitness_func.evals();
        let ghost pop_len = self.pop().len();
        let n = self.population.len();
        let mut i: usize = 0;
        while i < n
            invariant
                i <= n,
                n == self.pop().len(),
                n == pop_len,
                pop_len == old(self).pop().len(),
                start_evals == old(self).func().evals(),
                self.wf(),
                self.ops() == old(self).ops(),
                self.target() == old(self).target(),
                self.func().spec_goal() == old(self).func().spec_goal(),
                self.func().evals() == start_evals + i,
                start_evals + n <= usize::MAX,
                forall|j: int| 0 <= j < i ==> (#[trigger] self.pop()[j]).evaluated(),
            decreases n - i,
        {
            let ghost pre = self.population@;
            let mut idv = self.population.remove(i);
            self.fitness_func.evaluate(&mut idv);
            self.population.insert(i, idv);
            proof {
                pre.remove(i as int).insert_ensures(i as int, idv);
                assert(self.population@ =~= pre.update(i as int, idv));
                assert forall|j: int|
                    0 <= j < self.pop().len() implies self.ops().1.idv_ok(
                    (#[trigger] self.pop()[j]).geno(),
                ) by {
                    if j != i {
                        assert(self.pop()[j] == pre[j]);
                    }
                }
            }
            i = i + 1;
        }
        while self.fitness_func.evaluations() < evaluation_budget
            invariant
                self.wf(),
                self.pop().len() == pop_len,
                pop_len >= 1,
                pop_len == old(self).pop().len(),
                start_evals == old(self).func().evals(),
                self.ops() == old(self).ops(),
                self.target() == old(self).target(),
                self.func().spec_goal() == old(self).func().spec_goal(),
                all_evaluated(self.pop()),
                self.func().evals() >= start_evals + pop_len,
                self.func().evals() <= start_evals + pop_len || self.func().evals()
                    < evaluation_budget + pop_len,
                evaluation_budget + pop_len <= usize::MAX,
                self.ops().1.offspring_count(pop_len) >= 1,
            decreases (if self.func().evals() < evaluation_budget {
                evaluation_budget - self.func().evals()
            } else {
                0int
            }),
        {
            // Termination by target.
            if self.target_fitness.is_some() {
                let target = self.target_fitness.unwrap();
                let best = self.extreme_index(true);
                if best.is_some() {
                    let bi = best.unwrap();
                    let bf = self.population[bi].fitness();
                    let c = self.fitness_func.cmp(&bf, &target);
                    if matches!(c, Ordering::Less | Ordering::Equal) {
                        proof {
                            assert(spec_better_eq(
                                self.func().spec_goal(),
                                self.pop()[bi as int].fit().unwrap(),
                                target,
                            ));
                        }
                        return Status::TargetReached(self.fitness_func.evaluations());
                    }
                }
            }
            // Variation.
            proof {
                self.variation_operator.lemma_offspring_count(self.pop().len());
            }
            let ghost pre_pop = self.population@;
            let offspring = self.variation_operator.create_offspring(
                &self.population,
                &mut self.fitness_func,
            );
            let ghost offv = offspring@;
            proof {
                assert(offv.len() >= 1);
            }
            // Selection.
            let sr = self.selection_operator.select(
                &mut self.population,
                offspring,
                &self.fitness_func,
            );
            proof {
                assert(sr is Ok);
                assert forall|j: int|
                    0 <= j < self.pop().len() implies self.ops().1.idv_ok(
                    (#[trigger] self.pop()[j]).geno(),
                ) by {
                    if pop_genos(pre_pop).contains(self.pop()[j].geno()) {
                        let w = choose|w: int|
                            0 <= w < pop_genos(pre_pop).len() && pop_genos(pre_pop)[w]
                                == self.pop()[j].geno();
                        assert(pre_pop[w].geno() == self.pop()[j].geno());
                    } else {
                        let w = choose|w: int|
                            0 <= w < pop_genos(offv).len() && pop_genos(offv)[w]
                                == self.pop()[j].geno();
                        assert(offv[w].geno() == self.pop()[j].geno());
                    }
                }
            }
        }
        Status::BudgetReached(self.fitness_func.evaluations())
    }
}

/// Assembles a run from its collaborators; building without a
/// population, evaluation function, selection operator or variation
/// operator is a configuration error.
pub struct SimpleGABuilder<FF: FitnessFunc, S: SelectionOperator, V: VariationOperator> {
    genome: Option<Genome>,
    population: Option<Vec<Individual>>,
    evaluation_func: Option<FF>,
    goal: OptimizationGoal,
    selection_operator: Option<S>,
    variation_operator: Option<V>,
    target_fitness: Option<i64>,
    verbose: bool,
}

impl<FF: FitnessFunc, S: SelectionOperator, V: VariationOperator> SimpleGABuilder<FF, S, V> {
    /// The stored genome, population, function and operators.
    pub closed spec fn parts(&self) -> (
        Option<Genome>,
        Option<Seq<Individual>>,
        Option<FF>,
        OptimizationGoal,
        Option<S>,
        Option<V>,
        Option<i64>,
    ) {
        (
            self.genome,
            match self.population {
                Some(p) => Some(p@),
                None => None,
            },
            self.evaluation_func,
            self.goal,
            self.selection_operator,
            self.variation_operator,
            self.target_fitness,
        )
    }

    /// An empty builder: no collaborators, goal `Minimize`, not verbose.
    pub fn new() -> (r: Self)
        ensures
            r.parts().0 is None,
            r.parts().1 is None,
            r.parts().2 is None,
            r.parts().3 == OptimizationGoal::Minimize,
            r.parts().4 is None,
            r.parts().5 is None,
            r.parts().6 is None,
    {
        SimpleGABuilder {
            genome: None,
            population: None,
            evaluation_func: None,
            goal: OptimizationGoal::Minimize,
            selection_operator: None,
            variation_operator: None,
            target_fitness: None,
            verbose: false,
        }
    }

    /// Sets the genome used to draw random populations.
    pub fn genome(self, genome: Genome) -> (r: Self)
        ensures
            r.parts().0 == Some(genome),
            r.parts().1 == self.parts().1,
            r.parts().2 == self.parts().2,
            r.parts().3 == self.parts().3,
            r.parts().4 == self.parts().4,
            r.parts().5 == self.parts().5,
            r.parts().6 == self.parts().6,
    {
        SimpleGABuilder { genome: Some(genome), ..self }
    }

    /// Sets the population to the given genotypes, unevaluated.
    pub fn with_population(self, genotypes: Vec<Vec<Allele>>) -> (r: Self)
        ensures
            r.parts().1 is Some,
            r.parts().1.unwrap().len() == genotypes@.len(),
            forall|i: int|
                0 <= i < genotypes@.len() ==> (#[trigger] r.parts().1.unwrap()[i]).geno()
                    == genotypes@[i]@ && !r.parts().1.unwrap()[i].evaluated(),
            r.parts().0 == self.parts().0,
            r.parts().2 == self.parts().2,
            r.parts().3 == self.parts().3,
            r.parts().4 == self.parts().4,
            r.parts().5 == self.parts().5,
            r.parts().6 == self.parts().6,
    {
        let n = genotypes.len();
        let ghost g0 = genotypes@;
        let mut population: Vec<Individual> = Vec::new();
        let mut gs = genotypes;
        let mut i: usize = 0;
        while i < n
            invariant
                i <= n,
                n == g0.len(),
                gs@ =~= g0.skip(i as int),
                population@.len() == i,
                forall|j: int|
                    0 <= j < i ==> (#[trigger] population@[j]).geno() == g0[j]@
                        && !population@[j].evaluated(),
            decreases n - i,
        {
            let g = gs.remove(0);
            proof {
                assert(g0.skip(i as int)[0] == g0[i as int]);
                assert(g0.skip(i as int).remove(0) =~= g0.skip(i + 1));
            }
            population.push(Individual::from_genotype(g));
            i = i + 1;
        }
        SimpleGABuilder { population: Some(population), ..self }
    }

    /// Draws `size` individuals uniformly from the genome.
    pub fn random_population(self, size: usize) -> (r: Self)
        requires
            self.parts().0 is Some,
            self.parts().0.unwrap().wf(),
        ensures
            r.parts().1 is Some,
            r.parts().1.unwrap().len() == size,
            forall|i: int|
                0 <= i < size ==> self.parts().0.unwrap().genotype_valid(
                    (#[trigger] r.parts().1.unwrap()[i]).geno(),
                ) && !r.parts().1.unwrap()[i].evaluated(),
            r.parts().0 == self.parts().0,
            r.parts().2 == self.parts().2,
            r.parts().3 == self.parts().3,
            r.parts().4 == self.parts().4,
            r.parts().5 == self.parts().5,
            r.parts().6 == self.parts().6,
    {
        let genome = self.genome.as_ref().unwrap();
        let mut rng = fresh_rng();
        let mut population: Vec<Individual> = Vec::new();
        let mut i: usize = 0;
        while i < size
            invariant
                i <= size,
                population@.len() == i,
                genome.wf(),
                genome == self.parts().0.unwrap(),
                forall|j: int|
                    0 <= j < i ==> genome.genotype_valid((#[trigger] population@[j]).geno())
                        && !population@[j].evaluated(),
            decreases size - i,
        {
            let idv = Individual::sample_uniform(&mut rng, genome);
            population.push(idv);
            i = i + 1;
        }
        SimpleGABuilder { population: Some(population), ..self }
    }

    /// Sets the optimization goal.
    pub fn goal(self, goal: OptimizationGoal) -> (r: Self)
        ensures
            r.parts().3 == goal,
            r.parts().0 == self.parts().0,
            r.parts().1 == self.parts().1,
            r.parts().2 == self.parts().2,
            r.parts().4 == self.parts().4,
            r.parts().5 == self.parts().5,
            r.parts().6 == self.parts().6,
    {
        SimpleGABuilder { goal, ..self }
    }

    /// Sets the fitness function.
    pub fn evaluation_function(self, func: FF) -> (r: Self)
        ensures
            r.parts().2 == Some(func),
            r.parts().0 == self.parts().0,
            r.parts().1 == self.parts().1,
            r.parts().3 == self.parts().3,
            r.parts().4 == self.parts().4,
            r.parts().5 == self.parts().5,
            r.parts().6 == self.parts().6,
    {
        SimpleGABuilder { evaluation_func: Some(func), ..self }
    }

    /// Sets the selection operator.
    pub fn selection(self, operator: S) -> (r: Self)
        ensures
            r.parts().4 == Some(operator),
            r.parts().0 == self.parts().0,
            r.parts().1 == self.parts().1,
            r.parts().2 == self.parts().2,
            r.parts().3 == self.parts().3,
            r.parts().5 == self.parts().5,
            r.parts().6 == self.parts().6,
    {
        SimpleGABuilder { selection_operator: Some(operator), ..self }
    }

    /// Sets the variation operator.
    pub fn variation(self, operator: V) -> (r: Self)
        ensures
            r.parts().5 == Some(operator),
            r.parts().0 == self.parts().0,
            r.parts().1 == self.parts().1,
            r.parts().2 == self.parts().2,
            r.parts().3 == self.parts().3,
            r.parts().4 == self.parts().4,
            r.parts().6 == self.parts().6,
    {
        SimpleGABuilder { variation_operator: Some(operator), ..self }
    }

    /// Sets the target fitness.
    pub fn target(self, fitness: i64) -> (r: Self)
        ensures
            r.parts().6 == Some(fitness),
            r.parts().0 == self.parts().0,
            r.parts().1 == self.parts().1,
            r.parts().2 == self.parts().2,
            r.parts().3 == self.parts().3,
            r.parts().4 == self.parts().4,
            r.parts().5 == self.parts().5,
    {
        SimpleGABuilder { target_fitness: Some(fitness), ..self }
    }

    /// Sets the verbosity flag (reporting is the caller's concern; the
    /// flag only travels with the configuration).
    pub fn verbose(self, verbose: bool) -> (r: Self)
        ensures
            r.parts() == self.parts(),
    {
        SimpleGABuilder { verbose, ..self }
    }

    /// Assembles the driver; fails with a configuration error exactly
    /// when the population, evaluation function, selection operator or
    /// variation operator is missing.
    pub fn build(self) -> (r: Result<SimpleGA<FF, S, V>, BuildError>)
        ensures
            r is Ok <==> (self.parts().1 is Some && self.parts().2 is Some && self.parts().4 is Some
                && self.parts().5 is Some),
            match r {
                Ok(ga) => {
                    &&& ga.pop() == self.parts().1.unwrap()
                    &&& ga.func().evals() == 0
                    &&& ga.func().spec_goal() == self.parts().3
                    &&& ga.func().spec_func() == self.parts().2.unwrap()
                    &&& ga.ops().0 == self.parts().4.unwrap()
                    &&& ga.ops().1 == self.parts().5.unwrap()
                    &&& ga.target() == self.parts().6
                },
                Err(e) => e == BuildError::Configuration,
            },
    {
        let population = match self.population {
            Some(p) => p,
            None => {
                return Err(BuildError::Configuration);
            },
        };
        let evaluation_func = match self.evaluation_func {
            Some(f) => f,
            None => {
                return Err(BuildError::Configuration);
            },
        };
        let selection_operator = match self.selection_operator {
            Some(s) => s,
            None => {
                return Err(BuildError::Configuration);
            },
        };
        let variation_operator = match self.variation_operator {
            Some(v) => v,
            None => {
                return Err(BuildError::Configuration);
            },
        };
        let fitness_func = FitnessEvaluator::new(evaluation_func, self.goal);
        Ok(
            SimpleGA {
                population,
                fitness_func,
                selection_operator,
                variation_operator,
                target_fitness: self.target_fitness,
                verbose: self.verbose,
            },
        )
    }
}

} // verus!
