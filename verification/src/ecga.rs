//! The extended compact genetic algorithm: greedy MDL-guided linkage
//! learning over factorizations, and the variation operator built on it.

use vstd::prelude::*;
use crate::fitness::{FitnessEvaluator, FitnessFunc};
use crate::gene::Allele;
use crate::genome::Genome;
use crate::individual::Individual;
use crate::model::{
    Factorization, MultivariateModel, is_partition, joint_size, pair_index, sizes_fit, sizes_ok,
    spec_cc_of, spec_join, lemma_fitted_counts, pop_genotypes, lemma_prefix_prod_bounds,
    lemma_partition_in_range, lemma_pair_index_surjective, lemma_join_preserves_partition,
};
use crate::rng::fresh_rng;
use crate::selection::{all_evaluated, pop_genos, pop_sigs, sort_by_fitness, sorted_by_goal};
use crate::variation::VariationOperator;

verus! {

broadcast use vstd::seq_lib::group_to_multiset_ensures;

/// The ECGA variation operator: selects the best fraction of the
/// population, learns a factorization by greedy MDL merging, samples one
/// child per parent from the learned multivariate model, and evaluates
/// each child.
#[derive(Debug)]
pub struct Ecga {
    pub genome: Genome,
    pub p_best_num: u32,
    pub p_best_den: u32,
}

impl Ecga {
    /// An operator over the given genome that fits its models to the
    /// best `p_best_num / p_best_den` fraction of the population.
    pub fn with_genome(genome: Genome, p_best_num: u32, p_best_den: u32) -> (r: Self)
        requires
            genome.wf(),
            1 <= genome@.len() <= u32::MAX,
            forall|i: int| 0 <= i < genome@.len() ==> (#[trigger] genome@[i]).len() <= u32::MAX,
            1 <= p_best_den,
            p_best_num <= p_best_den,
        ensures
            r.wf(),
            r.genome@ == genome@,
    {
        Ecga { genome, p_best_num, p_best_den }
    }

    /// Sorts the population from best to worst and keeps the top
    /// `p_best` fraction: exactly `floor(|population| * p_best)`
    /// individuals.  The fraction must select at least one individual
    /// (fitting a model to an empty selection is the empty-population
    /// programming error).  The kept individuals are a prefix of a
    /// goal-ordered arrangement of the whole population, so no left-out
    /// member beats a kept one.
    pub fn select_individuals<FF: FitnessFunc>(
        &self,
        population: &Vec<Individual>,
        fitness_func: &FitnessEvaluator<FF>,
    ) -> (r: Vec<Individual>)
        requires
            self.wf(),
            1 <= population@.len() <= u32::MAX,
            population@.len() * self.p_best_num / (self.p_best_den as int) >= 1,
            all_evaluated(population@),
        ensures
            1 <= r@.len() <= population@.len(),
            r@.len() == population@.len() * self.p_best_num / (self.p_best_den as int),
            all_evaluated(r@),
            sorted_by_goal(fitness_func.spec_goal(), r@),
            exists|s: Seq<Individual>|
                #![trigger pop_sigs(s)]
                pop_sigs(s).to_multiset() == pop_sigs(population@).to_multiset()
                    && sorted_by_goal(fitness_func.spec_goal(), s) && r@ == s.take(
                    r@.len() as int,
                ),
            forall|i: int|
                0 <= i < r@.len() ==> pop_genos(population@).contains((#[trigger] r@[i]).geno()),
    {
        let n = population.len();
        let mut copy: Vec<Individual> = Vec::new();
        let mut i: usize = 0;
        while i < n
            invariant
                i <= n,
                n == population@.len(),
                copy@.len() == i,
                all_evaluated(population@),
                all_evaluated(copy@),
                forall|j: int|
                    0 <= j < i ==> pop_genos(population@).contains((#[trigger] copy@[j]).geno()),
                forall|j: int|
                    0 <= j < i ==> crate::selection::sig_of(#[trigger] copy@[j])
                        == crate::selection::sig_of(population@[j]),
            decreases n - i,
        {
            let c = population[i].clone();
            proof {
                assert(pop_genos(population@)[i as int] == population@[i as int].geno());
            }
            copy.push(c);
            i = i + 1;
        }
        let ghost copyv = copy@;
        let sorted = sort_by_fitness(copy, fitness_func);
        let ghost sortedv = sorted@;
        proof {
            assert forall|j: int|
                0 <= j < sorted@.len() implies pop_genos(population@).contains(
                (#[trigger] sorted@[j]).geno(),
            ) by {
                assert(sorted@.to_multiset().contains(sorted@[j]));
                assert(copy@.to_multiset().contains(sorted@[j]));
                assert(copy@.contains(sorted@[j]));
                let w = choose|w: int| 0 <= w < copy@.len() && copy@[w] == sorted@[j];
                assert(pop_genos(population@).contains(copy@[w].geno()));
            }
        }
        proof {
            assert((n as int) * (self.p_best_num as int) <= 0xFFFF_FFFFu64 * 0xFFFF_FFFFu64)
                by (nonlinear_arith)
                requires
                    0 <= n <= u32::MAX,
                    self.p_best_num <= u32::MAX,
            ;
        }
        let take64 = (n as u64) * (self.p_best_num as u64) / (self.p_best_den as u64);
        proof {
            assert((n as int) * (self.p_best_num as int) <= (n as int) * (
            self.p_best_den as int)) by (nonlinear_arith)
                requires
                    self.p_best_num <= self.p_best_den,
                    n >= 0,
            ;
            vstd::arithmetic::div_mod::lemma_div_multiples_vanish(
                n as int,
                self.p_best_den as int,
            );
            vstd::arithmetic::div_mod::lemma_div_is_ordered(
                (n as int) * (self.p_best_num as int),
                (n as int) * (self.p_best_den as int),
                self.p_best_den as int,
            );
            assert((self.p_best_den as int) * (n as int) == (n as int) * (
            self.p_best_den as int)) by (nonlinear_arith);
        }
        let take = take64 as usize;
        let mut out: Vec<Individual> = Vec::new();
        let mut rest = sorted;
        let mut k: usize = 0;
        while k < take
            invariant
                k <= take,
                1 <= take <= sortedv.len(),
                rest@ =~= sortedv.skip(k as int),
                out@.len() == k,
                all_evaluated(sortedv),
                forall|j: int|
                    0 <= j < sortedv.len() ==> pop_genos(population@).contains(
                        (#[trigger] sortedv[j]).geno(),
                    ),
                forall|j: int| 0 <= j < k ==> #[trigger] out@[j] == sortedv[j],
            decreases take - k,
        {
            let c = rest.remove(0);
            proof {
                assert(sortedv.skip(k as int)[0] == sortedv[k as int]);
                assert(sortedv.skip(k as int).remove(0) =~= sortedv.skip(k + 1));
            }
            out.push(c);
            k = k + 1;
        }
        proof {
            assert forall|j: int| 0 <= j < out@.len() implies ((#[trigger] out@[j]).evaluated()
                && pop_genos(population@).contains(out@[j].geno())) by {
                assert(out@[j] == sortedv[j]);
            }
            assert forall|i: int, j: int| 0 <= i < j < out@.len() implies crate::selection::le_at(
                fitness_func.spec_goal(),
                out@,
                i,
                j,
            ) by {
                assert(out@[i] == sortedv[i] && out@[j] == sortedv[j]);
                assert(crate::selection::le_at(fitness_func.spec_goal(), sortedv, i, j));
            }
            crate::selection::lemma_sigs_multiset(sortedv, copyv);
            assert(pop_sigs(copyv) =~= pop_sigs(population@)) by {
                assert forall|j: int|
                    0 <= j < copyv.len() implies #[trigger] pop_sigs(copyv)[j] == pop_sigs(
                    population@,
                )[j] by {
                    assert(crate::selection::sig_of(copyv[j]) == crate::selection::sig_of(
                        population@[j],
                    ));
                }
            }
            assert(out@ == sortedv.take(out@.len() as int));
            assert(pop_sigs(sortedv).to_multiset() == pop_sigs(population@).to_multiset()
                && sorted_by_goal(fitness_func.spec_goal(), sortedv) && out@ == sortedv.take(
                out@.len() as int,
            ));
        }
        out
    }

    /// The greedy MDL linkage search: starting from the univariate
    /// factorization, repeatedly fits a model to every pairwise join of
    /// the current factorization and replaces the current model whenever
    /// the best candidate's combined complexity does not exceed the
    /// current one; stops when every candidate is strictly worse.  The
    /// returned model is fitted to the selected population, its
    /// factorization is a partition, its score never exceeds the
    /// univariate score, and no join of it that fits in the outcome
    /// space scores at or below it.
    pub fn select_model(&self, selected: &Vec<Individual>) -> (r: MultivariateModel)
        requires
            self.wf(),
            1 <= selected@.len() <= u32::MAX,
            forall|p: int|
                0 <= p < selected@.len() ==> self.genome.genotype_valid(
                    (#[trigger] selected@[p]).geno(),
                ),
        ensures
            r.fitted_to(&self.genome, pop_genotypes(selected@)),
            is_partition(r.fact(), self.genome@.len() as int),
            sizes_fit(&self.genome, r.fact()),
            spec_cc_of(&self.genome, pop_genotypes(selected@), r.fact()) <= spec_cc_of(
                &self.genome,
                pop_genotypes(selected@),
                univariate_fact(self.genome@.len() as int),
            ),
            forall|a: int, b: int|
                0 <= a < b < r.fact().len() && sizes_fit(
                    &self.genome,
                    #[trigger] spec_join(r.fact(), a, b),
                ) ==> spec_cc_of(&self.genome, pop_genotypes(selected@), spec_join(r.fact(), a, b))
                    > spec_cc_of(&self.genome, pop_genotypes(selected@), r.fact()),
    {
        let ghost gpop = pop_genotypes(selected@);
        let gl = self.genome.len();
        let f0 = Factorization::univariate(gl);
        proof {
            assert(f0@ =~= univariate_fact(self.genome@.len() as int));
            lemma_univariate_sizes(&self.genome, f0@);
        }
        let mut model = self.fit(selected, f0);
        let mut cc = self.score(selected, &model);
        let ghost cc0 = spec_cc_of(&self.genome, gpop, model.fact());
        loop
            invariant
                self.wf(),
                1 <= selected@.len() <= u32::MAX,
                gpop == pop_genotypes(selected@),
                forall|p: int|
                    0 <= p < selected@.len() ==> self.genome.genotype_valid(
                        (#[trigger] selected@[p]).geno(),
                    ),
                model.fitted_to(&self.genome, gpop),
                is_partition(model.fact(), self.genome@.len() as int),
                sizes_fit(&self.genome, model.fact()),
                cc == spec_cc_of(&self.genome, gpop, model.fact()),
                cc <= cc0,
                cc0 == spec_cc_of(
                    &self.genome,
                    gpop,
                    univariate_fact(self.genome@.len() as int),
                ),
            decreases model.fact().len(),
        {
            let fact = model.factorization();
            let candidates = fact.join_all();
            let ghost factv = model.fact();
            let ncand = candidates.len();
            proof {
                assert(fact@ == factv);
                assert forall|a: int, b: int|
                    0 <= a < b < factv.len() implies #[trigger] pair_index(
                    factv.len() as int,
                    a,
                    b,
                ) < candidates@.len() && candidates@[pair_index(factv.len() as int, a, b)]@
                    == spec_join(factv, a, b) by {
                    assert(pair_index(fact@.len() as int, a, b) < candidates@.len()
                        && candidates@[pair_index(fact@.len() as int, a, b)]@ == spec_join(
                        fact@,
                        a,
                        b,
                    ));
                }
            }
            proof {
                if factv.len() < 2 {
                    assert(factv.len() * (factv.len() - 1) / 2 == 0) by (nonlinear_arith)
                        requires
                            0 <= factv.len() < 2,
                    ;
                }
            }
            let mut best: Option<MultivariateModel> = None;
            let mut best_cc: i128 = 0;
            let mut ci: usize = 0;
            while ci < ncand
                invariant
                    ci <= ncand,
                    self.wf(),
                    1 <= selected@.len() <= u32::MAX,
                    gpop == pop_genotypes(selected@),
                    forall|p: int|
                        0 <= p < selected@.len() ==> self.genome.genotype_valid(
                            (#[trigger] selected@[p]).geno(),
                        ),
                    is_partition(factv, self.genome@.len() as int),
                    factv.len() >= 2 || ncand == 0,
                    candidates@.len() == ncand,
                    ncand == factv.len() * (factv.len() - 1) / 2,
                    forall|a: int, b: int|
                        0 <= a < b < factv.len() ==> #[trigger] pair_index(factv.len() as int, a, b)
                            < candidates@.len() && candidates@[pair_index(
                            factv.len() as int,
                            a,
                            b,
                        )]@ == spec_join(factv, a, b),
                    forall|k: int|
                        0 <= k < ci && sizes_fit(&self.genome, (#[trigger] candidates@[k])@)
                            ==> best is Some && spec_cc_of(&self.genome, gpop, candidates@[k]@)
                            >= best_cc,
                    match best {
                        Some(m) => m.fitted_to(&self.genome, gpop) && is_partition(
                            m.fact(),
                            self.genome@.len() as int,
                        ) && sizes_fit(&self.genome, m.fact()) && best_cc == spec_cc_of(
                            &self.genome,
                            gpop,
                            m.fact(),
                        ) && m.fact().len() == factv.len() - 1,
                        None => true,
                    },
                decreases ncand - ci,
            {
                proof {
                    crate::model::lemma_pair_count_total(factv.len() as int);
                    lemma_pair_index_surjective(factv.len() as int, ci as int);
                    let (a, b) = choose|a: int, b: int|
                        0 <= a < b < factv.len() as int && ci as int == pair_index(
                            factv.len() as int,
                            a,
                            b,
                        );
                    assert(candidates@[ci as int]@ == spec_join(factv, a, b));
                    lemma_join_preserves_partition(factv, self.genome@.len() as int, a, b);
                    assert(is_partition(candidates@[ci as int]@, self.genome@.len() as int));
                    assert(candidates@[ci as int]@.len() == factv.len() - 1);
                }
                let cand = &candidates[ci];
                if sizes_ok(&self.genome, cand) {
                    let cand2 = cand.clone();
                    let m2 = self.fit(selected, cand2);
                    let cc2 = self.score(selected, &m2);
                    let take_it = match &best {
                        None => true,
                        Some(_) => cc2 < best_cc,
                    };
                    if take_it {
                        best = Some(m2);
                        best_cc = cc2;
                    }
                }
                ci = ci + 1;
            }
            match best {
                None => {
                    proof {
                        assert forall|a: int, b: int|
                            0 <= a < b < model.fact().len() && sizes_fit(
                                &self.genome,
                                #[trigger] spec_join(model.fact(), a, b),
                            ) implies spec_cc_of(
                            &self.genome,
                            gpop,
                            spec_join(model.fact(), a, b),
                        ) > spec_cc_of(&self.genome, gpop, model.fact()) by {
                            crate::model::lemma_pair_index_bounds(factv.len() as int, a, b);
                            crate::model::lemma_pair_count_total(factv.len() as int);
                            let k = pair_index(factv.len() as int, a, b);
                            assert(candidates@[k]@ == spec_join(factv, a, b));
                            assert(sizes_fit(&self.genome, candidates@[k]@));
                            assert(false);
                        }
                    }
                    return model;
                },
                Some(bm) => {
                    if best_cc <= cc {
                        proof {
                            assert(bm.fact().len() < model.fact().len());
                        }
                        model = bm;
                        cc = best_cc;
                    } else {
                        proof {
                            assert forall|a: int, b: int|
                                0 <= a < b < model.fact().len() && sizes_fit(
                                    &self.genome,
                                    #[trigger] spec_join(model.fact(), a, b),
                                ) implies spec_cc_of(
                                &self.genome,
                                gpop,
                                spec_join(model.fact(), a, b),
                            ) > spec_cc_of(&self.genome, gpop, model.fact()) by {
                                crate::model::lemma_pair_index_bounds(factv.len() as int, a, b);
                                crate::model::lemma_pair_count_total(factv.len() as int);
                                let k = pair_index(factv.len() as int, a, b);
                                assert(candidates@[k]@ == spec_join(factv, a, b));
                                assert(sizes_fit(&self.genome, candidates@[k]@));
                                assert(spec_cc_of(&self.genome, gpop, candidates@[k]@) >= best_cc);
                            }
                        }
                        return model;
                    }
                },
            }
        }
    }

    /// Fits a multivariate model to the selected individuals.
    fn fit(&self, selected: &Vec<Individual>, fact: Factorization) -> (r: MultivariateModel)
        requires
            self.wf(),
            1 <= selected@.len() <= u32::MAX,
            forall|p: int|
                0 <= p < selected@.len() ==> self.genome.genotype_valid(
                    (#[trigger] selected@[p]).geno(),
                ),
            is_partition(fact@, self.genome@.len() as int),
            sizes_fit(&self.genome, fact@),
        ensures
            r.fact() == fact@,
            r.fitted_to(&self.genome, pop_genotypes(selected@)),
    {
        proof {
            assert forall|f: int| 0 <= f < fact@.len() implies joint_size(
                self.genome@,
                #[trigger] fact@[f],
            ) <= usize::MAX by {
                assert(joint_size(self.genome@, fact@[f]) <= u32::MAX);
            }
        }
        MultivariateModel::estimate_from_population(&self.genome, selected, fact)
    }

    /// The combined complexity of a fitted model.
    fn score(&self, selected: &Vec<Individual>, m: &MultivariateModel) -> (r: i128)
        requires
            self.wf(),
            1 <= selected@.len() <= u32::MAX,
            m.fitted_to(&self.genome, pop_genotypes(selected@)),
            is_partition(m.fact(), self.genome@.len() as int),
            sizes_fit(&self.genome, m.fact()),
        ensures
            r == spec_cc_of(&self.genome, pop_genotypes(selected@), m.fact()),
    {
        proof {
            lemma_fitted_counts(m, &self.genome, pop_genotypes(selected@));
            lemma_partition_len(m.fact(), self.genome@.len() as int);
            crate::genome::lemma_genome_nonempty(&self.genome);
            assert forall|f: int| 0 <= f < m.counts_view().len() implies 1 <= (
            #[trigger] m.counts_view()[f]).len() <= u32::MAX by {
                lemma_partition_in_range(m.fact(), self.genome@.len() as int, f);
                lemma_prefix_prod_bounds(self.genome@, m.fact()[f], 0, m.fact()[f].len() as int);
                assert(m.counts_view()[f].len() == joint_size(self.genome@, m.fact()[f]));
            }
        }
        m.combined_complexity()
    }
}

/// The univariate factorization as a spec value.
pub open spec fn univariate_fact(l: int) -> Seq<Seq<usize>> {
    Seq::new(l as nat, |i: int| seq![i as usize])
}

/// The per-factor outcome spaces of the univariate factorization are
/// single domains, so they fit whenever every domain does.
proof fn lemma_univariate_sizes(genome: &Genome, f0: Seq<Seq<usize>>)
    requires
        genome.wf(),
        genome@.len() <= u32::MAX,
        forall|i: int| 0 <= i < genome@.len() ==> (#[trigger] genome@[i]).len() <= u32::MAX,
        f0 == univariate_fact(genome@.len() as int),
    ensures
        sizes_fit(genome, f0),
{
    assert forall|f: int| 0 <= f < f0.len() implies joint_size(genome@, #[trigger] f0[f])
        <= u32::MAX by {
        assert(f0[f] =~= seq![f as usize]);
        assert(f0[f].len() == 1);
        assert(crate::model::prefix_prod(genome@, f0[f], 0) == 1);
        assert(f0[f][0] == f as usize);
        assert(f as usize as int == f);
        assert(crate::model::prefix_prod(genome@, f0[f], 1) == crate::model::prefix_prod(
            genome@,
            f0[f],
            0,
        ) * genome@[f0[f][0] as int].len());
        assert(joint_size(genome@, f0[f]) == genome@[f].len());
    }
}

/// A partition of `l` variables has at most `l` factors.
proof fn lemma_partition_len(fact: Seq<Seq<usize>>, l: int)
    requires
        0 <= l <= u32::MAX,
        is_partition(fact, l),
    ensures
        fact.len() <= l,
{
    lemma_union_size(fact, l);
}

/// The multiset union of non-empty factors has at least one entry per
/// factor, and the range multiset has exactly `l` entries.
proof fn lemma_union_size(fact: Seq<Seq<usize>>, l: int)
    requires
        0 <= l,
        is_partition(fact, l),
    ensures
        fact.len() <= l,
{
    lemma_factors_union_len(fact);
    lemma_range_multiset_len(l);
    assert(crate::model::factors_union(fact).len() == crate::model::range_multiset(l).len());
}

/// The union of non-empty factors holds at least one element per factor.
proof fn lemma_factors_union_len(fact: Seq<Seq<usize>>)
    requires
        forall|i: int| 0 <= i < fact.len() ==> (#[trigger] fact[i]).len() > 0,
    ensures
        crate::model::factors_union(fact).len() >= fact.len(),
    decreases fact.len(),
{
    if fact.len() > 0 {
        assert forall|i: int| 0 <= i < fact.drop_first().len() implies (
        #[trigger] fact.drop_first()[i]).len() > 0 by {
            assert(fact.drop_first()[i] == fact[i + 1]);
        }
        lemma_factors_union_len(fact.drop_first());
        assert(fact[0].to_multiset().len() == fact[0].len());
    }
}

/// The range multiset over `l` indices has `l` entries.
proof fn lemma_range_multiset_len(l: int)
    requires
        0 <= l,
    ensures
        crate::model::range_multiset(l).len() == l,
    decreases l,
{
    if l > 0 {
        lemma_range_multiset_len(l - 1);
    }
}




/// A genotype built from a sub-population whose genotypes all occur in
/// the population is built from the population.
proof fn lemma_built_from_subpopulation(selg: Seq<Seq<Allele>>, popg: Seq<Seq<Allele>>, g: Seq<Allele>)
    requires
        crate::model::built_from(selg, g),
        forall|q: int| 0 <= q < selg.len() ==> popg.contains(#[trigger] selg[q]),
    ensures
        crate::model::built_from(popg, g),
{
    assert forall|i: int| 0 <= i < g.len() implies #[trigger] crate::model::pos_from(
        popg,
        g,
        i,
    ) by {
        assert(crate::model::pos_from(selg, g, i));
        let p = choose|p: int| 0 <= p < selg.len() && g[i] == (#[trigger] selg[p])[i];
        assert(popg.contains(selg[p]));
        let w = choose|w: int| 0 <= w < popg.len() && popg[w] == selg[p];
        assert(0 <= w < popg.len() && g[i] == popg[w][i]);
    }
}

impl VariationOperator for Ecga {
    open spec fn wf(&self) -> bool {
        &&& self.genome.wf()
        &&& 1 <= self.genome@.len() <= u32::MAX
        &&& forall|i: int| 0 <= i < self.genome@.len() ==> (#[trigger] self.genome@[i]).len() <= u32::MAX
        &&& 1 <= self.p_best_den
        &&& self.p_best_num <= self.p_best_den
    }

    open spec fn idv_ok(&self, g: Seq<Allele>) -> bool {
        self.genome.genotype_valid(g)
    }

    open spec fn offspring_count(&self, pop_len: nat) -> nat {
        pop_len
    }

    open spec fn spec_mutates(&self) -> bool {
        false
    }

    open spec fn pop_len_ok(&self, pop_len: nat) -> bool {
        &&& pop_len <= u32::MAX
        &&& pop_len * self.p_best_num / (self.p_best_den as int) >= 1
    }

    /// Each child is sampled from the multivariate model fitted to the
    /// selected sub-population: every one of its alleles occurs, at the
    /// same position, in some member of the input population.
    open spec fn child_ok(&self, pop: Seq<Individual>, g: Seq<Allele>) -> bool {
        crate::variation::alleles_from_population(pop, g)
    }

    proof fn lemma_offspring_count(&self, pop_len: nat) {
    }

    fn create_offspring<FF: FitnessFunc>(
        &self,
        population: &Vec<Individual>,
        fitness_func: &mut FitnessEvaluator<FF>,
    ) -> (r: Vec<Individual>) {
        let selected = self.select_individuals(population, fitness_func);
        proof {
            assert forall|p: int|
                0 <= p < selected@.len() implies self.genome.genotype_valid(
                (#[trigger] selected@[p]).geno(),
            ) by {
                assert(pop_genos(population@).contains(selected@[p].geno()));
                let w = choose|w: int|
                    0 <= w < pop_genos(population@).len() && pop_genos(population@)[w]
                        == selected@[p].geno();
                assert(population@[w].geno() == selected@[p].geno());
            }
            assert forall|q: int|
                0 <= q < pop_genotypes(selected@).len() implies (self.genome.genotype_valid(
                #[trigger] pop_genotypes(selected@)[q],
            ) && pop_genos(population@).contains(pop_genotypes(selected@)[q])) by {
                assert(pop_genotypes(selected@)[q] == selected@[q].geno());
            }
        }
        let model = self.select_model(&selected);
        let ghost selg = pop_genotypes(selected@);
        let n = population.len();
        let mut rng = fresh_rng();
        let mut out: Vec<Individual> = Vec::new();
        let mut i: usize = 0;
        while i < n
            invariant
                i <= n,
                n == population@.len(),
                self.genome.wf(),
                self.genome@.len() <= u32::MAX,
                selg == pop_genotypes(selected@),
                model.fitted_to(&self.genome, selg),
                is_partition(model.fact(), self.genome@.len() as int),
                forall|q: int|
                    0 <= q < selg.len() ==> self.genome.genotype_valid(#[trigger] selg[q]),
                forall|q: int|
                    0 <= q < selg.len() ==> pop_genos(population@).contains(#[trigger] selg[q]),
                out@.len() == i,
                fitness_func.evals() == old(fitness_func).evals() + i,
                fitness_func.spec_goal() == old(fitness_func).spec_goal(),
                fitness_func.spec_func() == old(fitness_func).spec_func(),
                old(fitness_func).evals() + n <= usize::MAX,
                all_evaluated(out@),
                forall|j: int|
                    0 <= j < out@.len() ==> self.genome.genotype_valid(
                        (#[trigger] out@[j]).geno(),
                    ),
                forall|j: int|
                    0 <= j < out@.len() ==> crate::variation::alleles_from_population(
                        population@,
                        (#[trigger] out@[j]).geno(),
                    ),
            decreases n - i,
        {
            let g = model.sample(&self.genome, &mut rng);
            proof {
                crate::model::lemma_multivariate_child_from_population(
                    &model,
                    &self.genome,
                    selg,
                    g@,
                );
                lemma_built_from_subpopulation(selg, pop_genos(population@), g@);
            }
            let mut child = Individual::from_genotype(g);
            fitness_func.evaluate(&mut child);
            out.push(child);
            i = i + 1;
        }
        out
    }

    fn mutates(&self) -> (r: bool) {
        false
    }
}

} // verus!
