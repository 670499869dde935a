//! Variation operators: how offspring are produced from the current
//! population.  Every operator evaluates each child exactly once before
//! returning it, so the evaluation counter advances by exactly the
//! number of children returned.

use vstd::prelude::*;
use crate::fitness::{FitnessEvaluator, FitnessFunc};
use crate::gene::Allele;
use crate::genome::Genome;
use crate::individual::Individual;
use crate::model::UnivariateModel;
use crate::rng::{fresh_rng, rand_below, rand_ratio, shuffle_individuals};
use crate::selection::all_evaluated;

verus! {

broadcast use vstd::seq_lib::group_to_multiset_ensures;

/// Every position of the genotype carries an allele that some member of
/// the population carries at that same position.
pub open spec fn alleles_from_population(pop: Seq<Individual>, g: Seq<Allele>) -> bool {
    crate::model::built_from(crate::model::pop_genotypes(pop), g)
}

/// The genotype is a position-wise mixture of two population members'
/// genotypes under the swap mask `m`: where the mask is set the second
/// parent's allele is taken, elsewhere the first parent's.
pub open spec fn pair_mixture(pop: Seq<Individual>, g: Seq<Allele>, m: Seq<bool>) -> bool {
    exists|a: int, b: int|
        #![trigger pop[a], pop[b]]
        0 <= a < pop.len() && 0 <= b < pop.len() && pop[a].geno().len() == g.len()
            && pop[b].geno().len() == g.len() && forall|i: int|
            0 <= i < g.len() ==> #[trigger] g[i] == if m[i] {
                pop[b].geno()[i]
            } else {
                pop[a].geno()[i]
            }
}

/// Uniform-crossover discipline: the genotype mixes two parents under
/// some per-position swap mask.
pub open spec fn uniform_child(pop: Seq<Individual>, g: Seq<Allele>) -> bool {
    exists|m: Seq<bool>| m.len() == g.len() && #[trigger] pair_mixture(pop, g, m)
}

/// One-point discipline: the genotype mixes two parents under a mask
/// that swaps exactly the suffix after some split point.
pub open spec fn one_point_child(pop: Seq<Individual>, g: Seq<Allele>) -> bool {
    exists|m: Seq<bool>, p: int|
        #![trigger suffix_mask(m, p), pair_mixture(pop, g, m)]
        m.len() == g.len() && 0 <= p <= g.len() && suffix_mask(m, p) && pair_mixture(pop, g, m)
}

/// Two-point discipline: the genotype mixes two parents under a mask
/// that swaps exactly one substring, both ends inclusive.
pub open spec fn two_point_child(pop: Seq<Individual>, g: Seq<Allele>) -> bool {
    exists|m: Seq<bool>, lo: int, hi: int|
        #![trigger range_mask(m, lo, hi), pair_mixture(pop, g, m)]
        m.len() == g.len() && 0 <= lo <= hi <= g.len() && range_mask(m, lo, hi) && pair_mixture(
            pop,
            g,
            m,
        )
}

/// Produces offspring from a population.  The children come back
/// evaluated (exactly one evaluator call each), their number is a
/// function of the population size bounded by it, their genotypes
/// satisfy the operator's genotype discipline, and each child stands in
/// the operator's declared `child_ok` relation to the population it was
/// produced from (a parent copy, or material drawn from the fitted
/// model's support).
pub trait VariationOperator: Sized {
    /// The operator's configuration is sound (for the operators below:
    /// its genome is well-formed).
    spec fn wf(&self) -> bool;

    /// The genotype discipline the operator keeps: what it needs of the
    /// parents' genotypes and guarantees of the children's.
    spec fn idv_ok(&self, g: Seq<Allele>) -> bool;

    /// How many children a population of the given size yields.
    spec fn offspring_count(&self, pop_len: nat) -> nat;

    /// Whether the operator perturbs genotypes beyond recombining and
    /// resampling parent material.
    spec fn spec_mutates(&self) -> bool;

    /// The population sizes the operator can work with.
    spec fn pop_len_ok(&self, pop_len: nat) -> bool;

    /// What the operator guarantees of each child's genotype, relative
    /// to the population the child was produced from.
    spec fn child_ok(&self, pop: Seq<Individual>, g: Seq<Allele>) -> bool;

    /// The number of children never exceeds the population size.
    proof fn lemma_offspring_count(&self, pop_len: nat)
        ensures
            self.offspring_count(pop_len) <= pop_len,
    ;

    /// Produces and evaluates the offspring.
    fn create_offspring<FF: FitnessFunc>(
        &self,
        population: &Vec<Individual>,
        fitness_func: &mut FitnessEvaluator<FF>,
    ) -> (r: Vec<Individual>)
        requires
            self.wf(),
            population@.len() > 0,
            self.pop_len_ok(population@.len() as nat),
            all_evaluated(population@),
            forall|i: int| 0 <= i < population@.len() ==> self.idv_ok((#[trigger] population@[i]).geno()),
            old(fitness_func).evals() + population@.len() <= usize::MAX,
        ensures
            r@.len() == self.offspring_count(population@.len() as nat),
            final(fitness_func).evals() == old(fitness_func).evals() + r@.len(),
            final(fitness_func).spec_goal() == old(fitness_func).spec_goal(),
            final(fitness_func).spec_func() == old(fitness_func).spec_func(),
            all_evaluated(r@),
            forall|i: int| 0 <= i < r@.len() ==> self.idv_ok((#[trigger] r@[i]).geno()),
            forall|i: int| 0 <= i < r@.len() ==> self.child_ok(population@, (#[trigger] r@[i]).geno()),
    ;

    /// Declares whether the operator mutates.
    fn mutates(&self) -> (r: bool)
        ensures
            r == self.spec_mutates(),
    ;
}

/// Re-evaluates a copy of every individual and returns the copies.
#[derive(Clone, Copy, Debug)]
pub struct NoVariation;

impl VariationOperator for NoVariation {
    open spec fn wf(&self) -> bool {
        true
    }

    open spec fn idv_ok(&self, g: Seq<Allele>) -> bool {
        true
    }

    open spec fn offspring_count(&self, pop_len: nat) -> nat {
        pop_len
    }

    open spec fn spec_mutates(&self) -> bool {
        false
    }

    open spec fn pop_len_ok(&self, pop_len: nat) -> bool {
        true
    }

    /// Each child is a copy of a parent's genotype.
    open spec fn child_ok(&self, pop: Seq<Individual>, g: Seq<Allele>) -> bool {
        exists|p: int| 0 <= p < pop.len() && (#[trigger] pop[p]).geno() == g
    }

    proof fn lemma_offspring_count(&self, pop_len: nat) {
    }

    fn create_offspring<FF: FitnessFunc>(
        &self,
        population: &Vec<Individual>,
        fitness_func: &mut FitnessEvaluator<FF>,
    ) -> (r: Vec<Individual>) {
        let n = population.len();
        let mut out: Vec<Individual> = Vec::new();
        let mut i: usize = 0;
        while i < n
            invariant
                i <= n,
                n == population@.len(),
                out@.len() == i,
                fitness_func.evals() == old(fitness_func).evals() + i,
                fitness_func.spec_goal() == old(fitness_func).spec_goal(),
                fitness_func.spec_func() == old(fitness_func).spec_func(),
                old(fitness_func).evals() + n <= usize::MAX,
                all_evaluated(out@),
                forall|j: int|
                    0 <= j < i ==> self.child_ok(population@, (#[trigger] out@[j]).geno()),
            decreases n - i,
        {
            let mut child = population[i].clone();
            fitness_func.evaluate(&mut child);
            proof {
                assert(population@[i as int].geno() == child.geno());
                assert(self.child_ok(population@, child.geno()));
            }
            out.push(child);
            i = i + 1;
        }
        out
    }

    fn mutates(&self) -> (r: bool) {
        false
    }
}

/// Fits a univariate model to the whole population, samples one child
/// per parent from it, and evaluates each child.
#[derive(Debug)]
pub struct Umda {
    pub genome: Genome,
}

impl Umda {
    /// An operator over the given genome.
    pub fn with_genome(genome: Genome) -> (r: Self)
        requires
            genome.wf(),
        ensures
            r.wf(),
            r.spec_genome() == genome@,
    {
        Umda { genome }
    }

    /// The genome the operator samples over.
    pub closed spec fn spec_genome(&self) -> Seq<Seq<Allele>> {
        self.genome@
    }
}

impl VariationOperator for Umda {
    open spec fn wf(&self) -> bool {
        self.genome.wf()
    }

    open spec fn idv_ok(&self, g: Seq<Allele>) -> bool {
        self.genome.genotype_valid(g)
    }

    open spec fn offspring_count(&self, pop_len: nat) -> nat {
        pop_len
    }

    open spec fn spec_mutates(&self) -> bool {
        false
    }

    open spec fn pop_len_ok(&self, pop_len: nat) -> bool {
        true
    }

    /// Each child is sampled from the model fitted to the population:
    /// every one of its alleles occurs, at the same position, in some
    /// member of the population.
    open spec fn child_ok(&self, pop: Seq<Individual>, g: Seq<Allele>) -> bool {
        alleles_from_population(pop, g)
    }

    proof fn lemma_offspring_count(&self, pop_len: nat) {
    }

    fn create_offspring<FF: FitnessFunc>(
        &self,
        population: &Vec<Individual>,
        fitness_func: &mut FitnessEvaluator<FF>,
    ) -> (r: Vec<Individual>) {
        let model = UnivariateModel::estimate_from_population(&self.genome, population);
        let n = population.len();
        let mut rng = fresh_rng();
        let mut out: Vec<Individual> = Vec::new();
        let mut i: usize = 0;
        while i < n
            invariant
                i <= n,
                n == population@.len(),
                self.genome.wf(),
                model.fitted_to(&self.genome, crate::model::pop_genotypes(population@)),
                out@.len() == i,
                fitness_func.evals() == old(fitness_func).evals() + i,
                fitness_func.spec_goal() == old(fitness_func).spec_goal(),
                fitness_func.spec_func() == old(fitness_func).spec_func(),
                old(fitness_func).evals() + n <= usize::MAX,
                all_evaluated(out@),
                forall|j: int|
                    0 <= j < out@.len() ==> self.genome.genotype_valid(
                        (#[trigger] out@[j]).geno(),
                    ),
                forall|j: int|
                    0 <= j < out@.len() ==> alleles_from_population(
                        population@,
                        (#[trigger] out@[j]).geno(),
                    ),
            decreases n - i,
        {
            let g = model.sample(&self.genome, &mut rng);
            proof {
                crate::model::lemma_univariate_child_from_population(
                    &model,
                    &self.genome,
                    crate::model::pop_genotypes(population@),
                    g@,
                );
            }
            let mut child = Individual::from_genotype(g);
            fitness_func.evaluate(&mut child);
            out.push(child);
            i = i + 1;
        }
        out
    }

    fn mutates(&self) -> (r: bool) {
        false
    }
}

/// Builds the two children of one crossover pair: at each position,
/// either both children keep their own parent's allele or both take the
/// other parent's, as the given swap mask says.
fn cross_children(
    pa: &Vec<Allele>,
    pb: &Vec<Allele>,
    mask: &Vec<bool>,
) -> (r: (Vec<Allele>, Vec<Allele>))
    requires
        pa@.len() == pb@.len(),
        mask@.len() == pa@.len(),
    ensures
        r.0@.len() == pa@.len(),
        r.1@.len() == pa@.len(),
        forall|i: int|
            #![trigger r.0@[i]]
            #![trigger r.1@[i]]
            0 <= i < pa@.len() ==> (mask@[i] ==> r.0@[i] == pb@[i] && r.1@[i] == pa@[i]) && (
            !mask@[i] ==> r.0@[i] == pa@[i] && r.1@[i] == pb@[i]),
{
    let n = pa.len();
    let mut ca: Vec<Allele> = Vec::new();
    let mut cb: Vec<Allele> = Vec::new();
    let mut i: usize = 0;
    while i < n
        invariant
            i <= n,
            n == pa@.len(),
            pb@.len() == n,
            mask@.len() == n,
            ca@.len() == i,
            cb@.len() == i,
            forall|j: int|
                #![trigger ca@[j]]
                #![trigger cb@[j]]
                0 <= j < i ==> (mask@[j] ==> ca@[j] == pb@[j] && cb@[j] == pa@[j]) && (!mask@[j]
                    ==> ca@[j] == pa@[j] && cb@[j] == pb@[j]),
        decreases n - i,
    {
        let ghost old_ca = ca@;
        let ghost old_cb = cb@;
        if mask[i] {
            ca.push(pb[i]);
            cb.push(pa[i]);
        } else {
            ca.push(pa[i]);
            cb.push(pb[i]);
        }
        proof {
            assert forall|j: int|
                0 <= j < i + 1 implies ((mask@[j] ==> ca@[j] == pb@[j] && cb@[j] == pa@[j]) && (
            !mask@[j] ==> ca@[j] == pa@[j] && cb@[j] == pb@[j])) by {
                if j < i {
                    assert(ca@[j] == old_ca[j] && cb@[j] == old_cb[j]);
                    assert((mask@[j] ==> old_ca[j] == pb@[j] && old_cb[j] == pa@[j]) && (!mask@[j]
                        ==> old_ca[j] == pa@[j] && old_cb[j] == pb@[j]));
                }
            }
        }
        i = i + 1;
    }
    (ca, cb)
}

/// A crossover child of two genotypes that are valid for a genome is
/// valid for it too.
proof fn lemma_cross_valid(genome: &Genome, pa: Seq<Allele>, pb: Seq<Allele>, c: Seq<Allele>)
    requires
        genome.genotype_valid(pa),
        genome.genotype_valid(pb),
        c.len() == pa.len(),
        forall|i: int| 0 <= i < c.len() ==> #[trigger] c[i] == pa[i] || c[i] == pb[i],
    ensures
        genome.genotype_valid(c),
{
}


/// The recombination rule of a pairwise crossover operator.
enum CrossKind {
    /// Swap each position independently with probability `num / den`.
    Uniform(u32, u32),
    /// Swap the suffix after one uniformly drawn split point.
    OnePoint,
    /// Swap the substring between two uniformly drawn points.
    TwoPoint,
}

impl CrossKind {
    /// The swap probability is a well-formed ratio.
    spec fn wf(&self) -> bool {
        match self {
            CrossKind::Uniform(num, den) => 1 <= *den && *num <= *den,
            _ => true,
        }
    }

    /// The child discipline this kind of crossover establishes.
    spec fn child_spec(&self, pop: Seq<Individual>, g: Seq<Allele>) -> bool {
        match self {
            CrossKind::Uniform(_, _) => uniform_child(pop, g),
            CrossKind::OnePoint => one_point_child(pop, g),
            CrossKind::TwoPoint => two_point_child(pop, g),
        }
    }
}

/// The mask swaps exactly the suffix that starts at `p`.
pub open spec fn suffix_mask(m: Seq<bool>, p: int) -> bool {
    forall|i: int| 0 <= i < m.len() ==> (#[trigger] m[i] <==> i >= p)
}

/// The mask swaps exactly the positions from `lo` to `hi`, both ends
/// inclusive.
pub open spec fn range_mask(m: Seq<bool>, lo: int, hi: int) -> bool {
    forall|i: int| 0 <= i < m.len() ==> (#[trigger] m[i] <==> lo <= i <= hi)
}

/// Draws the swap mask for one crossover pair: independent per-position
/// draws for uniform crossover, a swapped suffix after one uniformly
/// drawn point for one-point crossover, and a swapped substring between
/// two uniformly drawn points (both ends inclusive) for two-point
/// crossover.
fn make_mask(kind: &CrossKind, rng: &mut rand::rngs::ThreadRng, len: usize) -> (r: Vec<bool>)
    requires
        kind.wf(),
        len < usize::MAX,
    ensures
        r@.len() == len,
        kind is OnePoint ==> exists|p: int| 0 <= p <= len && #[trigger] suffix_mask(r@, p),
        kind is TwoPoint ==> exists|lo: int, hi: int|
            0 <= lo <= hi <= len && #[trigger] range_mask(r@, lo, hi),
{
    let mut mask: Vec<bool> = Vec::new();
    match kind {
        CrossKind::Uniform(num, den) => {
            let mut i: usize = 0;
            while i < len
                invariant
                    i <= len,
                    mask@.len() == i,
                    kind.wf(),
                decreases len - i,
            {
                let b = match kind {
                    CrossKind::Uniform(n2, d2) => rand_ratio(rng, *n2, *d2),
                    _ => false,
                };
                mask.push(b);
                i = i + 1;
            }
        },
        CrossKind::OnePoint => {
            let point = rand_below(rng, len + 1);
            let mut i: usize = 0;
            while i < len
                invariant
                    i <= len,
                    point <= len,
                    mask@.len() == i,
                    forall|j: int| 0 <= j < i ==> (#[trigger] mask@[j] <==> j >= point),
                decreases len - i,
            {
                mask.push(i >= point);
                i = i + 1;
            }
            proof {
                assert(suffix_mask(mask@, point as int));
            }
        },
        CrossKind::TwoPoint => {
            let p1 = rand_below(rng, len + 1);
            let p2 = rand_below(rng, len + 1);
            let lo = if p1 < p2 {
                p1
            } else {
                p2
            };
            let hi = if p1 < p2 {
                p2
            } else {
                p1
            };
            let mut i: usize = 0;
            while i < len
                invariant
                    i <= len,
                    lo <= hi <= len,
                    mask@.len() == i,
                    forall|j: int| 0 <= j < i ==> (#[trigger] mask@[j] <==> lo <= j <= hi),
                decreases len - i,
            {
                mask.push(lo <= i && i <= hi);
                i = i + 1;
            }
            proof {
                assert(range_mask(mask@, lo as int, hi as int));
            }
        },
    }
    mask
}

/// Shuffles the population, pairs adjacent individuals, produces two
/// children per pair by swapping parent material as the crossover kind
/// dictates, and evaluates every child.  An odd last individual is
/// dropped for the generation.
fn pairwise_offspring<FF: FitnessFunc>(
    genome: &Genome,
    kind: &CrossKind,
    population: &Vec<Individual>,
    fitness_func: &mut FitnessEvaluator<FF>,
) -> (r: Vec<Individual>)
    requires
        genome.wf(),
        genome@.len() < usize::MAX,
        kind.wf(),
        all_evaluated(population@),
        forall|i: int|
            0 <= i < population@.len() ==> genome.genotype_valid(
                (#[trigger] population@[i]).geno(),
            ),
        old(fitness_func).evals() + population@.len() <= usize::MAX,
    ensures
        r@.len() == 2 * ((population@.len() as nat) / 2),
        final(fitness_func).evals() == old(fitness_func).evals() + r@.len(),
        final(fitness_func).spec_goal() == old(fitness_func).spec_goal(),
        final(fitness_func).spec_func() == old(fitness_func).spec_func(),
        all_evaluated(r@),
        forall|i: int| 0 <= i < r@.len() ==> genome.genotype_valid((#[trigger] r@[i]).geno()),
        forall|i: int| 0 <= i < r@.len() ==> kind.child_spec(population@, (#[trigger] r@[i]).geno()),
{
    let n = population.len();
    let mut pool: Vec<Individual> = Vec::new();
    let mut i: usize = 0;
    while i < n
        invariant
            i <= n,
            n == population@.len(),
            pool@.len() == i,
            all_evaluated(pool@),
            all_evaluated(population@),
            forall|j: int|
                0 <= j < population@.len() ==> genome.genotype_valid(
                    (#[trigger] population@[j]).geno(),
                ),
            forall|j: int| 0 <= j < i ==> genome.genotype_valid((#[trigger] pool@[j]).geno()),
            forall|j: int|
                0 <= j < i ==> crate::selection::pop_genos(population@).contains(
                    (#[trigger] pool@[j]).geno(),
                ),
        decreases n - i,
    {
        pool.push(population[i].clone());
        proof {
            assert(crate::selection::pop_genos(population@)[i as int] == population@[i as int].geno());
        }
        i = i + 1;
    }
    let mut rng = fresh_rng();
    let ghost pre_shuffle = pool@;
    shuffle_individuals(&mut rng, &mut pool);
    proof {
        assert forall|j: int| 0 <= j < pool@.len() implies ((#[trigger] pool@[j]).evaluated()
            && genome.genotype_valid(pool@[j].geno()) && crate::selection::pop_genos(
            population@,
        ).contains(pool@[j].geno())) by {
            assert(pool@.to_multiset().contains(pool@[j]));
            assert(pre_shuffle.to_multiset().contains(pool@[j]));
            assert(pre_shuffle.contains(pool@[j]));
            let w = choose|w: int| 0 <= w < pre_shuffle.len() && pre_shuffle[w] == pool@[j];
            assert(pre_shuffle[w].evaluated());
        }
    }
    let pairs = n / 2;
    let gl = genome.len();
    let mut out: Vec<Individual> = Vec::new();
    let mut p: usize = 0;
    while p < pairs
        invariant
            p <= pairs,
            pairs == n / 2,
            n == population@.len(),
            pool@.len() == n,
            gl == genome@.len(),
            genome.wf(),
            kind.wf(),
            gl < usize::MAX,
            all_evaluated(pool@),
            forall|j: int| 0 <= j < pool@.len() ==> genome.genotype_valid((#[trigger] pool@[j]).geno()),
            forall|j: int|
                0 <= j < pool@.len() ==> crate::selection::pop_genos(population@).contains(
                    (#[trigger] pool@[j]).geno(),
                ),
            out@.len() == 2 * p,
            fitness_func.evals() == old(fitness_func).evals() + out@.len(),
            fitness_func.spec_goal() == old(fitness_func).spec_goal(),
            fitness_func.spec_func() == old(fitness_func).spec_func(),
            old(fitness_func).evals() + n <= usize::MAX,
            all_evaluated(out@),
            forall|j: int| 0 <= j < out@.len() ==> genome.genotype_valid((#[trigger] out@[j]).geno()),
            forall|j: int|
                0 <= j < out@.len() ==> kind.child_spec(population@, (#[trigger] out@[j]).geno()),
        decreases pairs - p,
    {
        proof {
            assert(2 * p + 1 < n) by (nonlinear_arith)
                requires
                    p < pairs,
                    pairs == n / 2,
                    n >= 0,
            ;
        }
        let pa = &pool[2 * p];
        let pb = &pool[2 * p + 1];
        let mask = make_mask(kind, &mut rng, gl);
        let (ga, gb) = cross_children(pa.genotype(), pb.genotype(), &mask);
        proof {
            lemma_cross_valid(genome, pa.geno(), pb.geno(), ga@);
            lemma_cross_valid(genome, pa.geno(), pb.geno(), gb@);
            let genos = crate::selection::pop_genos(population@);
            assert(genos.contains(pa.geno()) && genos.contains(pb.geno()));
            let wa = choose|wa: int| 0 <= wa < genos.len() && genos[wa] == pa.geno();
            let wb = choose|wb: int| 0 <= wb < genos.len() && genos[wb] == pb.geno();
            assert(population@[wa].geno() == pa.geno());
            assert(population@[wb].geno() == pb.geno());
            assert forall|i2: int|
                0 <= i2 < ga@.len() implies #[trigger] ga@[i2] == if mask@[i2] {
                population@[wb].geno()[i2]
            } else {
                population@[wa].geno()[i2]
            } by {}
            assert(pair_mixture(population@, ga@, mask@)) by {
                assert(0 <= wa < population@.len() && 0 <= wb < population@.len()
                    && population@[wa].geno().len() == ga@.len() && population@[wb].geno().len()
                    == ga@.len());
            }
            assert forall|i2: int|
                0 <= i2 < gb@.len() implies #[trigger] gb@[i2] == if mask@[i2] {
                population@[wa].geno()[i2]
            } else {
                population@[wb].geno()[i2]
            } by {}
            assert(pair_mixture(population@, gb@, mask@)) by {
                assert(0 <= wb < population@.len() && 0 <= wa < population@.len()
                    && population@[wb].geno().len() == gb@.len() && population@[wa].geno().len()
                    == gb@.len());
            }
            if kind is OnePoint {
                let pt = choose|pt: int| 0 <= pt <= gl && suffix_mask(mask@, pt);
                assert(suffix_mask(mask@, pt) && pair_mixture(population@, ga@, mask@));
                assert(one_point_child(population@, ga@));
                assert(suffix_mask(mask@, pt) && pair_mixture(population@, gb@, mask@));
                assert(one_point_child(population@, gb@));
            } else if kind is TwoPoint {
                let (lo, hi) = choose|lo: int, hi: int|
                    0 <= lo <= hi <= gl && range_mask(mask@, lo, hi);
                assert(range_mask(mask@, lo, hi) && pair_mixture(population@, ga@, mask@));
                assert(two_point_child(population@, ga@));
                assert(range_mask(mask@, lo, hi) && pair_mixture(population@, gb@, mask@));
                assert(two_point_child(population@, gb@));
            } else {
                assert(uniform_child(population@, ga@));
                assert(uniform_child(population@, gb@));
            }
            assert(kind.child_spec(population@, ga@));
            assert(kind.child_spec(population@, gb@));
        }
        let mut ca = Individual::from_genotype(ga);
        let mut cb = Individual::from_genotype(gb);
        fitness_func.evaluate(&mut ca);
        fitness_func.evaluate(&mut cb);
        out.push(ca);
        out.push(cb);
        p = p + 1;
    }
    out
}

/// Uniform crossover: each position of a pair is swapped independently
/// with the configured probability.
#[derive(Debug)]
pub struct UniformCrossover {
    pub genome: Genome,
    pub probability_num: u32,
    pub probability_den: u32,
}

impl UniformCrossover {
    /// An operator over the given genome with the default per-position
    /// swap probability of one half.
    pub fn with_genome(genome: Genome) -> (r: Self)
        requires
            genome.wf(),
            genome@.len() < usize::MAX,
        ensures
            r.wf(),
            r.genome@ == genome@,
            r.probability_num == 1,
            r.probability_den == 2,
    {
        Self::with_probability(genome, 1, 2)
    }

    /// An operator over the given genome whose per-position swap
    /// probability is the exact ratio `num / den` (one half for
    /// `(1, 2)`).
    pub fn with_probability(genome: Genome, num: u32, den: u32) -> (r: Self)
        requires
            genome.wf(),
            genome@.len() < usize::MAX,
            1 <= den,
            num <= den,
        ensures
            r.wf(),
            r.genome@ == genome@,
            r.probability_num == num,
            r.probability_den == den,
    {
        UniformCrossover { genome, probability_num: num, probability_den: den }
    }
}

impl VariationOperator for UniformCrossover {
    open spec fn wf(&self) -> bool {
        self.genome.wf() && self.genome@.len() < usize::MAX && 1 <= self.probability_den
            && self.probability_num <= self.probability_den
    }

    open spec fn idv_ok(&self, g: Seq<Allele>) -> bool {
        self.genome.genotype_valid(g)
    }

    open spec fn offspring_count(&self, pop_len: nat) -> nat {
        2 * (pop_len / 2)
    }

    open spec fn spec_mutates(&self) -> bool {
        false
    }

    open spec fn pop_len_ok(&self, pop_len: nat) -> bool {
        true
    }

    /// Each child is a position-wise mixture of two parents from the
    /// population under some swap mask.
    open spec fn child_ok(&self, pop: Seq<Individual>, g: Seq<Allele>) -> bool {
        uniform_child(pop, g)
    }

    proof fn lemma_offspring_count(&self, pop_len: nat) {
        vstd::arithmetic::div_mod::lemma_fundamental_div_mod(pop_len as int, 2);
    }

    fn create_offspring<FF: FitnessFunc>(
        &self,
        population: &Vec<Individual>,
        fitness_func: &mut FitnessEvaluator<FF>,
    ) -> (r: Vec<Individual>) {
        let kind = CrossKind::Uniform(self.probability_num, self.probability_den);
        pairwise_offspring(&self.genome, &kind, population, fitness_func)
    }

    fn mutates(&self) -> (r: bool) {
        false
    }
}

/// One-point crossover: the suffix after a uniformly drawn split point
/// is swapped between the pair.
#[derive(Debug)]
pub struct OnePointCrossover {
    pub genome: Genome,
}

impl OnePointCrossover {
    /// An operator over the given genome.
    pub fn with_genome(genome: Genome) -> (r: Self)
        requires
            genome.wf(),
            genome@.len() < usize::MAX,
        ensures
            r.wf(),
            r.genome@ == genome@,
    {
        OnePointCrossover { genome }
    }
}

impl VariationOperator for OnePointCrossover {
    open spec fn wf(&self) -> bool {
        self.genome.wf() && self.genome@.len() < usize::MAX
    }

    open spec fn idv_ok(&self, g: Seq<Allele>) -> bool {
        self.genome.genotype_valid(g)
    }

    open spec fn offspring_count(&self, pop_len: nat) -> nat {
        2 * (pop_len / 2)
    }

    open spec fn spec_mutates(&self) -> bool {
        false
    }

    open spec fn pop_len_ok(&self, pop_len: nat) -> bool {
        true
    }

    /// Each child mixes two parents from the population under a mask
    /// that swaps exactly the suffix after one split point.
    open spec fn child_ok(&self, pop: Seq<Individual>, g: Seq<Allele>) -> bool {
        one_point_child(pop, g)
    }

    proof fn lemma_offspring_count(&self, pop_len: nat) {
        vstd::arithmetic::div_mod::lemma_fundamental_div_mod(pop_len as int, 2);
    }

    fn create_offspring<FF: FitnessFunc>(
        &self,
        population: &Vec<Individual>,
        fitness_func: &mut FitnessEvaluator<FF>,
    ) -> (r: Vec<Individual>) {
        let kind = CrossKind::OnePoint;
        pairwise_offspring(&self.genome, &kind, population, fitness_func)
    }

    fn mutates(&self) -> (r: bool) {
        false
    }
}

/// Two-point crossover: the substring between two uniformly drawn
/// points (both ends inclusive) is swapped between the pair.
#[derive(Debug)]
pub struct TwoPointCrossover {
    pub genome: Genome,
}

impl TwoPointCrossover {
    /// An operator over the given genome.
    pub fn with_genome(genome: Genome) -> (r: Self)
        requires
            genome.wf(),
            genome@.len() < usize::MAX,
        ensures
            r.wf(),
            r.genome@ == genome@,
    {
        TwoPointCrossover { genome }
    }
}

impl VariationOperator for TwoPointCrossover {
    open spec fn wf(&self) -> bool {
        self.genome.wf() && self.genome@.len() < usize::MAX
    }

    open spec fn idv_ok(&self, g: Seq<Allele>) -> bool {
        self.genome.genotype_valid(g)
    }

    open spec fn offspring_count(&self, pop_len: nat) -> nat {
        2 * (pop_len / 2)
    }

    open spec fn spec_mutates(&self) -> bool {
        false
    }

    open spec fn pop_len_ok(&self, pop_len: nat) -> bool {
        true
    }

    /// Each child mixes two parents from the population under a mask
    /// that swaps exactly one substring, both ends inclusive.
    open spec fn child_ok(&self, pop: Seq<Individual>, g: Seq<Allele>) -> bool {
        two_point_child(pop, g)
    }

    proof fn lemma_offspring_count(&self, pop_len: nat) {
        vstd::arithmetic::div_mod::lemma_fundamental_div_mod(pop_len as int, 2);
    }

    fn create_offspring<FF: FitnessFunc>(
        &self,
        population: &Vec<Individual>,
        fitness_func: &mut FitnessEvaluator<FF>,
    ) -> (r: Vec<Individual>) {
        let kind = CrossKind::TwoPoint;
        pairwise_offspring(&self.genome, &kind, population, fitness_func)
    }

    fn mutates(&self) -> (r: bool) {
        false
    }
}

} // verus!
