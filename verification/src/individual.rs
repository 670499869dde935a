//! A candidate solution: an owned genotype plus its optional fitness.

use vstd::prelude::*;
use crate::gene::Allele;
use crate::genome::Genome;

verus! {

/// A candidate solution.  The fitness is absent until the individual has
/// been evaluated; reading it before evaluation is a programming error
/// and is excluded by precondition.
#[derive(Debug)]
pub struct Individual {
    genotype: Vec<Allele>,
    fitness: Option<i64>,
}

impl Individual {
    /// The genotype as a sequence of alleles.
    pub closed spec fn geno(&self) -> Seq<Allele> {
        self.genotype@
    }

    /// The stored fitness, if the individual has been evaluated.
    pub closed spec fn fit(&self) -> Option<i64> {
        self.fitness
    }

    /// Whether the individual has been evaluated.
    pub open spec fn evaluated(&self) -> bool {
        self.fit() is Some
    }

    /// Wraps a genotype into an unevaluated individual.
    pub fn from_genotype(genotype: Vec<Allele>) -> (r: Self)
        ensures
            r.geno() == genotype@,
            r.fit() is None,
    {
        Individual { genotype, fitness: None }
    }

    /// Draws every position uniformly from its domain in `genome`; the
    /// result is unevaluated and valid for the genome.
    pub fn sample_uniform(rng: &mut rand::rngs::ThreadRng, genome: &Genome) -> (r: Self)
        requires
            genome.wf(),
        ensures
            r.fit() is None,
            genome.genotype_valid(r.geno()),
    {
        let genotype = genome.sample_uniform(rng);
        Individual { genotype, fitness: None }
    }

    /// Read access to the genotype.
    pub fn genotype(&self) -> (r: &Vec<Allele>)
        ensures
            r@ == self.geno(),
    {
        &self.genotype
    }

    /// The fitness of an evaluated individual.
    pub fn fitness(&self) -> (r: i64)
        requires
            self.evaluated(),
        ensures
            self.fit() == Some(r),
    {
        self.fitness.unwrap()
    }

    /// Records the fitness value; the genotype is unchanged.
    pub fn set_fitness(&mut self, fitness: i64)
        ensures
            final(self).geno() == old(self).geno(),
            final(self).fit() == Some(fitness),
    {
        self.fitness = Some(fitness)
    }
}

impl Clone for Individual {
    /// A deep copy: same genotype, same fitness state.
    fn clone(&self) -> (r: Self)
        ensures
            r.geno() == self.geno(),
            r.fit() == self.fit(),
    {
        let genotype = self.genotype.clone();
        proof {
            assert(genotype@ =~= self.genotype@);
        }
        Individual { genotype, fitness: self.fitness }
    }
}

} // verus!
