//! The genome: one discrete domain per decision-variable position.

use vstd::prelude::*;
use crate::gene::{Allele, DiscreteDomain};
use crate::rng::rand_below;

verus! {

/// The full specification of an L-variable search space: an ordered list
/// of per-position domains, fixed after construction.
#[derive(Debug)]
pub struct Genome {
    genes: Vec<DiscreteDomain>,
}

impl View for Genome {
    type V = Seq<Seq<Allele>>;

    closed spec fn view(&self) -> Seq<Seq<Allele>> {
        self.genes@.map(|j: int, d: DiscreteDomain| d@)
    }
}

impl Genome {
    /// Every per-position domain is well-formed and non-empty.
    pub closed spec fn wf(&self) -> bool {
        forall|i: int|
            0 <= i < self.genes@.len() ==> (#[trigger] self.genes@[i]).wf() && self.genes@[i]@.len()
                > 0
    }

    /// A genotype is valid for this genome when it assigns to each of the
    /// L positions an allele from that position's domain.
    pub open spec fn genotype_valid(&self, g: Seq<Allele>) -> bool {
        g.len() == self@.len() && forall|i: int| 0 <= i < g.len() ==> self@[i].contains(#[trigger] g[i])
    }

    /// A genome of `len` positions, each with a copy of the same domain.
    pub fn with_discrete_domain(domain: &DiscreteDomain, len: usize) -> (r: Self)
        requires
            domain.wf(),
            domain@.len() > 0,
        ensures
            r.wf(),
            r@.len() == len,
            forall|i: int| 0 <= i < len ==> r@[i] == domain@,
    {
        let mut genes: Vec<DiscreteDomain> = Vec::new();
        let mut i: usize = 0;
        while i < len
            invariant
                i <= len,
                genes@.len() == i,
                forall|j: int|
                    0 <= j < i ==> (#[trigger] genes@[j])@ == domain@ && genes@[j].wf(),
                domain.wf(),
                domain@.len() > 0,
            decreases len - i,
        {
            genes.push(domain.clone());
            i = i + 1;
        }
        Genome { genes }
    }

    /// A genome of `len` positions over the canonical Boolean domain.
    pub fn with_bool_domain(len: usize) -> (r: Self)
        ensures
            r.wf(),
            r@.len() == len,
            forall|i: int|
                0 <= i < len ==> r@[i] =~= seq![Allele::Bool(false), Allele::Bool(true)],
    {
        let d = DiscreteDomain::bools();
        Self::with_discrete_domain(&d, len)
    }

    /// The number of positions.
    pub fn len(&self) -> (r: usize)
        ensures
            r == self@.len(),
    {
        self.genes.len()
    }

    /// The domain at position `index`.
    pub fn get(&self, index: usize) -> (r: &DiscreteDomain)
        requires
            index < self@.len(),
        ensures
            r@ == self@[index as int],
            self.wf() ==> r.wf(),
    {
        &self.genes[index]
    }

    /// Draws a genotype by sampling every position uniformly from its
    /// domain.
    pub fn sample_uniform(&self, rng: &mut rand::rngs::ThreadRng) -> (r: Vec<Allele>)
        requires
            self.wf(),
        ensures
            self.genotype_valid(r@),
    {
        let mut out: Vec<Allele> = Vec::new();
        let n = self.len();
        let mut i: usize = 0;
        while i < n
            invariant
                i <= n,
                n == self@.len(),
                self.wf(),
                out@.len() == i,
                forall|j: int| 0 <= j < i ==> self@[j].contains(#[trigger] out@[j]),
            decreases n - i,
        {
            let d = self.get(i);
            let a = d.sample_uniform(rng);
            out.push(a);
            i = i + 1;
        }
        out
    }
}

impl Clone for Genome {
    /// A deep copy describing the same search space.
    fn clone(&self) -> (r: Self)
        ensures
            r@ == self@,
            self.wf() ==> r.wf(),
    {
        let mut genes: Vec<DiscreteDomain> = Vec::new();
        let mut i: usize = 0;
        while i < self.genes.len()
            invariant
                i <= self.genes@.len(),
                genes@.len() == i,
                forall|j: int|
                    0 <= j < i ==> (#[trigger] genes@[j])@ == self.genes@[j]@ && (self.genes@[j].wf()
                        ==> genes@[j].wf()),
            decreases self.genes@.len() - i,
        {
            genes.push(self.genes[i].clone());
            i = i + 1;
        }
        let r = Genome { genes };
        proof {
            assert(r@ =~= self@);
        }
        r
    }
}


/// Every per-position domain of a well-formed genome lists distinct
/// alleles.
pub proof fn lemma_domain_distinct(genome: &Genome, i: int)
    requires
        genome.wf(),
        0 <= i < genome@.len(),
    ensures
        crate::gene::seq_distinct(genome@[i]),
{
    genome.genes@[i].lemma_view_distinct();
    assert(genome@[i] == genome.genes@[i]@);
}

/// Every per-position domain of a well-formed genome is non-empty.
pub proof fn lemma_genome_nonempty(genome: &Genome)
    requires
        genome.wf(),
    ensures
        forall|m: int| 0 <= m < genome@.len() ==> (#[trigger] genome@[m]).len() >= 1,
{
    assert forall|m: int| 0 <= m < genome@.len() implies (#[trigger] genome@[m]).len() >= 1 by {
        assert(genome@[m] == genome.genes@[m]@);
    }
}
} // verus!
