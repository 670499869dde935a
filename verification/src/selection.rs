//! Selection operators: how offspring are folded back into the
//! population.  Every operator leaves the population size unchanged.

use vstd::prelude::*;
use crate::fitness::{FitnessEvaluator, FitnessFunc, OptimizationGoal, spec_better, spec_better_eq};
use crate::gene::Allele;
use crate::individual::Individual;
use crate::rng::{fresh_rng, shuffle_individuals};
use vstd::multiset::Multiset;

verus! {

broadcast use vstd::seq_lib::group_to_multiset_ensures;

/// The failure mode of a selection operator: the tournament pool sizes
/// do not divide as required.
#[derive(Clone, Copy, PartialEq, Eq, Structural, Debug)]
pub enum SelectionError {
    PoolSizeMismatch,
}

/// The genotypes of a list of individuals.
pub open spec fn pop_genos(s: Seq<Individual>) -> Seq<Seq<Allele>> {
    crate::model::pop_genotypes(s)
}

/// Every individual of the list has been evaluated.
pub open spec fn all_evaluated(s: Seq<Individual>) -> bool {
    forall|i: int| 0 <= i < s.len() ==> (#[trigger] s[i]).evaluated()
}

/// The individual at position `i` is no worse than the one at `j` under
/// the goal ordering (both evaluated).
pub open spec fn le_at(goal: crate::fitness::OptimizationGoal, s: Seq<Individual>, i: int, j: int) -> bool {
    spec_better_eq(goal, s[i].fit().unwrap(), s[j].fit().unwrap())
}

/// The list is sorted from best to worst under the goal ordering.
pub open spec fn sorted_by_goal(goal: crate::fitness::OptimizationGoal, s: Seq<Individual>) -> bool {
    forall|i: int, j: int| 0 <= i < j < s.len() ==> le_at(goal, s, i, j)
}

/// The observable content of an individual: its genotype and its stored
/// fitness.
pub open spec fn sig_of(idv: Individual) -> (Seq<Allele>, Option<i64>) {
    (idv.geno(), idv.fit())
}

/// The genotype-and-fitness signatures of a list of individuals.
pub open spec fn pop_sigs(s: Seq<Individual>) -> Seq<(Seq<Allele>, Option<i64>)> {
    s.map(|i: int, idv: Individual| sig_of(idv))
}

/// `x` carries the same genotype and the same fitness as some member of
/// `pool`.
pub open spec fn sig_in(pool: Seq<Individual>, x: Individual) -> bool {
    exists|w: int| 0 <= w < pool.len() && sig_of(#[trigger] pool[w]) == sig_of(x)
}

/// The tournament pool: the offspring, preceded by the parents exactly
/// when they take part.
pub open spec fn tournament_pool(
    include_parents: bool,
    old_pop: Seq<Individual>,
    offspring: Seq<Individual>,
) -> Seq<Individual> {
    if include_parents {
        old_pop + offspring
    } else {
        offspring
    }
}

/// The index of the first best individual of a list: the earliest
/// position that no other position strictly beats under the goal
/// ordering.
pub open spec fn first_best(goal: OptimizationGoal, s: Seq<Individual>) -> int
    decreases s.len(),
{
    if s.len() <= 1 {
        0
    } else {
        let r = first_best(goal, s.drop_first()) + 1;
        if spec_better(goal, s[r].fit().unwrap(), s[0].fit().unwrap()) {
            r
        } else {
            0
        }
    }
}

/// The stable goal-ordered sort of a list: the first best individual,
/// then the stable sort of the rest, so individuals of equal fitness
/// keep their relative order.  (The range guard is the identity: the
/// first-best index of a non-empty list is always in range, see
/// `lemma_first_best_props`.)
pub open spec fn stable_sorted(goal: OptimizationGoal, s: Seq<Individual>) -> Seq<Individual>
    decreases s.len(),
{
    if s.len() == 0 {
        Seq::empty()
    } else {
        let b0 = first_best(goal, s);
        let b = if 0 <= b0 < s.len() {
            b0
        } else {
            0int
        };
        seq![s[b]] + stable_sorted(goal, s.remove(b))
    }
}

/// The first-best index is in range, no position beats it, and it
/// strictly beats every earlier position.
pub proof fn lemma_first_best_props(goal: OptimizationGoal, s: Seq<Individual>)
    requires
        s.len() >= 1,
    ensures
        0 <= first_best(goal, s) < s.len(),
        forall|m: int|
            0 <= m < s.len() ==> !spec_better(
                goal,
                (#[trigger] s[m]).fit().unwrap(),
                s[first_best(goal, s)].fit().unwrap(),
            ),
        forall|m: int|
            0 <= m < first_best(goal, s) ==> spec_better(
                goal,
                s[first_best(goal, s)].fit().unwrap(),
                (#[trigger] s[m]).fit().unwrap(),
            ),
    decreases s.len(),
{
    if s.len() >= 2 {
        let d = s.drop_first();
        lemma_first_best_props(goal, d);
        let r0 = first_best(goal, d);
        let r = r0 + 1;
        let fb = first_best(goal, s);
        assert(forall|j: int| 0 <= j < d.len() ==> #[trigger] d[j] == s[j + 1]);
        if spec_better(goal, s[r].fit().unwrap(), s[0].fit().unwrap()) {
            assert(fb == r);
            assert forall|m: int|
                0 <= m < s.len() implies !spec_better(
                goal,
                (#[trigger] s[m]).fit().unwrap(),
                s[fb].fit().unwrap(),
            ) by {
                if m >= 1 {
                    assert(!spec_better(goal, d[m - 1].fit().unwrap(), d[r0].fit().unwrap()));
                    assert(d[m - 1] == s[m] && d[r0] == s[r]);
                }
            }
            assert forall|m: int|
                0 <= m < fb implies spec_better(
                goal,
                s[fb].fit().unwrap(),
                (#[trigger] s[m]).fit().unwrap(),
            ) by {
                if m >= 1 {
                    assert(spec_better(goal, d[r0].fit().unwrap(), d[m - 1].fit().unwrap()));
                    assert(d[m - 1] == s[m] && d[r0] == s[r]);
                }
            }
        } else {
            assert(fb == 0);
            assert forall|m: int|
                0 <= m < s.len() implies !spec_better(
                goal,
                (#[trigger] s[m]).fit().unwrap(),
                s[0].fit().unwrap(),
            ) by {
                if m >= 1 {
                    assert(!spec_better(goal, d[m - 1].fit().unwrap(), d[r0].fit().unwrap()));
                    assert(d[m - 1] == s[m] && d[r0] == s[r]);
                    assert(!spec_better(goal, s[r].fit().unwrap(), s[0].fit().unwrap()));
                }
            }
        }
    }
}

/// The first-best index is the unique position that nothing beats and
/// that strictly beats everything before it.
pub proof fn lemma_first_best_unique(goal: OptimizationGoal, s: Seq<Individual>, i: int)
    requires
        0 <= i < s.len(),
        forall|m: int|
            0 <= m < s.len() ==> !spec_better(
                goal,
                (#[trigger] s[m]).fit().unwrap(),
                s[i].fit().unwrap(),
            ),
        forall|m: int|
            0 <= m < i ==> spec_better(
                goal,
                s[i].fit().unwrap(),
                (#[trigger] s[m]).fit().unwrap(),
            ),
    ensures
        i == first_best(goal, s),
{
    lemma_first_best_props(goal, s);
    let fb = first_best(goal, s);
    if i < fb {
        assert(spec_better(goal, s[fb].fit().unwrap(), s[i].fit().unwrap()));
        assert(!spec_better(goal, s[fb].fit().unwrap(), s[i].fit().unwrap()));
    } else if fb < i {
        assert(spec_better(goal, s[i].fit().unwrap(), s[fb].fit().unwrap()));
        assert(!spec_better(goal, s[i].fit().unwrap(), s[fb].fit().unwrap()));
    }
}

/// Two lists of the same individuals (as a multiset) carry the same
/// genotype-and-fitness signatures (as a multiset).
pub proof fn lemma_sigs_multiset(s1: Seq<Individual>, s2: Seq<Individual>)
    requires
        s1.to_multiset() == s2.to_multiset(),
    ensures
        pop_sigs(s1).to_multiset() == pop_sigs(s2).to_multiset(),
    decreases s1.len(),
{
    if s1.len() == 0 {
        assert(s2.to_multiset().len() == 0);
        assert(s2.len() == 0);
        assert(pop_sigs(s1) =~= pop_sigs(s2));
    } else {
        let x = s1.last();
        assert(s1.to_multiset().count(x) > 0) by {
            assert(s1.contains(x));
        }
        assert(s2.contains(x));
        let w = choose|w: int| 0 <= w < s2.len() && s2[w] == x;
        let s1p = s1.drop_last();
        let s2p = s2.remove(w);
        assert(s1.remove(s1.len() - 1) =~= s1p);
        assert(s1p.to_multiset() =~= s1.to_multiset().remove(x));
        assert(s2p.to_multiset() =~= s2.to_multiset().remove(x));
        lemma_sigs_multiset(s1p, s2p);
        assert(pop_sigs(s1) =~= pop_sigs(s1p).push(sig_of(x)));
        assert(pop_sigs(s1).to_multiset() =~= pop_sigs(s1p).to_multiset().insert(sig_of(x)));
        assert(pop_sigs(s2p) =~= pop_sigs(s2).remove(w));
        assert(pop_sigs(s2).remove(w).to_multiset() =~= pop_sigs(s2).to_multiset().remove(
            pop_sigs(s2)[w],
        ));
        assert(pop_sigs(s2)[w] == sig_of(x));
        assert(pop_sigs(s2).to_multiset().count(sig_of(x)) > 0) by {
            assert(pop_sigs(s2).contains(sig_of(x))) by {
                assert(pop_sigs(s2)[w] == sig_of(x));
            }
        }
        assert(pop_sigs(s2).to_multiset().remove(sig_of(x)).insert(sig_of(x)) =~= pop_sigs(
            s2,
        ).to_multiset());
        assert(pop_sigs(s1).to_multiset() =~= pop_sigs(s2).to_multiset());
    }
}

/// Folds offspring into the population.  Every operator keeps the
/// population size unchanged, keeps every individual evaluated, only
/// ever installs genotypes that came from the old population or the
/// offspring, and on success establishes its own `select_post` relation
/// between the old population, the offspring and the new population.
pub trait SelectionOperator: Sized {
    /// The inputs on which `select` may be called at all.
    spec fn select_requires(&self, pop_len: nat, off_len: nat) -> bool;

    /// The inputs on which `select` succeeds; on all others it returns
    /// the pool-size-mismatch error and leaves the population unchanged.
    spec fn select_ok(&self, pop_len: nat, off_len: nat) -> bool;

    /// What a successful call does to the population, stated per
    /// operator over the old population, the offspring and the new
    /// population.
    spec fn select_post(
        &self,
        goal: OptimizationGoal,
        old_pop: Seq<Individual>,
        offspring: Seq<Individual>,
        new_pop: Seq<Individual>,
    ) -> bool;

    /// Folds the offspring into the population.
    fn select<FF: FitnessFunc>(
        &self,
        population: &mut Vec<Individual>,
        offspring: Vec<Individual>,
        fitness_func: &FitnessEvaluator<FF>,
    ) -> (r: Result<(), SelectionError>)
        requires
            self.select_requires(old(population)@.len() as nat, offspring@.len() as nat),
            all_evaluated(old(population)@),
            all_evaluated(offspring@),
        ensures
            final(population)@.len() == old(population)@.len(),
            all_evaluated(final(population)@),
            r is Ok <==> self.select_ok(old(population)@.len() as nat, offspring@.len() as nat),
            r is Err ==> final(population)@ == old(population)@,
            r is Ok ==> self.select_post(
                fitness_func.spec_goal(),
                old(population)@,
                offspring@,
                final(population)@,
            ),
            forall|i: int|
                0 <= i < final(population)@.len() ==> pop_genos(old(population)@).contains(
                    (#[trigger] final(population)@[i]).geno(),
                ) || pop_genos(offspring@).contains(final(population)@[i].geno()),
    ;
}

/// Discards the offspring and keeps the population as it is.
#[derive(Clone, Copy, Debug)]
pub struct NoSelection;

impl SelectionOperator for NoSelection {
    open spec fn select_requires(&self, pop_len: nat, off_len: nat) -> bool {
        true
    }

    open spec fn select_ok(&self, pop_len: nat, off_len: nat) -> bool {
        true
    }

    /// The population is left exactly as it was; the offspring are
    /// discarded.
    open spec fn select_post(
        &self,
        goal: OptimizationGoal,
        old_pop: Seq<Individual>,
        offspring: Seq<Individual>,
        new_pop: Seq<Individual>,
    ) -> bool {
        new_pop == old_pop
    }

    fn select<FF: FitnessFunc>(
        &self,
        population: &mut Vec<Individual>,
        offspring: Vec<Individual>,
        fitness_func: &FitnessEvaluator<FF>,
    ) -> (r: Result<(), SelectionError>) {
        proof {
            assert forall|i: int|
                0 <= i < population@.len() implies pop_genos(population@).contains(
                (#[trigger] population@[i]).geno(),
            ) || pop_genos(offspring@).contains(population@[i].geno()) by {
                assert(pop_genos(population@)[i] == population@[i].geno());
            }
        }
        Ok(())
    }
}

/// Replaces the population by the offspring; the caller must hand over
/// exactly one child per parent.
#[derive(Clone, Copy, Debug)]
pub struct CopyOffspringSelection;

impl SelectionOperator for CopyOffspringSelection {
    open spec fn select_requires(&self, pop_len: nat, off_len: nat) -> bool {
        off_len == pop_len
    }

    open spec fn select_ok(&self, pop_len: nat, off_len: nat) -> bool {
        true
    }

    /// The old contents are fully discarded: the new population is the
    /// offspring, in order.
    open spec fn select_post(
        &self,
        goal: OptimizationGoal,
        old_pop: Seq<Individual>,
        offspring: Seq<Individual>,
        new_pop: Seq<Individual>,
    ) -> bool {
        new_pop == offspring
    }

    fn select<FF: FitnessFunc>(
        &self,
        population: &mut Vec<Individual>,
        offspring: Vec<Individual>,
        fitness_func: &FitnessEvaluator<FF>,
    ) -> (r: Result<(), SelectionError>) {
        let ghost offv = offspring@;
        *population = offspring;
        proof {
            assert forall|i: int|
                0 <= i < population@.len() implies pop_genos(old(population)@).contains(
                (#[trigger] population@[i]).geno(),
            ) || pop_genos(offv).contains(population@[i].geno()) by {
                assert(pop_genos(offv)[i] == population@[i].geno());
            }
        }
        Ok(())
    }
}

/// Sorts the individuals from best to worst under the goal ordering,
/// stably (by repeatedly extracting the earliest remaining best
/// individual): the result is exactly `stable_sorted` of the input, a
/// permutation in which equal-fitness individuals keep their relative
/// order.
pub(crate) fn sort_by_fitness<FF: FitnessFunc>(
    input: Vec<Individual>,
    fitness_func: &FitnessEvaluator<FF>,
) -> (r: Vec<Individual>)
    requires
        all_evaluated(input@),
    ensures
        r@.len() == input@.len(),
        r@.to_multiset() == input@.to_multiset(),
        all_evaluated(r@),
        sorted_by_goal(fitness_func.spec_goal(), r@),
        r@ == stable_sorted(fitness_func.spec_goal(), input@),
{
    let ghost goal = fitness_func.spec_goal();
    let mut rest = input;
    let mut out: Vec<Individual> = Vec::new();
    while rest.len() > 0
        invariant
            goal == fitness_func.spec_goal(),
            out@.len() + rest@.len() == input@.len(),
            out@.to_multiset().add(rest@.to_multiset()) == input@.to_multiset(),
            all_evaluated(out@),
            all_evaluated(rest@),
            sorted_by_goal(goal, out@),
            stable_sorted(goal, input@) =~= out@ + stable_sorted(goal, rest@),
            forall|i: int, j: int|
                0 <= i < out@.len() && 0 <= j < rest@.len() ==> spec_better_eq(
                    goal,
                    (#[trigger] out@[i]).fit().unwrap(),
                    (#[trigger] rest@[j]).fit().unwrap(),
                ),
        decreases rest@.len(),
    {
        let mut best: usize = 0;
        let mut j: usize = 1;
        while j < rest.len()
            invariant
                best < j <= rest@.len(),
                all_evaluated(rest@),
                goal == fitness_func.spec_goal(),
                forall|m: int|
                    0 <= m < j ==> spec_better_eq(
                        goal,
                        rest@[best as int].fit().unwrap(),
                        (#[trigger] rest@[m]).fit().unwrap(),
                    ),
                forall|m: int|
                    0 <= m < best ==> spec_better(
                        goal,
                        rest@[best as int].fit().unwrap(),
                        (#[trigger] rest@[m]).fit().unwrap(),
                    ),
            decreases rest@.len() - j,
        {
            let fj = rest[j].fitness();
            let fb = rest[best].fitness();
            let c = fitness_func.cmp(&fj, &fb);
            if matches!(c, core::cmp::Ordering::Less) {
                best = j;
            }
            j = j + 1;
        }
        let ghost old_rest = rest@;
        let ghost old_out = out@;
        proof {
            assert(forall|i: int|
                0 <= i < old_out.len() ==> spec_better_eq(
                    goal,
                    (#[trigger] old_out[i]).fit().unwrap(),
                    old_rest[best as int].fit().unwrap(),
                ));
            assert(forall|m: int|
                0 <= m < old_rest.len() ==> spec_better_eq(
                    goal,
                    old_rest[best as int].fit().unwrap(),
                    (#[trigger] old_rest[m]).fit().unwrap(),
                ));
            assert(forall|i: int, j2: int|
                0 <= i < j2 < old_out.len() ==> le_at(goal, old_out, i, j2));
            assert forall|m: int|
                0 <= m < old_rest.len() implies !spec_better(
                goal,
                (#[trigger] old_rest[m]).fit().unwrap(),
                old_rest[best as int].fit().unwrap(),
            ) by {
                assert(spec_better_eq(
                    goal,
                    old_rest[best as int].fit().unwrap(),
                    old_rest[m].fit().unwrap(),
                ));
            }
            lemma_first_best_unique(goal, old_rest, best as int);
        }
        let chosen = rest.remove(best);
        out.push(chosen);
        proof {
            assert(old_rest.remove(best as int).to_multiset() =~= old_rest.to_multiset().remove(
                old_rest[best as int],
            ));
            assert(out@.to_multiset() =~= old_out.to_multiset().insert(chosen));
            assert(out@.to_multiset().add(rest@.to_multiset()) =~= old_out.to_multiset().add(
                old_rest.to_multiset(),
            ));
            assert forall|i: int, j2: int|
                0 <= i < j2 < out@.len() implies le_at(goal, out@, i, j2) by {
                if j2 < out@.len() - 1 {
                    assert(out@[i] == old_out[i] && out@[j2] == old_out[j2]);
                    assert(le_at(goal, old_out, i, j2));
                } else {
                    assert(out@[j2] == chosen && chosen == old_rest[best as int]);
                    if i < out@.len() - 1 {
                        assert(out@[i] == old_out[i]);
                        assert(spec_better_eq(
                            goal,
                            old_out[i].fit().unwrap(),
                            old_rest[best as int].fit().unwrap(),
                        ));
                    }
                }
            }
            assert forall|i: int, j2: int|
                0 <= i < out@.len() && 0 <= j2 < rest@.len() implies spec_better_eq(
                goal,
                (#[trigger] out@[i]).fit().unwrap(),
                (#[trigger] rest@[j2]).fit().unwrap(),
            ) by {
                let src = if j2 < best {
                    j2
                } else {
                    j2 + 1
                };
                assert(rest@[j2] == old_rest[src]);
                if i < out@.len() - 1 {
                    assert(out@[i] == old_out[i]);
                } else {
                    assert(out@[i] == old_rest[best as int]);
                }
            }
            assert forall|i: int| 0 <= i < rest@.len() implies (#[trigger] rest@[i]).evaluated() by {
                let src = if i < best {
                    i
                } else {
                    i + 1
                };
                assert(rest@[i] == old_rest[src]);
            }
            assert(stable_sorted(goal, old_rest) == seq![old_rest[best as int]] + stable_sorted(
                goal,
                old_rest.remove(best as int),
            ));
            assert(out@ =~= old_out + seq![chosen]);
            assert(stable_sorted(goal, input@) =~= out@ + stable_sorted(goal, rest@)) by {
                assert(stable_sorted(goal, input@) =~= old_out + stable_sorted(goal, old_rest));
                assert(old_out + (seq![chosen] + stable_sorted(goal, rest@)) =~= (old_out + seq![
                    chosen,
                ]) + stable_sorted(goal, rest@));
            }
        }
    }
    proof {
        assert(rest@.to_multiset() =~= Multiset::<Individual>::empty());
        assert(out@.to_multiset().add(rest@.to_multiset()) =~= out@.to_multiset());
        assert(stable_sorted(goal, rest@) =~= Seq::<Individual>::empty());
        assert(out@ =~= stable_sorted(goal, input@));
    }
    out
}

/// Concatenates the offspring onto the population, sorts stably from
/// best to worst, and keeps the best original-population-size prefix.
#[derive(Clone, Copy, Debug)]
pub struct TruncationSelection;

impl SelectionOperator for TruncationSelection {
    open spec fn select_requires(&self, pop_len: nat, off_len: nat) -> bool {
        pop_len + off_len <= usize::MAX
    }

    open spec fn select_ok(&self, pop_len: nat, off_len: nat) -> bool {
        true
    }

    /// The new population is exactly the best old-size prefix of the
    /// stable goal-ordered sort of the old population followed by the
    /// offspring: sorted best to worst, ties keeping their original
    /// order (parents ahead of offspring), no discarded individual
    /// beating a kept one.
    open spec fn select_post(
        &self,
        goal: OptimizationGoal,
        old_pop: Seq<Individual>,
        offspring: Seq<Individual>,
        new_pop: Seq<Individual>,
    ) -> bool {
        new_pop == stable_sorted(goal, old_pop + offspring).take(old_pop.len() as int)
    }

    fn select<FF: FitnessFunc>(
        &self,
        population: &mut Vec<Individual>,
        offspring: Vec<Individual>,
        fitness_func: &FitnessEvaluator<FF>,
    ) -> (r: Result<(), SelectionError>) {
        let ghost oldpop = population@;
        let ghost offv = offspring@;
        let population_size = population.len();
        let mut combined: Vec<Individual> = Vec::new();
        core::mem::swap(population, &mut combined);
        let mut off = offspring;
        combined.append(&mut off);
        proof {
            assert(combined@ == oldpop + offv);
            assert forall|i: int|
                0 <= i < combined@.len() implies (#[trigger] combined@[i]).evaluated() by {
                if i < oldpop.len() {
                    assert(combined@[i] == oldpop[i]);
                } else {
                    assert(combined@[i] == offv[i - oldpop.len()]);
                }
            }
        }
        let sorted = sort_by_fitness(combined, fitness_func);
        let ghost sortedv = sorted@;
        let mut kept: Vec<Individual> = Vec::new();
        let mut i: usize = 0;
        let mut rest = sorted;
        while i < population_size
            invariant
                i <= population_size,
                population_size <= sortedv.len(),
                kept@ =~= sortedv.take(i as int),
                rest@ =~= sortedv.skip(i as int),
                all_evaluated(sortedv),
            decreases population_size - i,
        {
            let ghost old_rest = rest@;
            proof {
                assert(old_rest[0] == sortedv[i as int]);
            }
            let x = rest.remove(0);
            kept.push(x);
            proof {
                assert(rest@ =~= sortedv.skip(i + 1));
                assert(kept@ =~= sortedv.take(i + 1));
            }
            i = i + 1;
        }
        *population = kept;
        proof {
            assert(sortedv.to_multiset() == (oldpop + offv).to_multiset());
            assert(population@ == sortedv.take(oldpop.len() as int));
            assert(sortedv == stable_sorted(fitness_func.spec_goal(), oldpop + offv));
            assert forall|i2: int|
                0 <= i2 < population@.len() implies ((#[trigger] population@[i2]).evaluated() && (
            pop_genos(oldpop).contains(population@[i2].geno()) || pop_genos(offv).contains(
                population@[i2].geno(),
            ))) by {
                assert(population@[i2] == sortedv[i2]);
                assert(sortedv.to_multiset().contains(sortedv[i2]));
                assert((oldpop + offv).contains(population@[i2]));
                let w = choose|w: int|
                    0 <= w < (oldpop + offv).len() && (oldpop + offv)[w] == population@[i2];
                if w < oldpop.len() {
                    assert(pop_genos(oldpop)[w] == population@[i2].geno());
                } else {
                    assert(pop_genos(offv)[w - oldpop.len()] == population@[i2].geno());
                }
            }
        }
        Ok(())
    }
}

/// `x` carries the genotype and fitness of a best member of some
/// `k`-element sub-multiset of `pool`: there is a group of `k` pool
/// members among which the one matching `x` is beaten by none under the
/// goal ordering.
pub open spec fn best_of_group(
    goal: OptimizationGoal,
    pool: Seq<Individual>,
    k: nat,
    x: Individual,
) -> bool {
    exists|g: Seq<Individual>|
        #![trigger g.to_multiset()]
        g.len() == k && g.to_multiset().subset_of(pool.to_multiset()) && exists|w: int|
            0 <= w < g.len() && sig_of(#[trigger] g[w]) == sig_of(x) && forall|m: int|
                0 <= m < g.len() ==> !spec_better(
                    goal,
                    (#[trigger] g[m]).fit().unwrap(),
                    g[w].fit().unwrap(),
                )
}

/// A contiguous piece of a list is a sub-multiset of it.
proof fn lemma_subrange_submultiset(s: Seq<Individual>, a: int, b: int)
    requires
        0 <= a <= b <= s.len(),
    ensures
        s.subrange(a, b).to_multiset().subset_of(s.to_multiset()),
{
    let front = s.subrange(0, a);
    let mid = s.subrange(a, b);
    let back = s.subrange(b, s.len() as int);
    assert(s =~= (front + mid) + back);
    vstd::seq_lib::lemma_multiset_commutative(front + mid, back);
    vstd::seq_lib::lemma_multiset_commutative(front, mid);
    assert forall|v: Individual|
        mid.to_multiset().count(v) <= s.to_multiset().count(v) by {
        assert(s.to_multiset().count(v) == front.to_multiset().count(v)
            + mid.to_multiset().count(v) + back.to_multiset().count(v));
    }
}

/// The index of a best member of the group `pool[start .. start+k]`
/// under the goal ordering: no member of the group beats it.
fn group_best<FF: FitnessFunc>(
    pool: &Vec<Individual>,
    start: usize,
    k: usize,
    fitness_func: &FitnessEvaluator<FF>,
) -> (r: usize)
    requires
        k >= 1,
        start + k <= pool@.len(),
        all_evaluated(pool@),
    ensures
        start <= r < start + k,
        forall|m: int|
            start <= m < start + k ==> !spec_better(
                fitness_func.spec_goal(),
                (#[trigger] pool@[m]).fit().unwrap(),
                pool@[r as int].fit().unwrap(),
            ),
{
    let n = pool.len();
    let mut win: usize = start;
    let mut j: usize = start + 1;
    while j < start + k
        invariant
            start <= win < j <= start + k,
            start + k <= n,
            n == pool@.len(),
            all_evaluated(pool@),
            forall|m: int|
                start <= m < j ==> !spec_better(
                    fitness_func.spec_goal(),
                    (#[trigger] pool@[m]).fit().unwrap(),
                    pool@[win as int].fit().unwrap(),
                ),
        decreases start + k - j,
    {
        let fj = pool[j].fitness();
        let fw = pool[win].fitness();
        let c = fitness_func.cmp(&fj, &fw);
        if matches!(c, core::cmp::Ordering::Less) {
            win = j;
        }
        j = j + 1;
    }
    win
}

/// Tournament selection: pools the offspring (and, optionally, the
/// parents), repeatedly shuffles the pool, partitions it into groups of
/// `tournament_size`, and keeps the best individual of every group,
/// until the population is refilled.  Fails with a pool-size mismatch
/// when the pool does not divide into groups or the population cannot be
/// rebuilt from a whole number of rounds.
#[derive(Clone, Copy, Debug)]
pub struct TournamentSelection {
    pub tournament_size: usize,
    pub include_parents: bool,
}

impl SelectionOperator for TournamentSelection {
    open spec fn select_requires(&self, pop_len: nat, off_len: nat) -> bool {
        &&& self.tournament_size >= 1
        &&& pop_len + off_len <= usize::MAX
        &&& (self.tournament_size * pop_len) as nat <= usize::MAX
    }

    open spec fn select_ok(&self, pop_len: nat, off_len: nat) -> bool {
        let pool = off_len + if self.include_parents {
            pop_len
        } else {
            0nat
        };
        &&& pool > 0
        &&& pool % (self.tournament_size as nat) == 0
        &&& ((self.tournament_size * pop_len) as nat) % pool == 0
    }

    /// Every member of the new population carries the genotype and the
    /// fitness of a member of the tournament pool — the offspring, plus
    /// the parents exactly when `include_parents` is set — and is a
    /// best member of some group of `tournament_size` pool members: no
    /// member of its group beats it under the goal ordering.
    open spec fn select_post(
        &self,
        goal: OptimizationGoal,
        old_pop: Seq<Individual>,
        offspring: Seq<Individual>,
        new_pop: Seq<Individual>,
    ) -> bool {
        forall|i: int|
            0 <= i < new_pop.len() ==> sig_in(
                tournament_pool(self.include_parents, old_pop, offspring),
                #[trigger] new_pop[i],
            ) && best_of_group(
                goal,
                tournament_pool(self.include_parents, old_pop, offspring),
                self.tournament_size as nat,
                new_pop[i],
            )
    }

    fn select<FF: FitnessFunc>(
        &self,
        population: &mut Vec<Individual>,
        offspring: Vec<Individual>,
        fitness_func: &FitnessEvaluator<FF>,
    ) -> (r: Result<(), SelectionError>) {
        let ghost oldpop = population@;
        let ghost offv = offspring@;
        let ghost goal = fitness_func.spec_goal();
        let population_size = population.len();
        let k = self.tournament_size;
        let pool_size = offspring.len() + if self.include_parents {
            population_size
        } else {
            0
        };
        if pool_size == 0 || pool_size % k != 0 || (k * population_size) % pool_size != 0 {
            proof {
                assert forall|i: int|
                    0 <= i < population@.len() implies pop_genos(population@).contains(
                    (#[trigger] population@[i]).geno(),
                ) || pop_genos(offv).contains(population@[i].geno()) by {
                    assert(pop_genos(population@)[i] == population@[i].geno());
                }
            }
            return Err(SelectionError::PoolSizeMismatch);
        }
        let num_iterations = k * population_size / pool_size;
        let num_tournaments = pool_size / k;
        let mut pool: Vec<Individual> = Vec::new();
        if self.include_parents {
            core::mem::swap(population, &mut pool);
        } else {
            population.clear();
        }
        let mut off = offspring;
        pool.append(&mut off);
        let ghost poolv = pool@;
        proof {
            if self.include_parents {
                assert(pool@ == oldpop + offv);
            } else {
                assert(pool@ =~= Seq::<Individual>::empty() + offv);
                assert(pool@ == offv);
            }
            assert(poolv == tournament_pool(self.include_parents, oldpop, offv));
            assert forall|i: int| 0 <= i < pool@.len() implies (#[trigger] pool@[i]).evaluated() by {
                if self.include_parents && i < oldpop.len() {
                    assert(pool@[i] == oldpop[i]);
                } else {
                    let base = if self.include_parents {
                        oldpop.len() as int
                    } else {
                        0int
                    };
                    assert(pool@[i] == offv[i - base]);
                }
            }
            assert forall|i: int|
                0 <= i < pool@.len() implies pop_genos(oldpop).contains(
                (#[trigger] pool@[i]).geno(),
            ) || pop_genos(offv).contains(pool@[i].geno()) by {
                if self.include_parents && i < oldpop.len() {
                    assert(pop_genos(oldpop)[i] == pool@[i].geno());
                } else {
                    let base = if self.include_parents {
                        oldpop.len() as int
                    } else {
                        0int
                    };
                    assert(pop_genos(offv)[i - base] == pool@[i].geno());
                }
            }
        }
        let mut rng = fresh_rng();
        let mut newpop: Vec<Individual> = Vec::new();
        let mut it: usize = 0;
        proof {
            lemma_tournament_counts(
                k as int,
                population_size as int,
                pool_size as int,
                num_iterations as int,
                num_tournaments as int,
            );
        }
        while it < num_iterations
            invariant
                it <= num_iterations,
                k >= 1,
                pool@.len() == pool_size,
                pool_size == num_tournaments * k,
                num_iterations * num_tournaments == population_size,
                newpop@.len() == it * num_tournaments,
                goal == fitness_func.spec_goal(),
                poolv == tournament_pool(self.include_parents, oldpop, offv),
                pool@.to_multiset() == poolv.to_multiset(),
                all_evaluated(pool@),
                all_evaluated(newpop@),
                forall|i: int|
                    0 <= i < pool@.len() ==> pop_genos(oldpop).contains(
                        (#[trigger] pool@[i]).geno(),
                    ) || pop_genos(offv).contains(pool@[i].geno()),
                forall|i: int|
                    0 <= i < newpop@.len() ==> pop_genos(oldpop).contains(
                        (#[trigger] newpop@[i]).geno(),
                    ) || pop_genos(offv).contains(newpop@[i].geno()),
                forall|i: int|
                    0 <= i < newpop@.len() ==> sig_in(poolv, #[trigger] newpop@[i])
                        && best_of_group(goal, poolv, k as nat, newpop@[i]),
            decreases num_iterations - it,
        {
            let ghost pre_shuffle = pool@;
            shuffle_individuals(&mut rng, &mut pool);
            proof {
                assert forall|i: int| 0 <= i < pool@.len() implies ((#[trigger] pool@[i]).evaluated()
                    && (pop_genos(oldpop).contains(pool@[i].geno()) || pop_genos(offv).contains(
                    pool@[i].geno()))) by {
                    assert(pool@.to_multiset().contains(pool@[i]));
                    assert(pre_shuffle.to_multiset().contains(pool@[i]));
                    assert(pre_shuffle.contains(pool@[i]));
                    let w = choose|w: int| 0 <= w < pre_shuffle.len() && pre_shuffle[w] == pool@[i];
                    assert(pre_shuffle[w].evaluated());
                }
            }
            let mut t: usize = 0;
            while t < num_tournaments
                invariant
                    t <= num_tournaments,
                    it < num_iterations,
                    k >= 1,
                    pool@.len() == pool_size,
                    pool_size == num_tournaments * k,
                    num_iterations * num_tournaments == population_size,
                    newpop@.len() == it * num_tournaments + t,
                    goal == fitness_func.spec_goal(),
                    poolv == tournament_pool(self.include_parents, oldpop, offv),
                    pool@.to_multiset() == poolv.to_multiset(),
                    all_evaluated(pool@),
                    all_evaluated(newpop@),
                    forall|i: int|
                        0 <= i < pool@.len() ==> pop_genos(oldpop).contains(
                            (#[trigger] pool@[i]).geno(),
                        ) || pop_genos(offv).contains(pool@[i].geno()),
                    forall|i: int|
                        0 <= i < newpop@.len() ==> pop_genos(oldpop).contains(
                            (#[trigger] newpop@[i]).geno(),
                        ) || pop_genos(offv).contains(newpop@[i].geno()),
                    forall|i: int|
                        0 <= i < newpop@.len() ==> sig_in(poolv, #[trigger] newpop@[i])
                            && best_of_group(goal, poolv, k as nat, newpop@[i]),
                decreases num_tournaments - t,
            {
                proof {
                    assert((t + 1) * k <= num_tournaments * k) by (nonlinear_arith)
                        requires
                            t + 1 <= num_tournaments,
                            k >= 1,
                    ;
                    assert(t * k + k == (t + 1) * k) by (nonlinear_arith);
                    assert(t * k >= 0) by (nonlinear_arith)
                        requires
                            t >= 0,
                            k >= 1,
                    ;
                }
                let start = t * k;
                let win = group_best(&pool, start, k, fitness_func);
                let winner = pool[win].clone();
                let ghost old_newpop = newpop@;
                newpop.push(winner);
                proof {
                    assert(winner.geno() == pool@[win as int].geno());
                    assert(it * num_tournaments + t + 1 == it * num_tournaments + (t + 1));
                    assert(pool@.to_multiset().contains(pool@[win as int]));
                    assert(poolv.to_multiset().contains(pool@[win as int]));
                    assert(poolv.contains(pool@[win as int]));
                    let w = choose|w: int|
                        0 <= w < poolv.len() && poolv[w] == pool@[win as int];
                    assert(sig_of(poolv[w]) == sig_of(winner));
                    let group = pool@.subrange(start as int, start + k);
                    lemma_subrange_submultiset(pool@, start as int, start + k);
                    assert(group.to_multiset().subset_of(poolv.to_multiset())) by {
                        assert forall|v: Individual|
                            group.to_multiset().count(v) <= poolv.to_multiset().count(v) by {
                            assert(group.to_multiset().count(v) <= pool@.to_multiset().count(v));
                        }
                    }
                    let gw = win - start as int;
                    assert(group[gw] == pool@[win as int]);
                    assert(sig_of(group[gw]) == sig_of(winner));
                    assert(forall|m: int|
                        0 <= m < group.len() ==> #[trigger] group[m] == pool@[start + m]);
                    assert(forall|m: int|
                        0 <= m < group.len() ==> !spec_better(
                            goal,
                            (#[trigger] group[m]).fit().unwrap(),
                            group[gw].fit().unwrap(),
                        ));
                    assert(best_of_group(goal, poolv, k as nat, winner)) by {
                        assert(group.len() == k as nat && group.to_multiset().subset_of(
                            poolv.to_multiset(),
                        ) && 0 <= gw < group.len() && sig_of(group[gw]) == sig_of(winner));
                    }
                    assert forall|i: int|
                        0 <= i < newpop@.len() implies (sig_in(poolv, #[trigger] newpop@[i])
                        && best_of_group(goal, poolv, k as nat, newpop@[i])) by {
                        if i < old_newpop.len() {
                            assert(newpop@[i] == old_newpop[i]);
                            assert(sig_in(poolv, old_newpop[i]));
                            assert(best_of_group(goal, poolv, k as nat, old_newpop[i]));
                        } else {
                            assert(newpop@[i] == winner);
                        }
                    }
                }
                t = t + 1;
            }
            proof {
                assert((it + 1) * num_tournaments == it * num_tournaments + num_tournaments)
                    by (nonlinear_arith);
            }
            it = it + 1;
        }
        *population = newpop;
        Ok(())
    }
}

/// The divisibility conditions of tournament selection let the
/// population be rebuilt exactly: `num_iterations * num_tournaments`
/// equals the population size.
proof fn lemma_tournament_counts(k: int, p: int, pool: int, iters: int, tours: int)
    requires
        k >= 1,
        pool >= 1,
        p >= 0,
        pool % k == 0,
        (k * p) % pool == 0,
        iters == (k * p) / pool,
        tours == pool / k,
    ensures
        iters * tours == p,
        pool == tours * k,
{
    vstd::arithmetic::div_mod::lemma_fundamental_div_mod(k * p, pool);
    vstd::arithmetic::div_mod::lemma_fundamental_div_mod(pool, k);
    assert(k * p == pool * iters);
    assert(pool == k * tours);
    assert(iters * tours == p) by (nonlinear_arith)
        requires
            k * p == pool * iters,
            pool == k * tours,
            k >= 1,
    ;
}

} // verus!
