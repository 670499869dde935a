//! Fitness evaluation: the user-supplied fitness function, the optimization
//! goal, and the counting evaluator with its goal-aware comparator.

use vstd::prelude::*;
use core::cmp::Ordering;
use crate::gene::Allele;
use crate::individual::Individual;

verus! {

/// Whether fitness values are to be minimized or maximized.
#[derive(Clone, Copy, PartialEq, Eq, Structural, Debug)]
pub enum OptimizationGoal {
    Minimize,
    Maximize,
}

/// `a` is strictly better than `b` under the goal.
pub open spec fn spec_better(goal: OptimizationGoal, a: i64, b: i64) -> bool {
    match goal {
        OptimizationGoal::Minimize => a < b,
        OptimizationGoal::Maximize => a > b,
    }
}

/// `a` is at least as good as `b` under the goal.
pub open spec fn spec_better_eq(goal: OptimizationGoal, a: i64, b: i64) -> bool {
    match goal {
        OptimizationGoal::Minimize => a <= b,
        OptimizationGoal::Maximize => a >= b,
    }
}

/// A user-supplied fitness function: a mapping from a genotype to a
/// fitness value.  Nothing is assumed of the values an implementation
/// returns.
pub trait FitnessFunc {
    /// Computes the fitness of the given genotype.
    fn evaluate(&self, genotype: &Vec<Allele>) -> i64;
}

/// Applies the user fitness function to individuals, records each result,
/// counts every call, and orders fitness values so that *better is less*.
pub struct FitnessEvaluator<FF: FitnessFunc> {
    counter: usize,
    evaluation_func: FF,
    goal: OptimizationGoal,
}

impl<FF: FitnessFunc> FitnessEvaluator<FF> {
    /// The number of `evaluate` calls made so far.
    pub closed spec fn evals(&self) -> nat {
        self.counter as nat
    }

    /// The configured optimization goal.
    pub closed spec fn spec_goal(&self) -> OptimizationGoal {
        self.goal
    }

    /// The configured fitness function.
    pub closed spec fn spec_func(&self) -> FF {
        self.evaluation_func
    }

    /// A fresh evaluator with the call counter at zero.
    pub fn new(evaluation_func: FF, goal: OptimizationGoal) -> (r: Self)
        ensures
            r.evals() == 0,
            r.spec_goal() == goal,
            r.spec_func() == evaluation_func,
    {
        FitnessEvaluator { counter: 0, evaluation_func, goal }
    }

    /// Computes the individual's fitness, stores it on the individual,
    /// counts the call, and returns the value.
    pub fn evaluate(&mut self, individual: &mut Individual) -> (r: i64)
        requires
            old(self).evals() < usize::MAX,
        ensures
            final(self).evals() == old(self).evals() + 1,
            final(self).spec_goal() == old(self).spec_goal(),
            final(self).spec_func() == old(self).spec_func(),
            final(individual).geno() == old(individual).geno(),
            final(individual).fit() == Some(r),
    {
        let fitness = self.evaluation_func.evaluate(individual.genotype());
        individual.set_fitness(fitness);
        self.counter = self.counter + 1;
        fitness
    }

    /// The current value of the evaluation counter.
    pub fn evaluations(&self) -> (r: usize)
        ensures
            r == self.evals(),
    {
        self.counter
    }

    /// Goal-aware three-way comparison: *better* is *less*.  Under
    /// `Minimize` this is the natural order of fitness values, under
    /// `Maximize` the reverse.
    pub fn cmp(&self, a: &i64, b: &i64) -> (r: Ordering)
        ensures
            (r == Ordering::Equal) <==> a == b,
            (r == Ordering::Less) <==> spec_better(self.spec_goal(), *a, *b),
            (r == Ordering::Greater) <==> spec_better(self.spec_goal(), *b, *a),
    {
        let (x, y) = match self.goal {
            OptimizationGoal::Minimize => (*a, *b),
            OptimizationGoal::Maximize => (*b, *a),
        };
        if x < y {
            Ordering::Less
        } else if x == y {
            Ordering::Equal
        } else {
            Ordering::Greater
        }
    }
}

/// The number of `true` alleles among the first `i` positions.
pub open spec fn spec_count_true(g: Seq<Allele>, i: int) -> int
    decreases i,
{
    if i <= 0 {
        0
    } else {
        spec_count_true(g, i - 1) + if g[i - 1] == Allele::Bool(true) {
            1int
        } else {
            0int
        }
    }
}

/// Counts the positions holding the Boolean allele `true`.
pub fn one_max(genotype: &Vec<Allele>) -> (r: usize)
    ensures
        r == spec_count_true(genotype@, genotype@.len() as int),
        r <= genotype@.len(),
{
    let mut count: usize = 0;
    let mut i: usize = 0;
    while i < genotype.len()
        invariant
            i <= genotype.len(),
            count == spec_count_true(genotype@, i as int),
            count <= i,
        decreases genotype.len() - i,
    {
        let a = genotype[i];
        if matches!(a, Allele::Bool(true)) {
            count = count + 1;
        }
        i = i + 1;
    }
    count
}

/// The number of `true` values among the first `i` entries.
pub open spec fn spec_count_true_bools(g: Seq<bool>, i: int) -> int
    decreases i,
{
    if i <= 0 {
        0
    } else {
        spec_count_true_bools(g, i - 1) + if g[i - 1] {
            1int
        } else {
            0int
        }
    }
}

/// Counts the `true` values in a raw Boolean chunk.
pub fn one_max_raw(chunk: &Vec<bool>) -> (r: usize)
    ensures
        r == spec_count_true_bools(chunk@, chunk@.len() as int),
        r <= chunk@.len(),
{
    let mut count: usize = 0;
    let mut i: usize = 0;
    while i < chunk.len()
        invariant
            i <= chunk.len(),
            count == spec_count_true_bools(chunk@, i as int),
            count <= i,
        decreases chunk.len() - i,
    {
        if chunk[i] {
            count = count + 1;
        }
        i = i + 1;
    }
    count
}

/// The deceptive-trap score of one block: a block of `k` variables scores
/// `0` when all `k` are true, `k` when none is, and otherwise its number
/// of true values.
pub open spec fn spec_trap_block(ones: int, k: int) -> int {
    if ones == k {
        0
    } else if ones == 0 {
        k
    } else {
        ones
    }
}

/// The total deceptive-trap fitness over the complete blocks of size `k`:
/// the sum of the block scores of the first `b` blocks.
pub open spec fn spec_trap_sum(g: Seq<Allele>, k: int, b: int) -> int
    decreases b,
{
    if b <= 0 || k <= 0 {
        0
    } else {
        spec_trap_sum(g, k, b - 1) + spec_trap_block(
            spec_count_true(g, (b - 1) * k + k) - spec_count_true(g, (b - 1) * k),
            k,
        )
    }
}

/// Deceptive-trap fitness: the genotype is split into contiguous blocks
/// of `k` Boolean variables (a trailing partial block is ignored) and the
/// block scores are summed.
pub fn deceptive_trap(genotype: &Vec<Allele>, k: usize) -> (r: usize)
    requires
        k > 0,
    ensures
        r == spec_trap_sum(genotype@, k as int, genotype@.len() as int / k as int),
{
    let n = genotype.len();
    let blocks = n / k;
    let mut total: usize = 0;
    let mut b: usize = 0;
    while b < blocks
        invariant
            b <= blocks,
            blocks == genotype@.len() as int / k as int,
            k > 0,
            n == genotype@.len(),
            total == spec_trap_sum(genotype@, k as int, b as int),
            total <= b * k,
        decreases blocks - b,
    {
        proof {
            assert((b + 1) * k <= blocks * k <= n) by (nonlinear_arith)
                requires
                    b + 1 <= blocks,
                    blocks == n as int / k as int,
                    k > 0,
            ;
            assert(b * k + k == (b + 1) * k) by (nonlinear_arith);
        }
        let start = b * k;
        let mut ones: usize = 0;
        let mut j: usize = 0;
        while j < k
            invariant
                j <= k,
                start == b * k,
                start + k <= n,
                n == genotype@.len(),
                ones == spec_count_true(genotype@, start + j) - spec_count_true(
                    genotype@,
                    start as int,
                ),
                ones <= j,
            decreases k - j,
        {
            let a = genotype[start + j];
            if matches!(a, Allele::Bool(true)) {
                ones = ones + 1;
            }
            proof {
                lemma_count_true_bounds(genotype@, start as int, start + j + 1);
            }
            j = j + 1;
        }
        let score = if ones == k {
            0
        } else if ones == 0 {
            k
        } else {
            ones
        };
        proof {
            assert(total + score <= (b + 1) * k) by (nonlinear_arith)
                requires
                    total <= b * k,
                    score <= k,
                    k > 0,
                    b >= 0,
            ;
        }
        total = total + score;
        b = b + 1;
    }
    total
}

/// The count of true alleles over a window is between zero and the window
/// length.
proof fn lemma_count_true_bounds(g: Seq<Allele>, lo: int, hi: int)
    requires
        0 <= lo <= hi,
    ensures
        0 <= spec_count_true(g, hi) - spec_count_true(g, lo) <= hi - lo,
    decreases hi - lo,
{
    if lo < hi {
        lemma_count_true_bounds(g, lo, hi - 1);
    }
}

/// The OneMax benchmark fitness function: the number of true alleles.
pub struct OneMaxFunction;

impl FitnessFunc for OneMaxFunction {
    fn evaluate(&self, genotype: &Vec<Allele>) -> i64 {
        let c = one_max(genotype);
        if c > i64::MAX as usize {
            i64::MAX
        } else {
            c as i64
        }
    }
}

/// The deceptive-trap benchmark fitness function over blocks of size `k`.
pub struct DeceptiveTrapFunction {
    pub k: usize,
}

impl FitnessFunc for DeceptiveTrapFunction {
    fn evaluate(&self, genotype: &Vec<Allele>) -> i64 {
        let k = if self.k == 0 {
            1
        } else {
            self.k
        };
        let c = deceptive_trap(genotype, k);
        if c > i64::MAX as usize {
            i64::MAX
        } else {
            c as i64
        }
    }
}

} // verus!
