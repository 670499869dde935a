//! Probabilistic models over the search space: the factorization of the
//! variable set, the univariate model, and the multivariate model with its
//! MDL complexity scores.

use vstd::prelude::*;
use vstd::multiset::Multiset;
use vstd::seq_lib::lemma_multiset_commutative;
use crate::gene::Allele;
use crate::gene::seq_distinct;
use crate::genome::Genome;
use crate::individual::Individual;
use crate::rng::{seq_sum, sample_weighted};
use crate::entropy::{spec_log2_fp, lemma_log2_fp_bound};

verus! {

broadcast use vstd::multiset::group_multiset_axioms, vstd::seq_lib::group_to_multiset_ensures;

/// The multiset union of a list of factors: every variable index with the
/// number of times it occurs in any factor.
pub open spec fn factors_union(f: Seq<Seq<usize>>) -> Multiset<usize>
    decreases f.len(),
{
    if f.len() == 0 {
        Multiset::empty()
    } else {
        f[0].to_multiset().add(factors_union(f.drop_first()))
    }
}

/// The multiset `{0, 1, ..., l-1}`, each index once.
pub open spec fn range_multiset(l: int) -> Multiset<usize>
    decreases l,
{
    if l <= 0 {
        Multiset::empty()
    } else {
        range_multiset(l - 1).insert((l - 1) as usize)
    }
}

/// A list of factors is a partition of the variable set `{0,...,l-1}`
/// when every factor is non-empty and the multiset union of the factors
/// holds each of the `l` indices exactly once.
pub open spec fn is_partition(f: Seq<Seq<usize>>, l: int) -> bool {
    &&& forall|i: int| 0 <= i < f.len() ==> (#[trigger] f[i]).len() > 0
    &&& factors_union(f) =~= range_multiset(l)
}

/// The factors that remain when positions `a` and `b` are taken out, in
/// their original order.
pub open spec fn remove_two(f: Seq<Seq<usize>>, a: int, b: int) -> Seq<Seq<usize>> {
    f.subrange(0, a) + f.subrange(a + 1, b) + f.subrange(b + 1, f.len() as int)
}

/// The factorization that results from joining the factors at positions
/// `a < b`: both are removed and their concatenation is appended.
pub open spec fn spec_join(f: Seq<Seq<usize>>, a: int, b: int) -> Seq<Seq<usize>> {
    remove_two(f, a, b).push(f[a] + f[b])
}

/// The join of two distinct factor positions in either order: the
/// remaining factors keep their order and the appended factor is always
/// `f[a] + f[b]`, in argument order.  For `a < b` this is `spec_join`.
pub open spec fn spec_join_pair(f: Seq<Seq<usize>>, a: int, b: int) -> Seq<Seq<usize>> {
    if a < b {
        remove_two(f, a, b).push(f[a] + f[b])
    } else {
        remove_two(f, b, a).push(f[a] + f[b])
    }
}

/// Splitting a factor list splits its multiset union.
pub proof fn lemma_factors_union_concat(s1: Seq<Seq<usize>>, s2: Seq<Seq<usize>>)
    ensures
        factors_union(s1 + s2) =~= factors_union(s1).add(factors_union(s2)),
    decreases s1.len(),
{
    if s1.len() == 0 {
        assert(s1 + s2 =~= s2);
    } else {
        assert((s1 + s2).drop_first() =~= s1.drop_first() + s2);
        lemma_factors_union_concat(s1.drop_first(), s2);
    }
}

/// The multiset union of a single factor is that factor's multiset.
pub proof fn lemma_factors_union_single(x: Seq<usize>)
    ensures
        factors_union(seq![x]) =~= x.to_multiset(),
{
    assert(factors_union(Seq::<Seq<usize>>::empty()) =~= Multiset::<usize>::empty());
    assert(seq![x].drop_first() =~= Seq::<Seq<usize>>::empty());
    assert(seq![x][0] == x);
}

/// Joining two factors leaves the multiset union of the factorization
/// unchanged.
pub proof fn lemma_join_union(f: Seq<Seq<usize>>, a: int, b: int)
    requires
        0 <= a < b < f.len(),
    ensures
        factors_union(spec_join(f, a, b)) =~= factors_union(f),
{
    let p0 = f.subrange(0, a);
    let p1 = f.subrange(a + 1, b);
    let p2 = f.subrange(b + 1, f.len() as int);
    let fa = seq![f[a]];
    let fb = seq![f[b]];
    let joined = seq![f[a] + f[b]];
    assert(f =~= p0 + fa + p1 + fb + p2);
    assert(spec_join(f, a, b) =~= p0 + p1 + p2 + joined);
    lemma_factors_union_concat(p0 + fa + p1 + fb, p2);
    lemma_factors_union_concat(p0 + fa + p1, fb);
    lemma_factors_union_concat(p0 + fa, p1);
    lemma_factors_union_concat(p0, fa);
    lemma_factors_union_concat(p0 + p1 + p2, joined);
    lemma_factors_union_concat(p0 + p1, p2);
    lemma_factors_union_concat(p0, p1);
    lemma_factors_union_single(fa[0]);
    lemma_factors_union_single(fb[0]);
    lemma_factors_union_single(joined[0]);
    lemma_multiset_commutative(f[a], f[b]);
}

/// Joining two factors of a partition yields a partition again.
pub proof fn lemma_join_preserves_partition(f: Seq<Seq<usize>>, l: int, a: int, b: int)
    requires
        is_partition(f, l),
        0 <= a < b < f.len(),
    ensures
        is_partition(spec_join(f, a, b), l),
{
    lemma_join_union(f, a, b);
    let g = spec_join(f, a, b);
    assert forall|i: int| 0 <= i < g.len() implies (#[trigger] g[i]).len() > 0 by {
        if i < a {
            assert(g[i] == f[i]);
        } else if i < b - 1 {
            assert(g[i] == f[i + 1]);
        } else if i < g.len() - 1 {
            assert(g[i] == f[i + 2]);
        } else {
            assert(g[i] == f[a] + f[b]);
        }
    }
}

/// A partition of {0,...,l-1}: a list of non-empty, pairwise-disjoint
/// factors of variable indices whose multiset union is exactly
/// `{0,...,l-1}`.
#[derive(Debug)]
pub struct Factorization {
    factors: Vec<Vec<usize>>,
}

impl View for Factorization {
    type V = Seq<Seq<usize>>;

    closed spec fn view(&self) -> Seq<Seq<usize>> {
        self.factors@.map(|i: int, v: Vec<usize>| v@)
    }
}

impl Factorization {
    /// The univariate factorization over `len` variables:
    /// `[[0], [1], ..., [len-1]]`.
    pub fn univariate(len: usize) -> (r: Self)
        ensures
            r@.len() == len,
            forall|i: int| 0 <= i < len ==> #[trigger] r@[i] =~= seq![i as usize],
            is_partition(r@, len as int),
    {
        let mut factors: Vec<Vec<usize>> = Vec::new();
        let mut i: usize = 0;
        while i < len
            invariant
                i <= len,
                factors@.len() == i,
                forall|j: int| 0 <= j < i ==> #[trigger] factors@[j]@ =~= seq![j as usize],
                factors_union(factors@.map(|k: int, v: Vec<usize>| v@)) =~= range_multiset(
                    i as int,
                ),
            decreases len - i,
        {
            let mut unit: Vec<usize> = Vec::new();
            unit.push(i);
            let ghost before = factors@.map(|k: int, v: Vec<usize>| v@);
            factors.push(unit);
            proof {
                let after = factors@.map(|k: int, v: Vec<usize>| v@);
                assert(after =~= before.push(unit@));
                lemma_factors_union_concat(before, seq![unit@]);
                assert(before + seq![unit@] =~= after);
                lemma_factors_union_single(unit@);
                assert(unit@.to_multiset() =~= Multiset::empty().insert(i));
                assert(factors_union(after) =~= range_multiset(i + 1));
            }
            i = i + 1;
        }
        let r = Factorization { factors };
        proof {
            assert(is_partition(r@, len as int));
        }
        r
    }

    /// The number of factors.
    pub fn len(&self) -> (r: usize)
        ensures
            r == self@.len(),
    {
        self.factors.len()
    }

    /// The factor at position `idx`.
    pub fn get_factor(&self, idx: usize) -> (r: &Vec<usize>)
        requires
            idx < self@.len(),
        ensures
            r@ == self@[idx as int],
    {
        &self.factors[idx]
    }

    /// A new factorization in which the factors at two distinct
    /// positions are replaced by a single factor holding their
    /// concatenation (in argument order), appended after the remaining
    /// factors (whose order is kept).
    pub fn join(&self, idx_a: usize, idx_b: usize) -> (r: Self)
        requires
            idx_a < self@.len(),
            idx_b < self@.len(),
            idx_a != idx_b,
        ensures
            r@ =~= spec_join_pair(self@, idx_a as int, idx_b as int),
            idx_a < idx_b ==> r@ =~= spec_join(self@, idx_a as int, idx_b as int),
            r@.len() == self@.len() - 1,
    {
        let ghost lo = if idx_a < idx_b {
            idx_a as int
        } else {
            idx_b as int
        };
        let ghost hi = if idx_a < idx_b {
            idx_b as int
        } else {
            idx_a as int
        };
        let mut joined = self.factors[idx_a].clone();
        proof {
            assert(joined@ =~= self.factors@[idx_a as int]@);
        }
        let fb = &self.factors[idx_b];
        let mut k: usize = 0;
        while k < fb.len()
            invariant
                k <= fb@.len(),
                fb@ == self.factors@[idx_b as int]@,
                idx_a < self.factors@.len(),
                idx_b < self.factors@.len(),
                joined@ =~= self.factors@[idx_a as int]@ + fb@.take(k as int),
            decreases fb@.len() - k,
        {
            joined.push(fb[k]);
            proof {
                assert(fb@.take(k + 1) =~= fb@.take(k as int).push(fb@[k as int]));
            }
            k = k + 1;
        }
        proof {
            assert(fb@.take(fb@.len() as int) =~= fb@);
        }
        let mut factors: Vec<Vec<usize>> = Vec::new();
        let mut i: usize = 0;
        while i < self.factors.len()
            invariant
                i <= self.factors@.len(),
                idx_a < self.factors@.len(),
                idx_b < self.factors@.len(),
                idx_a != idx_b,
                lo == if idx_a < idx_b {
                    idx_a as int
                } else {
                    idx_b as int
                },
                hi == if idx_a < idx_b {
                    idx_b as int
                } else {
                    idx_a as int
                },
                factors@.map(|k2: int, v: Vec<usize>| v@) =~= spec_join_pair(
                    self@,
                    idx_a as int,
                    idx_b as int,
                ).take(
                    if i <= lo {
                        i as int
                    } else if i <= hi {
                        i - 1
                    } else {
                        i - 2
                    },
                ),
            decreases self.factors@.len() - i,
        {
            if i != idx_a && i != idx_b {
                let ghost before = factors@.map(|k2: int, v: Vec<usize>| v@);
                factors.push(self.factors[i].clone());
                proof {
                    assert(factors@.map(|k2: int, v: Vec<usize>| v@) =~= before.push(
                        self.factors@[i as int]@,
                    ));
                    let sj = spec_join_pair(self@, idx_a as int, idx_b as int);
                    let pos = if i < lo {
                        i as int
                    } else if i < hi {
                        i - 1
                    } else {
                        i - 2
                    };
                    assert(sj[pos] == self@[i as int]);
                    assert(sj.take(pos + 1) =~= sj.take(pos).push(sj[pos]));
                }
            }
            i = i + 1;
        }
        let ghost before_last = factors@.map(|k2: int, v: Vec<usize>| v@);
        factors.push(joined);
        let r = Factorization { factors };
        proof {
            let sj = spec_join_pair(self@, idx_a as int, idx_b as int);
            assert(r@ =~= before_last.push(joined@));
            assert(sj.take(sj.len() - 1) =~= remove_two(self@, lo, hi));
            assert(joined@ =~= self@[idx_a as int] + self@[idx_b as int]);
            assert(r@ =~= sj);
        }
        r
    }

    /// All factorizations obtained by joining one pair of factors, for
    /// every pair `a < b`, in lexicographic order of `(a, b)`.  A
    /// factorization of one factor (or none) yields an empty sequence,
    /// and in general the sequence holds exactly `n (n-1) / 2` entries.
    pub fn join_all(&self) -> (r: Vec<Factorization>)
        ensures
            r@.len() == self@.len() * (self@.len() - 1) / 2,
            forall|a: int, b: int|
                0 <= a < b < self@.len() ==> #[trigger] pair_index(self@.len() as int, a, b)
                    < r@.len() && r@[pair_index(self@.len() as int, a, b)]@ == spec_join(
                    self@,
                    a,
                    b,
                ),
    {
        let n = self.factors.len();
        let mut out: Vec<Factorization> = Vec::new();
        if n < 2 {
            proof {
                assert(self@.len() * (self@.len() - 1) / 2 == 0) by (nonlinear_arith)
                    requires
                        self@.len() < 2,
                ;
            }
            return out;
        }
        let mut a: usize = 0;
        while a < n - 1
            invariant
                a <= n - 1,
                2 <= n,
                n == self@.len(),
                out@.len() == pair_count(self@.len() as int, a as int),
                forall|x: int, y: int|
                    0 <= x < y < self@.len() && x < a ==> #[trigger] pair_index(
                        self@.len() as int,
                        x,
                        y,
                    ) < out@.len() && out@[pair_index(self@.len() as int, x, y)]@ == spec_join(
                        self@,
                        x,
                        y,
                    ),
            decreases n - a,
        {
            let mut b: usize = a + 1;
            proof {
                lemma_pair_count_monotonic(self@.len() as int, a as int, a + 1);
            }
            while b < n
                invariant
                    a < b <= n,
                    a < n - 1,
                    2 <= n,
                    n == self@.len(),
                    out@.len() == pair_count(self@.len() as int, a as int) + (b - a - 1),
                    forall|x: int, y: int|
                        0 <= x < y < self@.len() && (x < a || (x == a && y < b))
                            ==> #[trigger] pair_index(self@.len() as int, x, y) < out@.len()
                            && out@[pair_index(self@.len() as int, x, y)]@ == spec_join(
                            self@,
                            x,
                            y,
                        ),
                decreases n - b,
            {
                let j = self.join(a, b);
                proof {
                    lemma_pair_index_bounds(self@.len() as int, a as int, b as int);
                }
                let ghost old_out = out@;
                out.push(j);
                proof {
                    assert(out@ == old_out.push(j));
                    assert(j@ =~= spec_join(self@, a as int, b as int));
                    assert(out@[pair_index(self@.len() as int, a as int, b as int)]@ == spec_join(
                        self@,
                        a as int,
                        b as int,
                    ));
                    assert forall|x: int, y: int|
                        0 <= x < y < self@.len() && (x < a || (x == a && y < b + 1)) implies #[trigger] pair_index(
                        self@.len() as int,
                        x,
                        y,
                    ) < out@.len() && out@[pair_index(self@.len() as int, x, y)]@ == spec_join(
                        self@,
                        x,
                        y,
                    ) by {
                        if x < a || y < b {
                            lemma_pair_index_bounds(self@.len() as int, x, y);
                            assert(pair_index(self@.len() as int, x, y) < old_out.len()
                                && old_out[pair_index(self@.len() as int, x, y)]@ == spec_join(
                                self@,
                                x,
                                y,
                            ));
                            assert(old_out.push(j)[pair_index(self@.len() as int, x, y)]
                                == old_out[pair_index(self@.len() as int, x, y)]);
                            assert(out@[pair_index(self@.len() as int, x, y)]
                                == old_out[pair_index(self@.len() as int, x, y)]);
                        } else {
                            assert(x == a && y == b);
                            assert(pair_index(self@.len() as int, x, y) == old_out.len());
                        }
                    }
                }
                b = b + 1;
            }
            a = a + 1;
            proof {
                assert(pair_count(self@.len() as int, a as int) == pair_count(
                    self@.len() as int,
                    a - 1,
                ) + (self@.len() - a));
            }
        }
        proof {
            lemma_pair_count_total(self@.len() as int);
        }
        out
    }

    /// The non-empty factors, in order.  For a well-formed factorization
    /// every factor is non-empty, so this is the whole factor list.
    pub fn iter(&self) -> (r: Vec<Vec<usize>>)
        requires
            forall|i: int| 0 <= i < self@.len() ==> (#[trigger] self@[i]).len() > 0,
        ensures
            r@.len() == self@.len(),
            forall|i: int| 0 <= i < self@.len() ==> #[trigger] r@[i]@ == self@[i],
    {
        let mut out: Vec<Vec<usize>> = Vec::new();
        let mut i: usize = 0;
        while i < self.factors.len()
            invariant
                i <= self.factors@.len(),
                out@.len() == i,
                forall|j: int| 0 <= j < i ==> (#[trigger] out@[j])@ == self@[j],
                forall|j: int| 0 <= j < self@.len() ==> (#[trigger] self@[j]).len() > 0,
            decreases self.factors@.len() - i,
        {
            let f = self.factors[i].clone();
            proof {
                assert(f@ =~= self.factors@[i as int]@);
                assert(self@[i as int].len() > 0);
            }
            out.push(f);
            i = i + 1;
        }
        out
    }

    /// For each factor, the list of `(variable index, allele)` pairs that
    /// the given genotype assigns to the factor's variables.
    pub fn iter_genotype(&self, genotype: &Vec<Allele>) -> (r: Vec<Vec<(usize, Allele)>>)
        requires
            forall|i: int, j: int|
                0 <= i < self@.len() && 0 <= j < self@[i].len() ==> (#[trigger] self@[i][j])
                    < genotype@.len(),
        ensures
            r@.len() == self@.len(),
            forall|i: int| 0 <= i < self@.len() ==> (#[trigger] r@[i])@.len() == self@[i].len(),
            forall|i: int, j: int|
                0 <= i < self@.len() && 0 <= j < self@[i].len() ==> (#[trigger] r@[i]@[j]) == (
                self@[i][j],
                genotype@[self@[i][j] as int],
                ),
    {
        let mut out: Vec<Vec<(usize, Allele)>> = Vec::new();
        let mut i: usize = 0;
        while i < self.factors.len()
            invariant
                i <= self.factors@.len(),
                out@.len() == i,
                forall|i2: int, j: int|
                    0 <= i2 < self@.len() && 0 <= j < self@[i2].len() ==> (#[trigger] self@[i2][j])
                        < genotype@.len(),
                forall|i2: int| 0 <= i2 < i ==> (#[trigger] out@[i2])@.len() == self@[i2].len(),
                forall|i2: int, j: int|
                    0 <= i2 < i && 0 <= j < self@[i2].len() ==> (#[trigger] out@[i2]@[j]) == (
                    self@[i2][j],
                    genotype@[self@[i2][j] as int],
                    ),
            decreases self.factors@.len() - i,
        {
            let factor = &self.factors[i];
            let mut row: Vec<(usize, Allele)> = Vec::new();
            let mut j: usize = 0;
            while j < factor.len()
                invariant
                    j <= factor@.len(),
                    i < self.factors@.len(),
                    factor@ == self@[i as int],
                    forall|i2: int, j2: int|
                        0 <= i2 < self@.len() && 0 <= j2 < self@[i2].len() ==> (
                        #[trigger] self@[i2][j2]) < genotype@.len(),
                    row@.len() == j,
                    forall|j2: int|
                        0 <= j2 < j ==> (#[trigger] row@[j2]) == (
                        factor@[j2],
                        genotype@[factor@[j2] as int],
                        ),
                decreases factor@.len() - j,
            {
                let idx = factor[j];
                row.push((idx, genotype[idx]));
                j = j + 1;
            }
            out.push(row);
            i = i + 1;
        }
        out
    }
}

impl Clone for Factorization {
    /// A deep copy holding the same factors.
    fn clone(&self) -> (r: Self)
        ensures
            r@ == self@,
    {
        let n = self.factors.len();
        let mut factors: Vec<Vec<usize>> = Vec::new();
        let mut i: usize = 0;
        while i < n
            invariant
                i <= n,
                n == self.factors@.len(),
                factors@.len() == i,
                forall|j: int| 0 <= j < i ==> (#[trigger] factors@[j])@ == self.factors@[j]@,
            decreases n - i,
        {
            let row = self.factors[i].clone();
            proof {
                assert(row@ =~= self.factors@[i as int]@);
            }
            factors.push(row);
            i = i + 1;
        }
        let r = Factorization { factors };
        proof {
            assert(r@ =~= self@);
        }
        r
    }
}

/// The number of pairs `(x, y)` with `x < y < n` whose first component is
/// below `a`.
pub open spec fn pair_count(n: int, a: int) -> int
    decreases a,
{
    if a <= 0 {
        0
    } else {
        pair_count(n, a - 1) + (n - a)
    }
}

/// The position of the pair `(a, b)` in the lexicographic enumeration of
/// all pairs `x < y < n`.
pub open spec fn pair_index(n: int, a: int, b: int) -> int {
    pair_count(n, a) + (b - a - 1)
}

/// `pair_count` grows with its second argument.
pub proof fn lemma_pair_count_monotonic(n: int, a1: int, a2: int)
    requires
        0 <= a1 <= a2 <= n - 1,
    ensures
        pair_count(n, a1) <= pair_count(n, a2),
        a1 < a2 ==> pair_count(n, a1) + (n - a1 - 1) <= pair_count(n, a2),
    decreases a2 - a1,
{
    if a1 < a2 {
        lemma_pair_count_monotonic(n, a1 + 1, a2);
    }
}

/// The pair count is never negative.
pub proof fn lemma_pair_count_nonneg(n: int, a: int)
    requires
        0 <= a <= n,
    ensures
        pair_count(n, a) >= 0,
    decreases a,
{
    if a > 0 {
        lemma_pair_count_nonneg(n, a - 1);
    }
}

/// Every pair's index lies below the index region of later pairs.
pub proof fn lemma_pair_index_bounds(n: int, a: int, b: int)
    requires
        0 <= a < b < n,
    ensures
        0 <= pair_count(n, a) <= pair_index(n, a, b),
        pair_index(n, a, b) < pair_count(n, a) + (n - a - 1),
        pair_index(n, a, b) < pair_count(n, n - 1),
{
    lemma_pair_count_nonneg(n, a);
    lemma_pair_count_monotonic(n, a + 1, n - 1);
}

/// The total number of pairs over `n` elements is `n (n-1) / 2`.
pub proof fn lemma_pair_count_total(n: int)
    requires
        n >= 1,
    ensures
        pair_count(n, n - 1) == n * (n - 1) / 2,
{
    lemma_pair_count_closed(n, n - 1);
    let pc = pair_count(n, n - 1);
    assert((n - 1) * (2 * n - (n - 1) - 1) == n * (n - 1)) by (nonlinear_arith);
    vstd::arithmetic::div_mod::lemma_div_multiples_vanish(pc, 2);
    assert(n * (n - 1) == 2 * pc);
}

/// Closed form: `pair_count(n, a) == a*n - a*(a+1)/2`, stated without
/// division as `2 * pair_count(n, a) == a * (2*n - a - 1)`.
proof fn lemma_pair_count_closed(n: int, a: int)
    requires
        0 <= a,
    ensures
        2 * pair_count(n, a) == a * (2 * n - a - 1),
    decreases a,
{
    if a > 0 {
        lemma_pair_count_closed(n, a - 1);
        assert(pair_count(n, a) == pair_count(n, a - 1) + (n - a));
        assert(2 * pair_count(n, a) == a * (2 * n - a - 1)) by (nonlinear_arith)
            requires
                2 * pair_count(n, a - 1) == (a - 1) * (2 * n - (a - 1) - 1),
                pair_count(n, a) == pair_count(n, a - 1) + (n - a),
        ;
    } else {
        assert(a * (2 * n - a - 1) == 0) by (nonlinear_arith)
            requires
                a == 0,
        ;
    }
}

/// Every position below the total pair count is the index of exactly one
/// pair `x < y < n` in the lexicographic enumeration.
pub proof fn lemma_pair_index_surjective(n: int, k: int)
    requires
        n >= 1,
        0 <= k < pair_count(n, n - 1),
    ensures
        exists|x: int, y: int| 0 <= x < y < n && k == pair_index(n, x, y),
{
    lemma_find_row(n, k, 0);
}

/// Helper for surjectivity: the pair for `k` lies in some row at or after
/// `a`.
proof fn lemma_find_row(n: int, k: int, a: int)
    requires
        n >= 1,
        0 <= a <= n - 1,
        pair_count(n, a) <= k < pair_count(n, n - 1),
    ensures
        exists|x: int, y: int| 0 <= x < y < n && k == pair_index(n, x, y),
    decreases n - a,
{
    assert(pair_count(n, a + 1) == pair_count(n, a) + (n - a - 1));
    if k < pair_count(n, a + 1) {
        let y = k - pair_count(n, a) + a + 1;
        assert(0 <= a < y < n && k == pair_index(n, a, y));
    } else {
        if a + 1 > n - 1 {
            assert(pair_count(n, n) == pair_count(n, n - 1) + (n - n));
            assert(false);
        }
        lemma_find_row(n, k, a + 1);
    }
}


/// The multiset union counts at least every occurrence inside one factor.
proof fn lemma_count_union_single(f: Seq<Seq<usize>>, x: usize, i: int)
    requires
        0 <= i < f.len(),
    ensures
        factors_union(f).count(x) >= f[i].to_multiset().count(x),
    decreases f.len(),
{
    if i == 0 {
    } else {
        lemma_count_union_single(f.drop_first(), x, i - 1);
        assert(f.drop_first()[i - 1] == f[i]);
    }
}

/// The multiset union counts at least the occurrences inside two distinct
/// factors together.
proof fn lemma_count_union_pair(f: Seq<Seq<usize>>, x: usize, i: int, j: int)
    requires
        0 <= i < j < f.len(),
    ensures
        factors_union(f).count(x) >= f[i].to_multiset().count(x) + f[j].to_multiset().count(x),
    decreases f.len(),
{
    if i == 0 {
        lemma_count_union_single(f.drop_first(), x, j - 1);
        assert(f.drop_first()[j - 1] == f[j]);
    } else {
        lemma_count_union_pair(f.drop_first(), x, i - 1, j - 1);
        assert(f.drop_first()[i - 1] == f[i]);
        assert(f.drop_first()[j - 1] == f[j]);
    }
}

/// The multiset `{0,...,l-1}` holds each index below `l` once and nothing
/// else.
proof fn lemma_range_multiset_count(l: int, x: usize)
    requires
        l <= usize::MAX + 1,
    ensures
        range_multiset(l).count(x) == if x < l {
            1nat
        } else {
            0nat
        },
    decreases l,
{
    if l > 0 {
        lemma_range_multiset_count(l - 1, x);
    }
}

/// Distinct pairs of factors of a partition join to distinct
/// factorizations.
pub proof fn lemma_join_injective(f: Seq<Seq<usize>>, l: int, a: int, b: int, c: int, d: int)
    requires
        l <= usize::MAX,
        is_partition(f, l),
        0 <= a < b < f.len(),
        0 <= c < d < f.len(),
        !(a == c && b == d),
    ensures
        spec_join(f, a, b) != spec_join(f, c, d),
{
    let e = if a != c && a != d {
        a
    } else {
        b
    };
    assert(e != c && e != d);
    let x = f[e][0];
    assert(f[e].contains(x));
    assert(f[e].to_multiset().count(x) >= 1);
    if spec_join(f, a, b) == spec_join(f, c, d) {
        let jab = f[a] + f[b];
        let jcd = f[c] + f[d];
        assert(spec_join(f, a, b).last() == jab);
        assert(spec_join(f, c, d).last() == jcd);
        assert(jab == jcd);
        lemma_multiset_commutative(f[a], f[b]);
        lemma_multiset_commutative(f[c], f[d]);
        assert(f[a].to_multiset().add(f[b].to_multiset()) =~= f[c].to_multiset().add(
            f[d].to_multiset(),
        ));
        assert(f[a].to_multiset().add(f[b].to_multiset()).count(x) == f[a].to_multiset().count(x)
            + f[b].to_multiset().count(x));
        assert(f[c].to_multiset().add(f[d].to_multiset()).count(x) == f[c].to_multiset().count(x)
            + f[d].to_multiset().count(x));
        assert(f[c].to_multiset().count(x) + f[d].to_multiset().count(x) >= 1);
        let g = if f[c].to_multiset().count(x) >= 1 {
            c
        } else {
            d
        };
        assert(f[g].to_multiset().count(x) >= 1);
        if e < g {
            lemma_count_union_pair(f, x, e, g);
        } else {
            lemma_count_union_pair(f, x, g, e);
        }
        assert(factors_union(f).count(x) >= 2);
        lemma_range_multiset_count(l, x);
        assert(factors_union(f).count(x) == range_multiset(l).count(x));
        assert(false);
    }
}

/// The pairwise joins of a partition are pairwise distinct: a sequence
/// that holds, for every pair `a < b`, the join of that pair at the
/// pair's lexicographic index (as `join_all` produces) has no repeated
/// entry, so a factorization of `n` factors yields exactly `n (n-1) / 2`
/// distinct joined factorizations.
pub proof fn lemma_join_all_distinct(f: Seq<Seq<usize>>, l: int, js: Seq<Seq<Seq<usize>>>)
    requires
        l <= usize::MAX,
        is_partition(f, l),
        js.len() == f.len() * (f.len() - 1) / 2,
        forall|a: int, b: int|
            0 <= a < b < f.len() ==> 0 <= #[trigger] pair_index(f.len() as int, a, b) < js.len()
                && js[pair_index(f.len() as int, a, b)] == spec_join(f, a, b),
    ensures
        seq_distinct(js),
{
    let n = f.len() as int;
    assert forall|k1: int, k2: int| 0 <= k1 < k2 < js.len() implies js[k1] != js[k2] by {
        assert(n * (n - 1) / 2 >= 1);
        assert(n >= 2) by {
            if n < 2 {
                assert(n * (n - 1) / 2 == 0) by (nonlinear_arith)
                    requires
                        0 <= n < 2,
                ;
            }
        }
        lemma_pair_count_total(n);
        lemma_pair_index_surjective(n, k1);
        lemma_pair_index_surjective(n, k2);
        let (a, b) = choose|a: int, b: int| 0 <= a < b < n && k1 == pair_index(n, a, b);
        let (c, d) = choose|c: int, d: int| 0 <= c < d < n && k2 == pair_index(n, c, d);
        assert(js[k1] == spec_join(f, a, b));
        assert(js[k2] == spec_join(f, c, d));
        assert(!(a == c && b == d));
        lemma_join_injective(f, l, a, b, c, d);
    }
}

/// Joining the factors at `a` and `b` and then joining the combined
/// factor with the factor that held position `c` has the same effect as
/// merging the three index sets into one factor: the result is again a
/// partition, two factors shorter, and its final factor holds exactly the
/// indices of the three original factors.
pub proof fn lemma_join_associates(f: Seq<Seq<usize>>, l: int, a: int, b: int, c: int)
    requires
        is_partition(f, l),
        0 <= a < b < f.len(),
        0 <= c < f.len(),
        c != a,
        c != b,
    ensures
        ({
            let j1 = spec_join(f, a, b);
            let cq = if c < a {
                c
            } else if c < b {
                c - 1
            } else {
                c - 2
            };
            let j2 = spec_join(j1, cq, j1.len() - 1);
            &&& j1[cq] == f[c]
            &&& 0 <= cq < j1.len() - 1
            &&& j2.len() == f.len() - 2
            &&& j2.last() == f[c] + (f[a] + f[b])
            &&& j2.last().to_multiset() =~= f[a].to_multiset().add(f[b].to_multiset()).add(
                f[c].to_multiset(),
            )
            &&& is_partition(j2, l)
        }),
{
    let j1 = spec_join(f, a, b);
    let cq = if c < a {
        c
    } else if c < b {
        c - 1
    } else {
        c - 2
    };
    lemma_join_preserves_partition(f, l, a, b);
    let p0 = f.subrange(0, a);
    let p1 = f.subrange(a + 1, b);
    let p2 = f.subrange(b + 1, f.len() as int);
    assert(j1[cq] == f[c]) by {
        if c < a {
            assert(remove_two(f, a, b)[cq] == p0[c]);
        } else if c < b {
            assert(remove_two(f, a, b)[cq] == p1[c - a - 1]);
        } else {
            assert(remove_two(f, a, b)[cq] == p2[c - b - 1]);
        }
    }
    assert(j1.len() == f.len() - 1);
    let j2 = spec_join(j1, cq, j1.len() - 1);
    assert(j1[j1.len() - 1] == f[a] + f[b]);
    assert(j2.last() == j1[cq] + j1[j1.len() - 1]);
    lemma_join_preserves_partition(j1, l, cq, j1.len() - 1);
    lemma_multiset_commutative(f[c], f[a] + f[b]);
    lemma_multiset_commutative(f[a], f[b]);
}


/// The number of individuals among the first `m` of `pop` whose allele at
/// position `i` is `a`.
pub open spec fn spec_count_at(pop: Seq<Seq<Allele>>, m: int, i: int, a: Allele) -> int
    decreases m,
{
    if m <= 0 {
        0
    } else {
        spec_count_at(pop, m - 1, i, a) + if pop[m - 1][i] == a {
            1int
        } else {
            0int
        }
    }
}

/// A positive count means some individual carries the allele.
pub proof fn lemma_count_at_positive(pop: Seq<Seq<Allele>>, m: int, i: int, a: Allele)
    requires
        spec_count_at(pop, m, i, a) > 0,
    ensures
        exists|p: int| 0 <= p < m && pop[p][i] == a,
    decreases m,
{
    if m > 0 {
        if pop[m - 1][i] == a {
            assert(0 <= m - 1 < m && pop[m - 1][i] == a);
        } else {
            lemma_count_at_positive(pop, m - 1, i, a);
        }
    }
}

/// The genotypes of a population of individuals.
pub open spec fn pop_genotypes(pop: Seq<Individual>) -> Seq<Seq<Allele>> {
    pop.map(|p: int, idv: Individual| idv.geno())
}

/// The count over a window never exceeds the window size.
proof fn lemma_count_at_bound(pop: Seq<Seq<Allele>>, m: int, i: int, a: Allele)
    requires
        m >= 0,
    ensures
        0 <= spec_count_at(pop, m, i, a) <= m,
    decreases m,
{
    if m > 0 {
        lemma_count_at_bound(pop, m - 1, i, a);
    }
}

/// Changing one entry of a weight list changes its sum by the difference.
pub proof fn lemma_seq_sum_update(s: Seq<usize>, k: int, v: usize)
    requires
        0 <= k < s.len(),
    ensures
        seq_sum(s.update(k, v)) == seq_sum(s) - s[k] + v,
    decreases s.len(),
{
    if k == 0 {
        assert(s.update(0, v).drop_first() =~= s.drop_first());
    } else {
        assert(s.update(k, v).drop_first() =~= s.drop_first().update(k - 1, v));
        lemma_seq_sum_update(s.drop_first(), k - 1, v);
    }
}

/// Every entry of a weight list is bounded by the sum of the list.
pub proof fn lemma_seq_sum_entry(s: Seq<usize>, k: int)
    requires
        0 <= k < s.len(),
    ensures
        0 <= s[k] <= seq_sum(s),
        seq_sum(s) >= 0,
    decreases s.len(),
{
    if k == 0 {
        lemma_seq_sum_nonneg(s.drop_first());
    } else {
        lemma_seq_sum_entry(s.drop_first(), k - 1);
    }
}

/// A sum of weights is never negative.
pub proof fn lemma_seq_sum_nonneg(s: Seq<usize>)
    ensures
        seq_sum(s) >= 0,
    decreases s.len(),
{
    if s.len() > 0 {
        lemma_seq_sum_nonneg(s.drop_first());
    }
}

/// A product of `L` marginal categorical distributions, one per variable
/// position, estimated from a population: `counts[i][k]` is the number of
/// selected individuals whose allele at position `i` is the `k`-th allele
/// of that position's domain.
#[derive(Debug)]
pub struct UnivariateModel {
    counts: Vec<Vec<usize>>,
    sample_size: usize,
}

impl UnivariateModel {
    /// The per-position weight vectors.
    pub closed spec fn counts_view(&self) -> Seq<Seq<usize>> {
        self.counts@.map(|i: int, v: Vec<usize>| v@)
    }

    /// The size of the population the model was fit to.
    pub closed spec fn spec_sample_size(&self) -> nat {
        self.sample_size as nat
    }

    /// The model has one weight per allele of each position of the
    /// genome, each weight vector sums to the sample size, and the
    /// sample size is positive.
    pub open spec fn shaped_for(&self, genome: &Genome) -> bool {
        &&& self.counts_view().len() == genome@.len()
        &&& forall|i: int|
            0 <= i < genome@.len() ==> (#[trigger] self.counts_view()[i]).len()
                == genome@[i].len()
        &&& forall|i: int|
            0 <= i < genome@.len() ==> seq_sum(#[trigger] self.counts_view()[i])
                == self.spec_sample_size()
        &&& self.spec_sample_size() > 0
    }

    /// The model holds exactly the marginal counts of `pop`: for every
    /// position `i` and allele index `k`, the weight is the number of
    /// individuals of `pop` whose allele at `i` is the `k`-th domain
    /// allele.
    pub open spec fn fitted_to(&self, genome: &Genome, pop: Seq<Seq<Allele>>) -> bool {
        &&& self.shaped_for(genome)
        &&& self.spec_sample_size() == pop.len()
        &&& forall|i: int, k: int|
            0 <= i < genome@.len() && 0 <= k < genome@[i].len()
                ==> #[trigger] self.counts_view()[i][k] == spec_count_at(
                pop,
                pop.len() as int,
                i,
                genome@[i][k],
            )
    }

    /// At position `j`, the genotype's allele is one the model gives
    /// positive weight.
    pub open spec fn supported_at(&self, genome: &Genome, g: Seq<Allele>, j: int) -> bool {
        exists|k: int|
            0 <= k < genome@[j].len() && self.counts_view()[j][k] > 0 && g[j] == genome@[j][k]
    }

    /// A genotype only draws alleles whose weight in the model is
    /// positive.
    pub open spec fn supports(&self, genome: &Genome, g: Seq<Allele>) -> bool {
        &&& g.len() == genome@.len()
        &&& forall|i: int| 0 <= i < genome@.len() ==> self.supported_at(genome, g, i)
    }

    /// The weight of the `k`-th allele at position `i`, together with the
    /// sample size: the model's probability for that allele as an exact
    /// fraction `count / sample_size`.
    pub fn probability(&self, i: usize, k: usize) -> (r: (usize, usize))
        requires
            i < self.counts_view().len(),
            k < self.counts_view()[i as int].len(),
        ensures
            r.0 == self.counts_view()[i as int][k as int],
            r.1 == self.spec_sample_size(),
    {
        (self.counts[i][k], self.sample_size)
    }

    /// The size of the population the model was fit to.
    pub fn sample_size(&self) -> (r: usize)
        ensures
            r == self.spec_sample_size(),
    {
        self.sample_size
    }

    /// Estimates the marginal distribution of every position from the
    /// population: the weight of allele `a` at position `i` is the number
    /// of individuals carrying `a` there, so the model's probability for
    /// `a` is exactly `count / |pop|`.
    pub fn estimate_from_population(genome: &Genome, population: &Vec<Individual>) -> (r: Self)
        requires
            genome.wf(),
            population@.len() > 0,
            forall|p: int|
                0 <= p < population@.len() ==> genome.genotype_valid(
                    (#[trigger] population@[p]).geno(),
                ),
        ensures
            r.fitted_to(genome, pop_genotypes(population@)),
    {
        let ghost gpop = pop_genotypes(population@);
        let l = genome.len();
        let n = population.len();
        let mut counts: Vec<Vec<usize>> = Vec::new();
        let mut i: usize = 0;
        while i < l
            invariant
                i <= l,
                l == genome@.len(),
                genome.wf(),
                counts@.len() == i,
                forall|i2: int|
                    0 <= i2 < i ==> (#[trigger] counts@[i2])@.len() == genome@[i2].len(),
                forall|i2: int|
                    0 <= i2 < i ==> seq_sum((#[trigger] counts@[i2])@) == 0,
                forall|i2: int, k: int|
                    0 <= i2 < i && 0 <= k < genome@[i2].len() ==> #[trigger] counts@[i2]@[k]
                        == 0,
            decreases l - i,
        {
            let d = genome.get(i);
            let dl = d.len();
            let mut row: Vec<usize> = Vec::new();
            let mut k: usize = 0;
            while k < dl
                invariant
                    k <= dl,
                    row@.len() == k,
                    seq_sum(row@) == 0,
                    forall|k2: int| 0 <= k2 < k ==> row@[k2] == 0,
                decreases dl - k,
            {
                let ghost prev = row@;
                row.push(0);
                proof {
                    assert(row@.drop_first() =~= prev.drop_first().push(0) || prev.len() == 0);
                    lemma_seq_sum_push_zero(prev);
                }
                k = k + 1;
            }
            counts.push(row);
            i = i + 1;
        }
        let mut p: usize = 0;
        while p < n
            invariant
                p <= n,
                n == population@.len(),
                l == genome@.len(),
                genome.wf(),
                gpop == pop_genotypes(population@),
                forall|p2: int|
                    0 <= p2 < population@.len() ==> genome.genotype_valid(
                        (#[trigger] population@[p2]).geno(),
                    ),
                counts@.len() == l,
                forall|i2: int|
                    0 <= i2 < l ==> (#[trigger] counts@[i2])@.len() == genome@[i2].len(),
                forall|i2: int| 0 <= i2 < l ==> seq_sum((#[trigger] counts@[i2])@) == p,
                forall|i2: int, k: int|
                    0 <= i2 < l && 0 <= k < genome@[i2].len() ==> #[trigger] counts@[i2]@[k]
                        == spec_count_at(gpop, p as int, i2, genome@[i2][k]),
            decreases n - p,
        {
            let idv = &population[p];
            let g = idv.genotype();
            let mut i2: usize = 0;
            while i2 < l
                invariant
                    i2 <= l,
                    p < n,
                    n == population@.len(),
                    l == genome@.len(),
                    genome.wf(),
                    gpop == pop_genotypes(population@),
                    g@ == population@[p as int].geno(),
                    forall|p2: int|
                        0 <= p2 < population@.len() ==> genome.genotype_valid(
                            (#[trigger] population@[p2]).geno(),
                        ),
                    counts@.len() == l,
                    forall|j: int|
                        0 <= j < l ==> (#[trigger] counts@[j])@.len() == genome@[j].len(),
                    forall|j: int|
                        0 <= j < i2 ==> seq_sum((#[trigger] counts@[j])@) == p + 1,
                    forall|j: int| i2 <= j < l ==> seq_sum((#[trigger] counts@[j])@) == p,
                    forall|j: int, k: int|
                        0 <= j < i2 && 0 <= k < genome@[j].len() ==> #[trigger] counts@[j]@[k]
                            == spec_count_at(gpop, p + 1, j, genome@[j][k]),
                    forall|j: int, k: int|
                        i2 <= j < l && 0 <= k < genome@[j].len() ==> #[trigger] counts@[j]@[k]
                            == spec_count_at(gpop, p as int, j, genome@[j][k]),
                decreases l - i2,
            {
                let a = g[i2];
                let d = genome.get(i2);
                proof {
                    assert(genome.genotype_valid(population@[p as int].geno()));
                    assert(g@[i2 as int] == gpop[p as int][i2 as int]);
                }
                let k = d.index_of(a);
                let ghost old_counts = counts@;
                let row = &mut counts[i2];
                let cur = row[k];
                proof {
                    lemma_seq_sum_entry(old_counts[i2 as int]@, k as int);
                    lemma_count_at_bound(gpop, p as int, i2 as int, genome@[i2 as int][k as int]);
                }
                row[k] = cur + 1;
                proof {
                    let gi = i2 as int;
                    let newrow = old_counts[gi]@.update(k as int, (cur + 1) as usize);
                    assert(counts@[gi]@ =~= newrow);
                    lemma_seq_sum_update(old_counts[gi]@, k as int, (cur + 1) as usize);
                    assert forall|j: int, k2: int|
                        0 <= j < i2 + 1 && 0 <= k2 < genome@[j].len() implies #[trigger] counts@[j]@[k2]
                        == spec_count_at(gpop, p + 1, j, genome@[j][k2]) by {
                        if j == gi {
                            if k2 == k {
                                assert(gpop[p as int][gi] == genome@[gi][k as int]);
                            } else {
                                crate::genome::lemma_domain_distinct(genome, gi);
                                if gpop[p as int][gi] == genome@[gi][k2] {
                                    assert(genome@[gi][k2] == genome@[gi][k as int]);
                                    assert(false);
                                }
                            }
                        } else {
                            assert(counts@[j] == old_counts[j]);
                        }
                    }
                    assert forall|j: int| i2 + 1 <= j < l implies seq_sum((#[trigger] counts@[j])@)
                        == p by {
                        assert(counts@[j] == old_counts[j]);
                    }
                    assert forall|j: int, k2: int|
                        i2 + 1 <= j < l && 0 <= k2 < genome@[j].len() implies #[trigger] counts@[j]@[k2]
                        == spec_count_at(gpop, p as int, j, genome@[j][k2]) by {
                        assert(counts@[j] == old_counts[j]);
                    }
                }
                i2 = i2 + 1;
            }
            p = p + 1;
        }
        let r = UnivariateModel { counts, sample_size: n };
        proof {
            assert(r.fitted_to(genome, gpop));
        }
        r
    }

    /// Emits a genotype whose allele at each position is drawn from that
    /// position's categorical distribution; only alleles with positive
    /// weight can be drawn.
    pub fn sample(&self, genome: &Genome, rng: &mut rand::rngs::ThreadRng) -> (r: Vec<Allele>)
        requires
            genome.wf(),
            self.shaped_for(genome),
        ensures
            self.supports(genome, r@),
            genome.genotype_valid(r@),
    {
        let l = genome.len();
        let mut out: Vec<Allele> = Vec::new();
        let mut i: usize = 0;
        while i < l
            invariant
                i <= l,
                l == genome@.len(),
                genome.wf(),
                self.shaped_for(genome),
                out@.len() == i,
                forall|j: int| 0 <= j < i ==> self.supported_at(genome, out@, j),
                forall|j: int| 0 <= j < i ==> genome@[j].contains(#[trigger] out@[j]),
            decreases l - i,
        {
            let row = &self.counts[i];
            proof {
                assert(self.counts_view()[i as int] == row@);
                lemma_seq_sum_nonneg(row@);
                assert(seq_sum(row@) == self.spec_sample_size());
            }
            let k = sample_weighted(rng, row);
            let d = genome.get(i);
            let a = d.get(k);
            let ghost old_out = out@;
            out.push(a);
            proof {
                assert(out@[i as int] == genome@[i as int][k as int]);
                assert(genome@[i as int].contains(a));
                assert(self.counts_view()[i as int][k as int] > 0);
                assert forall|j: int| 0 <= j < i + 1 implies self.supported_at(
                    genome,
                    out@,
                    j,
                ) by {
                    if j < i {
                        assert(out@[j] == old_out[j]);
                        assert(self.supported_at(genome, old_out, j));
                        let k2 = choose|k2: int|
                            0 <= k2 < genome@[j].len() && self.counts_view()[j][k2] > 0
                                && old_out[j] == genome@[j][k2];
                        assert(0 <= k2 < genome@[j].len() && self.counts_view()[j][k2] > 0
                            && out@[j] == genome@[j][k2]);
                    } else {
                        assert((k as int) < genome@[j].len() && self.counts_view()[j][k as int] > 0
                            && out@[j] == genome@[j][k as int]);
                    }
                }
            }
            i = i + 1;
        }
        out
    }
}

/// Appending a zero weight leaves the sum unchanged.
pub proof fn lemma_seq_sum_push_zero(s: Seq<usize>)
    ensures
        seq_sum(s.push(0)) == seq_sum(s),
    decreases s.len(),
{
    if s.len() == 0 {
        assert(s.push(0).drop_first() =~= Seq::<usize>::empty());
        assert(seq_sum(Seq::<usize>::empty()) == 0);
    } else {
        assert(s.push(0).drop_first() =~= s.drop_first().push(0));
        lemma_seq_sum_push_zero(s.drop_first());
    }
}

/// Sampling from a model fitted to a population of identical individuals
/// reproduces that individual with probability one: any genotype the
/// model supports equals the shared genotype.
pub proof fn lemma_identical_population_reproduces(
    genome: &Genome,
    m: &UnivariateModel,
    pop: Seq<Seq<Allele>>,
    child: Seq<Allele>,
)
    requires
        genome.wf(),
        pop.len() > 0,
        forall|p: int| 0 <= p < pop.len() ==> #[trigger] pop[p] == pop[0],
        m.fitted_to(genome, pop),
        m.supports(genome, child),
        pop[0].len() == genome@.len(),
    ensures
        child == pop[0],
{
    assert forall|i: int| 0 <= i < genome@.len() implies child[i] == pop[0][i] by {
        assert(m.supported_at(genome, child, i));
        let k = choose|k: int|
            0 <= k < genome@[i].len() && m.counts_view()[i][k] > 0 && child[i] == genome@[i][k];
        assert(m.counts_view()[i][k] == spec_count_at(pop, pop.len() as int, i, genome@[i][k]));
        lemma_count_at_positive(pop, pop.len() as int, i, genome@[i][k]);
        let p = choose|p: int| 0 <= p < pop.len() && pop[p][i] == genome@[i][k];
        assert(pop[p] == pop[0]);
    }
    assert(child =~= pop[0]);
}


/// The product of the domain sizes of the first `j` variables of a
/// factor: the number of joint outcomes over those variables.
pub open spec fn prefix_prod(genome_v: Seq<Seq<Allele>>, factor: Seq<usize>, j: int) -> int
    decreases j,
{
    if j <= 0 {
        1
    } else {
        prefix_prod(genome_v, factor, j - 1) * genome_v[factor[j - 1] as int].len()
    }
}

/// The number of joint outcomes of a whole factor.
pub open spec fn joint_size(genome_v: Seq<Seq<Allele>>, factor: Seq<usize>) -> int {
    prefix_prod(genome_v, factor, factor.len() as int)
}

/// The position of allele `a` in the domain `dom` (any position holding
/// it; unique when the domain is well-formed).
pub open spec fn dom_index(dom: Seq<Allele>, a: Allele) -> int {
    choose|k: int| 0 <= k < dom.len() && dom[k] == a
}

/// The linear index of the joint outcome that genotype `g` assigns to
/// the first `j` variables of the factor: variable `m` contributes its
/// allele index times the product of the sizes of the domains before it.
pub open spec fn ji_prefix(genome_v: Seq<Seq<Allele>>, factor: Seq<usize>, g: Seq<Allele>, j: int) -> int
    decreases j,
{
    if j <= 0 {
        0
    } else {
        ji_prefix(genome_v, factor, g, j - 1) + dom_index(
            genome_v[factor[j - 1] as int],
            g[factor[j - 1] as int],
        ) * prefix_prod(genome_v, factor, j - 1)
    }
}

/// The linear index of the joint outcome of a whole factor.
pub open spec fn joint_index(genome_v: Seq<Seq<Allele>>, factor: Seq<usize>, g: Seq<Allele>) -> int {
    ji_prefix(genome_v, factor, g, factor.len() as int)
}

/// The factor's variables all name positions of the genome.
pub open spec fn factor_in_range(genome_v: Seq<Seq<Allele>>, factor: Seq<usize>) -> bool {
    forall|j: int| 0 <= j < factor.len() ==> (#[trigger] factor[j]) < genome_v.len()
}

/// Every prefix outcome count is positive, and grows with the prefix.
pub proof fn lemma_prefix_prod_bounds(genome_v: Seq<Seq<Allele>>, factor: Seq<usize>, j: int, j2: int)
    requires
        0 <= j <= j2 <= factor.len(),
        factor_in_range(genome_v, factor),
        forall|m: int| 0 <= m < genome_v.len() ==> (#[trigger] genome_v[m]).len() >= 1,
    ensures
        1 <= prefix_prod(genome_v, factor, j) <= prefix_prod(genome_v, factor, j2),
    decreases j2 - j, j,
{
    if j == j2 {
        if j > 0 {
            lemma_prefix_prod_bounds(genome_v, factor, j - 1, j - 1);
            assert(prefix_prod(genome_v, factor, j) >= 1) by (nonlinear_arith)
                requires
                    prefix_prod(genome_v, factor, j) == prefix_prod(genome_v, factor, j - 1)
                        * genome_v[factor[j - 1] as int].len(),
                    prefix_prod(genome_v, factor, j - 1) >= 1,
                    genome_v[factor[j - 1] as int].len() >= 1,
            ;
        }
    } else {
        lemma_prefix_prod_bounds(genome_v, factor, j, j2 - 1);
        lemma_prefix_prod_bounds(genome_v, factor, j2 - 1, j2 - 1);
        assert(prefix_prod(genome_v, factor, j2 - 1) <= prefix_prod(genome_v, factor, j2))
            by (nonlinear_arith)
            requires
                prefix_prod(genome_v, factor, j2) == prefix_prod(genome_v, factor, j2 - 1)
                    * genome_v[factor[j2 - 1] as int].len(),
                prefix_prod(genome_v, factor, j2 - 1) >= 1,
                genome_v[factor[j2 - 1] as int].len() >= 1,
        ;
    }
}

/// The joint index of a factor depends only on the genotype's alleles at
/// the factor's own variables.
pub proof fn lemma_ji_prefix_same(
    genome_v: Seq<Seq<Allele>>,
    factor: Seq<usize>,
    g1: Seq<Allele>,
    g2: Seq<Allele>,
    j: int,
)
    requires
        0 <= j <= factor.len(),
        forall|m: int| 0 <= m < j ==> g1[#[trigger] factor[m] as int] == g2[factor[m] as int],
    ensures
        ji_prefix(genome_v, factor, g1, j) == ji_prefix(genome_v, factor, g2, j),
    decreases j,
{
    if j > 0 {
        lemma_ji_prefix_same(genome_v, factor, g1, g2, j - 1);
        assert(g1[factor[j - 1] as int] == g2[factor[j - 1] as int]);
    }
}

/// An element occurring at two positions of a sequence is counted at
/// least twice in its multiset.
proof fn lemma_dup_count(s: Seq<usize>, i: int, j: int)
    requires
        0 <= i < j < s.len(),
        s[i] == s[j],
    ensures
        s.to_multiset().count(s[i]) >= 2,
{
    let front = s.take(j);
    let back = s.skip(j);
    assert(s =~= front + back);
    lemma_multiset_commutative(front, back);
    assert(front[i] == s[i]);
    assert(front.contains(s[i]));
    assert(back[0] == s[j]);
    assert(back.contains(s[i]));
    assert(front.to_multiset().count(s[i]) >= 1);
    assert(back.to_multiset().count(s[i]) >= 1);
}

/// Each factor of a partition lists distinct variables.
pub proof fn lemma_partition_factor_distinct(fact: Seq<Seq<usize>>, l: int, f: int)
    requires
        l <= usize::MAX,
        is_partition(fact, l),
        0 <= f < fact.len(),
    ensures
        seq_distinct(fact[f]),
{
    assert forall|i: int, j: int|
        0 <= i < j < fact[f].len() implies fact[f][i] != fact[f][j] by {
        if fact[f][i] == fact[f][j] {
            lemma_dup_count(fact[f], i, j);
            lemma_count_union_single(fact, fact[f][i], f);
            lemma_range_multiset_count(l, fact[f][i]);
            assert(factors_union(fact).count(fact[f][i]) == range_multiset(l).count(fact[f][i]));
            assert(false);
        }
    }
}

/// Two different factors of a partition share no variable.
pub proof fn lemma_partition_disjoint(fact: Seq<Seq<usize>>, l: int, f1: int, f2: int, x: usize)
    requires
        l <= usize::MAX,
        is_partition(fact, l),
        0 <= f1 < fact.len(),
        0 <= f2 < fact.len(),
        f1 != f2,
        fact[f1].contains(x),
    ensures
        !fact[f2].contains(x),
{
    if fact[f2].contains(x) {
        assert(fact[f1].to_multiset().count(x) >= 1);
        assert(fact[f2].to_multiset().count(x) >= 1);
        if f1 < f2 {
            lemma_count_union_pair(fact, x, f1, f2);
        } else {
            lemma_count_union_pair(fact, x, f2, f1);
        }
        lemma_range_multiset_count(l, x);
        assert(factors_union(fact).count(x) == range_multiset(l).count(x));
        assert(false);
    }
}

/// Every variable of a factor of a partition names a genome position.
pub proof fn lemma_partition_in_range(fact: Seq<Seq<usize>>, l: int, f: int)
    requires
        l <= usize::MAX,
        is_partition(fact, l),
        0 <= f < fact.len(),
    ensures
        forall|j: int| 0 <= j < fact[f].len() ==> (#[trigger] fact[f][j]) < l,
{
    assert forall|j: int| 0 <= j < fact[f].len() implies (#[trigger] fact[f][j]) < l by {
        assert(fact[f].contains(fact[f][j]));
        assert(fact[f].to_multiset().count(fact[f][j]) >= 1);
        lemma_count_union_single(fact, fact[f][j], f);
        lemma_range_multiset_count(l, fact[f][j]);
        assert(factors_union(fact).count(fact[f][j]) == range_multiset(l).count(fact[f][j]));
    }
}

/// The number of individuals among the first `m` whose joint outcome at
/// the factor has linear index `k`.
pub open spec fn joint_count(
    pop: Seq<Seq<Allele>>,
    m: int,
    genome_v: Seq<Seq<Allele>>,
    factor: Seq<usize>,
    k: int,
) -> int
    decreases m,
{
    if m <= 0 {
        0
    } else {
        joint_count(pop, m - 1, genome_v, factor, k) + if joint_index(genome_v, factor, pop[m - 1])
            == k {
            1int
        } else {
            0int
        }
    }
}


/// A product of per-factor joint categorical distributions fitted to a
/// population: for each factor of the factorization, `counts[f][k]` is
/// the number of selected individuals whose joint outcome over the
/// factor's variables has linear index `k`.
#[derive(Debug)]
pub struct MultivariateModel {
    factorization: Factorization,
    counts: Vec<Vec<usize>>,
    sample_size: usize,
}

/// The number of joint outcomes of the factor, computed as the product
/// of its variables' domain sizes.
pub fn joint_size_of(genome: &Genome, factor: &Vec<usize>) -> (r: usize)
    requires
        genome.wf(),
        factor_in_range(genome@, factor@),
        joint_size(genome@, factor@) <= usize::MAX,
    ensures
        r == joint_size(genome@, factor@),
        r >= 1,
{
    let mut mult: usize = 1;
    let mut j: usize = 0;
    proof {
        crate::genome::lemma_genome_nonempty(genome);
    }
    while j < factor.len()
        invariant
            j <= factor@.len(),
            genome.wf(),
            factor_in_range(genome@, factor@),
            joint_size(genome@, factor@) <= usize::MAX,
            mult == prefix_prod(genome@, factor@, j as int),
            forall|m: int| 0 <= m < genome@.len() ==> (#[trigger] genome@[m]).len() >= 1,
        decreases factor@.len() - j,
    {
        let pos = factor[j];
        let d = genome.get(pos);
        let dl = d.len();
        proof {
            lemma_prefix_prod_bounds(genome@, factor@, j + 1, factor@.len() as int);
            assert(prefix_prod(genome@, factor@, j + 1) == mult * dl);
        }
        mult = mult * dl;
        j = j + 1;
    }
    proof {
        lemma_prefix_prod_bounds(genome@, factor@, 0, factor@.len() as int);
    }
    mult
}

/// The linear index of the joint outcome genotype `g` assigns to the
/// factor's variables: variable `m` contributes its allele index times
/// the number of outcomes of the variables before it.
pub fn joint_index_of(genome: &Genome, factor: &Vec<usize>, g: &Vec<Allele>) -> (r: usize)
    requires
        genome.wf(),
        factor_in_range(genome@, factor@),
        joint_size(genome@, factor@) <= usize::MAX,
        genome.genotype_valid(g@),
    ensures
        r == joint_index(genome@, factor@, g@),
        r < joint_size(genome@, factor@),
{
    let mut idx: usize = 0;
    let mut mult: usize = 1;
    let mut j: usize = 0;
    proof {
        crate::genome::lemma_genome_nonempty(genome);
        lemma_dom_index_valid(genome, g@);
    }
    while j < factor.len()
        invariant
            j <= factor@.len(),
            genome.wf(),
            factor_in_range(genome@, factor@),
            joint_size(genome@, factor@) <= usize::MAX,
            genome.genotype_valid(g@),
            mult == prefix_prod(genome@, factor@, j as int),
            idx == ji_prefix(genome@, factor@, g@, j as int),
            idx < mult,
            forall|m: int| 0 <= m < genome@.len() ==> (#[trigger] genome@[m]).len() >= 1,
            forall|m: int|
                0 <= m < g@.len() ==> 0 <= dom_index(genome@[m], #[trigger] g@[m]) < genome@[m].len()
                    && genome@[m][dom_index(genome@[m], g@[m])] == g@[m],
        decreases factor@.len() - j,
    {
        let pos = factor[j];
        let d = genome.get(pos);
        let dl = d.len();
        let a = g[pos];
        proof {
            assert(genome@[pos as int].contains(a));
        }
        let ki = d.index_of(a);
        proof {
            crate::genome::lemma_domain_distinct(genome, pos as int);
            let kd = dom_index(genome@[pos as int], a);
            assert(genome@[pos as int][kd] == a && genome@[pos as int][ki as int] == a);
            assert(ki == kd);
            lemma_prefix_prod_bounds(genome@, factor@, j + 1, factor@.len() as int);
            assert(prefix_prod(genome@, factor@, j + 1) == mult * dl);
            assert(idx + ki * mult < mult * dl) by (nonlinear_arith)
                requires
                    idx < mult,
                    (ki as int) < dl,
                    mult >= 1,
                    dl >= 1,
            ;
            assert(ji_prefix(genome@, factor@, g@, j + 1) == idx + kd * mult);
        }
        idx = idx + ki * mult;
        mult = mult * dl;
        j = j + 1;
    }
    idx
}

/// For a valid genotype, every position's allele has a well-defined
/// domain index that looks the allele up again.
pub proof fn lemma_dom_index_valid(genome: &Genome, g: Seq<Allele>)
    requires
        genome.genotype_valid(g),
    ensures
        forall|m: int|
            0 <= m < g.len() ==> 0 <= dom_index(genome@[m], #[trigger] g[m]) < genome@[m].len()
                && genome@[m][dom_index(genome@[m], g[m])] == g[m],
{
    assert forall|m: int|
        0 <= m < g.len() implies 0 <= dom_index(genome@[m], #[trigger] g[m]) < genome@[m].len()
        && genome@[m][dom_index(genome@[m], g[m])] == g[m] by {
        assert(genome@[m].contains(g[m]));
        let w = choose|w: int| 0 <= w < genome@[m].len() && genome@[m][w] == g[m];
        assert(0 <= w < genome@[m].len() && genome@[m][w] == g[m]);
    }
}

impl MultivariateModel {
    /// The per-factor joint weight vectors.
    pub closed spec fn counts_view(&self) -> Seq<Seq<usize>> {
        self.counts@.map(|i: int, v: Vec<usize>| v@)
    }

    /// The factorization the model is built over.
    pub closed spec fn fact(&self) -> Seq<Seq<usize>> {
        self.factorization@
    }

    /// The size of the population the model was fit to.
    pub closed spec fn spec_sample_size(&self) -> nat {
        self.sample_size as nat
    }

    /// The model has one weight vector per factor, sized by the factor's
    /// joint outcome space; each vector sums to the sample size.
    pub open spec fn shaped_for(&self, genome: &Genome) -> bool {
        &&& self.counts_view().len() == self.fact().len()
        &&& forall|f: int|
            0 <= f < self.fact().len() ==> (#[trigger] self.counts_view()[f]).len() == joint_size(
                genome@,
                self.fact()[f],
            )
        &&& forall|f: int|
            0 <= f < self.fact().len() ==> seq_sum(#[trigger] self.counts_view()[f])
                == self.spec_sample_size()
        &&& self.spec_sample_size() > 0
    }

    /// The model holds exactly the joint counts of `pop` under its
    /// factorization.
    pub open spec fn fitted_to(&self, genome: &Genome, pop: Seq<Seq<Allele>>) -> bool {
        &&& self.shaped_for(genome)
        &&& self.spec_sample_size() == pop.len()
        &&& forall|f: int, k: int|
            0 <= f < self.fact().len() && 0 <= k < joint_size(genome@, self.fact()[f])
                ==> #[trigger] self.counts_view()[f][k] == joint_count(
                pop,
                pop.len() as int,
                genome@,
                self.fact()[f],
                k,
            )
    }

    /// Read access to the factorization.
    pub fn factorization(&self) -> (r: &Factorization)
        ensures
            r@ == self.fact(),
    {
        &self.factorization
    }

    /// The weight of joint outcome `k` of factor `f`, with the sample
    /// size: the model's probability for that outcome as the exact
    /// fraction `count / sample_size`.
    pub fn probability(&self, f: usize, k: usize) -> (r: (usize, usize))
        requires
            f < self.counts_view().len(),
            k < self.counts_view()[f as int].len(),
        ensures
            r.0 == self.counts_view()[f as int][k as int],
            r.1 == self.spec_sample_size(),
    {
        (self.counts[f][k], self.sample_size)
    }

    /// The size of the population the model was fit to.
    pub fn sample_size(&self) -> (r: usize)
        ensures
            r == self.spec_sample_size(),
    {
        self.sample_size
    }

    /// Accumulates joint counts over the population: for each factor the
    /// outcomes are enumerated lexicographically (the first variable
    /// fastest), and each individual increments the weight of its
    /// outcome, so the model's probability of outcome `k` of factor `f`
    /// is exactly `counts[f][k] / |pop|`.
    pub fn estimate_from_population(
        genome: &Genome,
        population: &Vec<Individual>,
        factorization: Factorization,
    ) -> (r: Self)
        requires
            genome.wf(),
            population@.len() > 0,
            forall|p: int|
                0 <= p < population@.len() ==> genome.genotype_valid(
                    (#[trigger] population@[p]).geno(),
                ),
            is_partition(factorization@, genome@.len() as int),
            forall|f: int|
                0 <= f < factorization@.len() ==> joint_size(
                    genome@,
                    #[trigger] factorization@[f],
                ) <= usize::MAX,
        ensures
            r.fact() == factorization@,
            r.fitted_to(genome, pop_genotypes(population@)),
    {
        let ghost gpop = pop_genotypes(population@);
        let gl = genome.len();
        let ghost l = gl as int;
        let nf = factorization.len();
        let n = population.len();
        let mut counts: Vec<Vec<usize>> = Vec::new();
        let mut f: usize = 0;
        while f < nf
            invariant
                f <= nf,
                nf == factorization@.len(),
                genome.wf(),
                l == genome@.len(),
                is_partition(factorization@, l),
                l <= usize::MAX,
                forall|f2: int|
                    0 <= f2 < factorization@.len() ==> joint_size(
                        genome@,
                        #[trigger] factorization@[f2],
                    ) <= usize::MAX,
                counts@.len() == f,
                forall|f2: int|
                    0 <= f2 < f ==> (#[trigger] counts@[f2])@.len() == joint_size(
                        genome@,
                        factorization@[f2],
                    ),
                forall|f2: int| 0 <= f2 < f ==> seq_sum((#[trigger] counts@[f2])@) == 0,
                forall|f2: int, k: int|
                    0 <= f2 < f && 0 <= k < joint_size(genome@, factorization@[f2])
                        ==> #[trigger] counts@[f2]@[k] == 0,
            decreases nf - f,
        {
            proof {
                lemma_partition_in_range(factorization@, l, f as int);
            }
            let factor = factorization.get_factor(f);
            let sz = joint_size_of(genome, factor);
            let mut row: Vec<usize> = Vec::new();
            let mut k: usize = 0;
            while k < sz
                invariant
                    k <= sz,
                    row@.len() == k,
                    seq_sum(row@) == 0,
                    forall|k2: int| 0 <= k2 < k ==> row@[k2] == 0,
                decreases sz - k,
            {
                let ghost prev = row@;
                row.push(0);
                proof {
                    lemma_seq_sum_push_zero(prev);
                }
                k = k + 1;
            }
            counts.push(row);
            f = f + 1;
        }
        let mut p: usize = 0;
        while p < n
            invariant
                p <= n,
                n == population@.len(),
                nf == factorization@.len(),
                genome.wf(),
                l == genome@.len(),
                l <= usize::MAX,
                gpop == pop_genotypes(population@),
                is_partition(factorization@, l),
                forall|p2: int|
                    0 <= p2 < population@.len() ==> genome.genotype_valid(
                        (#[trigger] population@[p2]).geno(),
                    ),
                forall|f2: int|
                    0 <= f2 < factorization@.len() ==> joint_size(
                        genome@,
                        #[trigger] factorization@[f2],
                    ) <= usize::MAX,
                counts@.len() == nf,
                forall|f2: int|
                    0 <= f2 < nf ==> (#[trigger] counts@[f2])@.len() == joint_size(
                        genome@,
                        factorization@[f2],
                    ),
                forall|f2: int| 0 <= f2 < nf ==> seq_sum((#[trigger] counts@[f2])@) == p,
                forall|f2: int, k: int|
                    0 <= f2 < nf && 0 <= k < joint_size(genome@, factorization@[f2])
                        ==> #[trigger] counts@[f2]@[k] == joint_count(
                        gpop,
                        p as int,
                        genome@,
                        factorization@[f2],
                        k,
                    ),
            decreases n - p,
        {
            let idv = &population[p];
            let g = idv.genotype();
            let mut f2: usize = 0;
            while f2 < nf
                invariant
                    f2 <= nf,
                    p < n,
                    n == population@.len(),
                    nf == factorization@.len(),
                    genome.wf(),
                    l == genome@.len(),
                    l <= usize::MAX,
                    gpop == pop_genotypes(population@),
                    is_partition(factorization@, l),
                    g@ == population@[p as int].geno(),
                    genome.genotype_valid(g@),
                    forall|p2: int|
                        0 <= p2 < population@.len() ==> genome.genotype_valid(
                            (#[trigger] population@[p2]).geno(),
                        ),
                    forall|f3: int|
                        0 <= f3 < factorization@.len() ==> joint_size(
                            genome@,
                            #[trigger] factorization@[f3],
                        ) <= usize::MAX,
                    counts@.len() == nf,
                    forall|f3: int|
                        0 <= f3 < nf ==> (#[trigger] counts@[f3])@.len() == joint_size(
                            genome@,
                            factorization@[f3],
                        ),
                    forall|f3: int| 0 <= f3 < f2 ==> seq_sum((#[trigger] counts@[f3])@) == p + 1,
                    forall|f3: int| f2 <= f3 < nf ==> seq_sum((#[trigger] counts@[f3])@) == p,
                    forall|f3: int, k: int|
                        0 <= f3 < f2 && 0 <= k < joint_size(genome@, factorization@[f3])
                            ==> #[trigger] counts@[f3]@[k] == joint_count(
                            gpop,
                            p + 1,
                            genome@,
                            factorization@[f3],
                            k,
                        ),
                    forall|f3: int, k: int|
                        f2 <= f3 < nf && 0 <= k < joint_size(genome@, factorization@[f3])
                            ==> #[trigger] counts@[f3]@[k] == joint_count(
                            gpop,
                            p as int,
                            genome@,
                            factorization@[f3],
                            k,
                        ),
                decreases nf - f2,
            {
                proof {
                    lemma_partition_in_range(factorization@, l, f2 as int);
                }
                let factor = factorization.get_factor(f2);
                let k = joint_index_of(genome, factor, g);
                let ghost old_counts = counts@;
                let row = &mut counts[f2];
                let cur = row[k];
                proof {
                    lemma_seq_sum_entry(old_counts[f2 as int]@, k as int);
                    lemma_joint_count_bound(gpop, p as int, genome@, factorization@[f2 as int], k as int);
                }
                row[k] = cur + 1;
                proof {
                    let gf = f2 as int;
                    let newrow = old_counts[gf]@.update(k as int, (cur + 1) as usize);
                    assert(counts@[gf]@ =~= newrow);
                    lemma_seq_sum_update(old_counts[gf]@, k as int, (cur + 1) as usize);
                    assert(gpop[p as int] == g@);
                    assert forall|f3: int, k2: int|
                        0 <= f3 < f2 + 1 && 0 <= k2 < joint_size(genome@, factorization@[f3]) implies #[trigger] counts@[f3]@[k2]
                        == joint_count(gpop, p + 1, genome@, factorization@[f3], k2) by {
                        if f3 != gf {
                            assert(counts@[f3] == old_counts[f3]);
                        }
                    }
                    assert forall|f3: int| f2 + 1 <= f3 < nf implies seq_sum(
                        (#[trigger] counts@[f3])@,
                    ) == p by {
                        assert(counts@[f3] == old_counts[f3]);
                    }
                    assert forall|f3: int, k2: int|
                        f2 + 1 <= f3 < nf && 0 <= k2 < joint_size(genome@, factorization@[f3]) implies #[trigger] counts@[f3]@[k2]
                        == joint_count(gpop, p as int, genome@, factorization@[f3], k2) by {
                        assert(counts@[f3] == old_counts[f3]);
                    }
                }
                f2 = f2 + 1;
            }
            p = p + 1;
        }
        let r = MultivariateModel { factorization, counts, sample_size: n };
        proof {
            assert(r.fitted_to(genome, gpop));
        }
        r
    }
}

/// A joint count over a window never exceeds the window size.
proof fn lemma_joint_count_bound(
    pop: Seq<Seq<Allele>>,
    m: int,
    genome_v: Seq<Seq<Allele>>,
    factor: Seq<usize>,
    k: int,
)
    requires
        m >= 0,
    ensures
        0 <= joint_count(pop, m, genome_v, factor, k) <= m,
    decreases m,
{
    if m > 0 {
        lemma_joint_count_bound(pop, m - 1, genome_v, factor, k);
    }
}


impl MultivariateModel {
    /// The genotype's joint outcome at factor `f` is one the model gives
    /// positive weight.
    pub open spec fn supported_factor(&self, genome: &Genome, g: Seq<Allele>, f: int) -> bool {
        &&& 0 <= joint_index(genome@, self.fact()[f], g) < joint_size(genome@, self.fact()[f])
        &&& self.counts_view()[f][joint_index(genome@, self.fact()[f], g)] > 0
    }

    /// Every factor of the genotype carries a positive-weight outcome.
    pub open spec fn supports(&self, genome: &Genome, g: Seq<Allele>) -> bool {
        &&& g.len() == genome@.len()
        &&& forall|f: int| 0 <= f < self.fact().len() ==> self.supported_factor(genome, g, f)
    }

    /// Emits a genotype by drawing, for each factor independently, a
    /// joint outcome from its categorical distribution and unpacking the
    /// linear index back into per-variable alleles (the reverse of the
    /// linearization); only outcomes with positive weight can be drawn.
    pub fn sample(&self, genome: &Genome, rng: &mut rand::rngs::ThreadRng) -> (r: Vec<Allele>)
        requires
            genome.wf(),
            self.shaped_for(genome),
            is_partition(self.fact(), genome@.len() as int),
        ensures
            genome.genotype_valid(r@),
            self.supports(genome, r@),
    {
        let l = genome.len();
        let nf = self.factorization.len();
        let mut out: Vec<Allele> = Vec::new();
        let mut i: usize = 0;
        proof {
            crate::genome::lemma_genome_nonempty(genome);
        }
        while i < l
            invariant
                i <= l,
                l == genome@.len(),
                genome.wf(),
                forall|m: int| 0 <= m < genome@.len() ==> (#[trigger] genome@[m]).len() >= 1,
                out@.len() == i,
                forall|j: int| 0 <= j < i ==> genome@[j].contains(#[trigger] out@[j]),
            decreases l - i,
        {
            let d = genome.get(i);
            let a = d.get(0);
            out.push(a);
            proof {
                assert(genome@[i as int].contains(a));
            }
            i = i + 1;
        }
        let mut f: usize = 0;
        while f < nf
            invariant
                f <= nf,
                nf == self.fact().len(),
                l == genome@.len(),
                genome.wf(),
                self.shaped_for(genome),
                is_partition(self.fact(), l as int),
                out@.len() == l,
                genome.genotype_valid(out@),
                forall|f2: int| 0 <= f2 < f ==> self.supported_factor(genome, out@, f2),
            decreases nf - f,
        {
            proof {
                lemma_partition_in_range(self.fact(), l as int, f as int);
                lemma_partition_factor_distinct(self.fact(), l as int, f as int);
                crate::genome::lemma_genome_nonempty(genome);
            }
            let factor = self.factorization.get_factor(f);
            let row = &self.counts[f];
            proof {
                assert(self.counts_view()[f as int] == row@);
                lemma_seq_sum_nonneg(row@);
                assert(seq_sum(row@) == self.spec_sample_size());
                lemma_prefix_prod_bounds(genome@, factor@, 0, factor@.len() as int);
            }
            let raw = sample_weighted(rng, row);
            let mut rem: usize = raw;
            let mut j: usize = 0;
            proof {
                assert(prefix_prod(genome@, factor@, 0) == 1);
                assert(ji_prefix(genome@, factor@, out@, 0) == 0);
                vstd::arithmetic::div_mod::lemma_small_mod(0nat, 1nat);
                assert((raw as int) % 1 == 0) by (nonlinear_arith);
                assert((raw as int) / 1 == raw) by (nonlinear_arith);
            }
            while j < factor.len()
                invariant
                    j <= factor@.len(),
                    f < nf,
                    nf == self.fact().len(),
                    l == genome@.len(),
                    genome.wf(),
                    self.shaped_for(genome),
                    is_partition(self.fact(), l as int),
                    factor@ == self.fact()[f as int],
                    seq_distinct(factor@),
                    forall|m: int| 0 <= m < genome@.len() ==> (#[trigger] genome@[m]).len() >= 1,
                    forall|m: int| 0 <= m < factor@.len() ==> (#[trigger] factor@[m]) < l,
                    out@.len() == l,
                    genome.genotype_valid(out@),
                    (raw as int) < joint_size(genome@, factor@),
                    self.counts_view()[f as int][raw as int] > 0,
                    rem == (raw as int) / prefix_prod(genome@, factor@, j as int),
                    ji_prefix(genome@, factor@, out@, j as int) == (raw as int) % prefix_prod(
                        genome@,
                        factor@,
                        j as int,
                    ),
                    forall|f2: int| 0 <= f2 < f ==> self.supported_factor(genome, out@, f2),
                decreases factor@.len() - j,
            {
                let pos = factor[j];
                let d = genome.get(pos);
                let dl = d.len();
                proof {
                    lemma_prefix_prod_bounds(genome@, factor@, j as int, j + 1);
                }
                let kj = rem % dl;
                let a = d.get(kj);
                let ghost old_out = out@;
                let ghost pp = prefix_prod(genome@, factor@, j as int);
                let slot = &mut out[pos];
                *slot = a;
                proof {
                    let gj = j as int;
                    assert(out@ =~= old_out.update(pos as int, a));
                    // validity is preserved
                    assert forall|i2: int|
                        0 <= i2 < out@.len() implies genome@[i2].contains(#[trigger] out@[i2]) by {
                        if i2 == pos {
                            assert(genome@[pos as int][kj as int] == a);
                        } else {
                            assert(out@[i2] == old_out[i2]);
                        }
                    }
                    // the joint index of this factor's prefix advances by kj * prefix
                    assert forall|m: int|
                        0 <= m < gj implies old_out[#[trigger] factor@[m] as int] == out@[factor@[m] as int] by {
                        assert(factor@[m] != factor@[gj]);
                    }
                    lemma_ji_prefix_same(genome@, factor@, old_out, out@, gj);
                    crate::genome::lemma_domain_distinct(genome, pos as int);
                    let kd = dom_index(genome@[pos as int], a);
                    assert(genome@[pos as int].contains(a)) by {
                        assert(genome@[pos as int][kj as int] == a);
                    }
                    let w = choose|w: int|
                        0 <= w < genome@[pos as int].len() && genome@[pos as int][w] == a;
                    assert(genome@[pos as int][kd] == a);
                    assert(kd == kj);
                    assert(out@[pos as int] == a);
                    assert(ji_prefix(genome@, factor@, out@, gj + 1) == ji_prefix(
                        genome@,
                        factor@,
                        out@,
                        gj,
                    ) + (kj as int) * pp);
                    vstd::arithmetic::div_mod::lemma_mod_breakdown(raw as int, pp, dl as int);
                    assert(prefix_prod(genome@, factor@, gj + 1) == pp * dl);
                    assert((raw as int) % (pp * (dl as int)) == pp * (((raw as int) / pp) % (
                    dl as int)) + (raw as int) % pp);
                    assert((kj as int) * pp == pp * ((rem as int) % (dl as int)))
                        by (nonlinear_arith)
                        requires
                            kj == rem % dl,
                    ;
                    vstd::arithmetic::div_mod::lemma_div_denominator(raw as int, pp, dl as int);
                    // the supported factors so far keep their outcome
                    assert forall|f2: int|
                        0 <= f2 < f implies self.supported_factor(genome, out@, f2) by {
                        assert(self.supported_factor(genome, old_out, f2));
                        assert(self.fact()[f as int].contains(factor@[gj])) by {
                            assert(self.fact()[f as int][gj] == factor@[gj]);
                        }
                        lemma_partition_disjoint(self.fact(), l as int, f as int, f2, factor@[gj]);
                        lemma_partition_in_range(self.fact(), l as int, f2);
                        assert forall|m: int|
                            0 <= m < self.fact()[f2].len() implies old_out[#[trigger] self.fact()[f2][m] as int]
                            == out@[self.fact()[f2][m] as int] by {
                            assert(self.fact()[f2].contains(self.fact()[f2][m]));
                            assert(self.fact()[f2][m] != factor@[gj]);
                            assert(self.fact()[f2][m] < l);
                            assert(out@[self.fact()[f2][m] as int] == old_out.update(
                                pos as int,
                                a,
                            )[self.fact()[f2][m] as int]);
                        }
                        lemma_ji_prefix_same(
                            genome@,
                            self.fact()[f2],
                            old_out,
                            out@,
                            self.fact()[f2].len() as int,
                        );
                        assert(joint_index(genome@, self.fact()[f2], out@) == joint_index(
                            genome@,
                            self.fact()[f2],
                            old_out,
                        ));
                    }
                }
                rem = rem / dl;
                j = j + 1;
            }
            proof {
                let flen = factor@.len() as int;
                let total = prefix_prod(genome@, factor@, flen);
                vstd::arithmetic::div_mod::lemma_small_mod(raw as nat, total as nat);
                assert(ji_prefix(genome@, factor@, out@, flen) == raw);
                assert(self.supported_factor(genome, out@, f as int));
            }
            f = f + 1;
        }
        out
    }
}


/// The reciprocal of the MDL weight: the combined complexity weighs the
/// model complexity by `0.2 == 1 / MDL_WEIGHT_RECIPROCAL`.
pub const MDL_WEIGHT_RECIPROCAL: i128 = 5;

/// The sum of the first `k` weights of a row.
pub open spec fn seq_sum_prefix(s: Seq<usize>, k: int) -> int
    decreases k,
{
    if k <= 0 {
        0
    } else {
        seq_sum_prefix(s, k - 1) + s[k - 1]
    }
}

/// Appending a weight adds it to the sum.
proof fn lemma_seq_sum_push(s: Seq<usize>, x: usize)
    ensures
        seq_sum(s.push(x)) == seq_sum(s) + x,
    decreases s.len(),
{
    if s.len() == 0 {
        assert(s.push(x).drop_first() =~= Seq::<usize>::empty());
        assert(seq_sum(Seq::<usize>::empty()) == 0);
    } else {
        assert(s.push(x).drop_first() =~= s.drop_first().push(x));
        lemma_seq_sum_push(s.drop_first(), x);
    }
}

/// The prefix sums agree with the sum of the prefix.
pub proof fn lemma_sum_prefix_eq(s: Seq<usize>, k: int)
    requires
        0 <= k <= s.len(),
    ensures
        seq_sum_prefix(s, k) == seq_sum(s.take(k)),
    decreases k,
{
    if k == 0 {
        assert(s.take(0) =~= Seq::<usize>::empty());
        assert(seq_sum(Seq::<usize>::empty()) == 0);
    } else {
        lemma_sum_prefix_eq(s, k - 1);
        assert(s.take(k) =~= s.take(k - 1).push(s[k - 1]));
        lemma_seq_sum_push(s.take(k - 1), s[k - 1]);
    }
}

/// The full prefix sum is the row sum.
pub proof fn lemma_sum_prefix_full(s: Seq<usize>)
    ensures
        seq_sum_prefix(s, s.len() as int) == seq_sum(s),
{
    lemma_sum_prefix_eq(s, s.len() as int);
    assert(s.take(s.len() as int) =~= s);
}

/// Prefix sums are non-negative and grow along the row.
pub proof fn lemma_sum_prefix_bounds(s: Seq<usize>, k1: int, k2: int)
    requires
        0 <= k1 <= k2 <= s.len(),
    ensures
        0 <= seq_sum_prefix(s, k1) <= seq_sum_prefix(s, k2),
    decreases k2 - k1, k1,
{
    if k1 == k2 {
        if k1 > 0 {
            lemma_sum_prefix_bounds(s, k1 - 1, k1 - 1);
        }
    } else {
        lemma_sum_prefix_bounds(s, k1, k2 - 1);
        lemma_sum_prefix_bounds(s, k2 - 1, k2 - 1);
    }
}

/// One row's contribution to the compressed-population complexity: the
/// entropy terms `c * (log2(n) - log2(c))` of its first `k` weights, in
/// fixed-point scale, with zero weights skipped.
pub open spec fn spec_row_entropy(row: Seq<usize>, n: int, k: int) -> int
    decreases k,
{
    if k <= 0 {
        0
    } else {
        spec_row_entropy(row, n, k - 1) + if row[k - 1] > 0 {
            (row[k - 1] as int) * (spec_log2_fp(n) - spec_log2_fp(row[k - 1] as int))
        } else {
            0int
        }
    }
}

/// The compressed-population complexity of the first `f` factors:
/// `CPC = N * sum_f H(p_f)` in fixed-point scale.
pub open spec fn spec_cpc(counts: Seq<Seq<usize>>, n: int, f: int) -> int
    decreases f,
{
    if f <= 0 {
        0
    } else {
        spec_cpc(counts, n, f - 1) + spec_row_entropy(counts[f - 1], n, counts[f - 1].len() as int)
    }
}

/// The number of free parameters of the first `f` factors: each factor
/// contributes one less than its number of joint outcomes.
pub open spec fn spec_params(counts: Seq<Seq<usize>>, f: int) -> int
    decreases f,
{
    if f <= 0 {
        0
    } else {
        spec_params(counts, f - 1) + (counts[f - 1].len() - 1)
    }
}

/// The model complexity: `MC = log2(N+1) * sum_f (|p_f| - 1)` in
/// fixed-point scale.
pub open spec fn spec_mc(counts: Seq<Seq<usize>>, n: int) -> int {
    spec_log2_fp(n + 1) * spec_params(counts, counts.len() as int)
}

/// The combined complexity: `CC = CPC + MC / 5`, the MDL score the
/// linkage search minimizes (the weight 0.2 appears as the reciprocal
/// `MDL_WEIGHT_RECIPROCAL`).
pub open spec fn spec_cc(counts: Seq<Seq<usize>>, n: int) -> int {
    spec_cpc(counts, n, counts.len() as int) + spec_mc(counts, n) / (MDL_WEIGHT_RECIPROCAL as int)
}

/// A bound on a row's entropy contribution: its magnitude never exceeds
/// the sum of the processed weights times the largest fixed-point
/// logarithm.
proof fn lemma_row_entropy_bound(row: Seq<usize>, n: int, k: int)
    requires
        1 <= n <= u64::MAX,
        0 <= k <= row.len(),
    ensures
        -(seq_sum_prefix(row, k) * 0x40_0000_0000) <= spec_row_entropy(row, n, k)
            <= seq_sum_prefix(row, k) * 0x40_0000_0000,
    decreases k,
{
    if k > 0 {
        lemma_row_entropy_bound(row, n, k - 1);
        let c = row[k - 1] as int;
        lemma_log2_fp_bound(n);
        if c > 0 {
            lemma_log2_fp_bound(c);
            assert(-(c * 0x40_0000_0000) <= c * (spec_log2_fp(n) - spec_log2_fp(c)) <= c
                * 0x40_0000_0000) by (nonlinear_arith)
                requires
                    c >= 1,
                    0 <= spec_log2_fp(n) < 0x40_0000_0000,
                    0 <= spec_log2_fp(c) < 0x40_0000_0000,
            ;
        }
        assert((seq_sum_prefix(row, k - 1) + c) * 0x40_0000_0000 == seq_sum_prefix(row, k - 1)
            * 0x40_0000_0000 + c * 0x40_0000_0000) by (nonlinear_arith);
    }
}

/// A bound on the compressed-population complexity of rows that each sum
/// to the sample size.
proof fn lemma_cpc_bound(counts: Seq<Seq<usize>>, n: int, f: int)
    requires
        1 <= n <= u64::MAX,
        0 <= f <= counts.len(),
        forall|f2: int| 0 <= f2 < counts.len() ==> seq_sum(#[trigger] counts[f2]) == n,
    ensures
        -(f * n * 0x40_0000_0000) <= spec_cpc(counts, n, f) <= f * n * 0x40_0000_0000,
    decreases f,
{
    if f > 0 {
        lemma_cpc_bound(counts, n, f - 1);
        let row = counts[f - 1];
        lemma_row_entropy_bound(row, n, row.len() as int);
        lemma_sum_prefix_full(row);
        assert(seq_sum_prefix(row, row.len() as int) == n);
        assert((f - 1) * n * 0x40_0000_0000 + n * 0x40_0000_0000 == f * n * 0x40_0000_0000
            && -((f - 1) * n * 0x40_0000_0000) + -(n * 0x40_0000_0000) == -(f * n
            * 0x40_0000_0000)) by (nonlinear_arith);
        assert(-(n * 0x40_0000_0000) <= spec_row_entropy(row, n, row.len() as int) <= n
            * 0x40_0000_0000);
    }
}

impl MultivariateModel {
    /// All weight rows sum to the sample size.
    pub open spec fn rows_sum_to_n(&self) -> bool {
        forall|f: int|
            0 <= f < self.counts_view().len() ==> seq_sum(#[trigger] self.counts_view()[f])
                == self.spec_sample_size()
    }

    /// The compressed-population complexity `CPC = N * sum_f H(p_f)` in
    /// fixed-point scale (`2^-32` units): the entropy sum runs over the
    /// joint outcomes of every factor, skipping outcomes of probability
    /// zero.
    pub fn compressed_population_complexity(&self) -> (r: i128)
        requires
            self.rows_sum_to_n(),
            1 <= self.spec_sample_size() <= u32::MAX,
            self.counts_view().len() <= u32::MAX,
        ensures
            r == spec_cpc(
                self.counts_view(),
                self.spec_sample_size() as int,
                self.counts_view().len() as int,
            ),
            -0x4_0000_0000_0000_0000_0000_0000_0000 <= r
                <= 0x4_0000_0000_0000_0000_0000_0000_0000,
    {
        let ghost n_int = self.spec_sample_size() as int;
        let n = self.sample_size;
        let l2n = crate::entropy::log2_fp(n as u64);
        let nf = self.counts.len();
        let mut acc: i128 = 0;
        let mut f: usize = 0;
        proof {
            lemma_log2_fp_bound(n_int);
        }
        while f < nf
            invariant
                f <= nf,
                nf == self.counts_view().len(),
                nf <= u32::MAX,
                1 <= n <= u32::MAX,
                n == self.spec_sample_size(),
                n_int == n,
                l2n == spec_log2_fp(n_int),
                l2n < 0x40_0000_0000,
                self.rows_sum_to_n(),
                acc == spec_cpc(self.counts_view(), n_int, f as int),
                -((f as int) * (n as int) * 0x40_0000_0000) <= acc <= (f as int) * (n as int)
                    * 0x40_0000_0000,
            decreases nf - f,
        {
            let row = &self.counts[f];
            let ghost rowv = self.counts_view()[f as int];
            proof {
                assert(rowv == row@);
                lemma_cpc_bound(self.counts_view(), n_int, f as int);
            }
            let rl = row.len();
            let mut racc: i128 = 0;
            let mut k: usize = 0;
            while k < rl
                invariant
                    k <= rl,
                    rl == rowv.len(),
                    rowv == row@,
                    1 <= n <= u32::MAX,
                    n_int == n,
                    l2n == spec_log2_fp(n_int),
                    l2n < 0x40_0000_0000,
                    seq_sum(rowv) == n,
                    racc == spec_row_entropy(rowv, n_int, k as int),
                    -(seq_sum_prefix(rowv, k as int) * 0x40_0000_0000) <= racc <= seq_sum_prefix(
                        rowv,
                        k as int,
                    ) * 0x40_0000_0000,
                    seq_sum_prefix(rowv, k as int) <= n,
                decreases rl - k,
            {
                let c = row[k];
                proof {
                    lemma_sum_prefix_bounds(rowv, k as int, k + 1);
                    lemma_sum_prefix_bounds(rowv, k + 1, rowv.len() as int);
                    lemma_sum_prefix_full(rowv);
                    lemma_seq_sum_entry(rowv, k as int);
                }
                if c > 0 {
                    let l2c = crate::entropy::log2_fp(c as u64);
                    proof {
                        lemma_log2_fp_bound(c as int);
                        assert(-((c as int) * 0x40_0000_0000) <= (c as int) * ((l2n as int) - (
                        l2c as int)) <= (c as int) * 0x40_0000_0000) by (nonlinear_arith)
                            requires
                                c >= 1,
                                0 <= l2n < 0x40_0000_0000,
                                0 <= l2c < 0x40_0000_0000,
                        ;
                        assert((seq_sum_prefix(rowv, k as int) + c) * 0x40_0000_0000
                            == seq_sum_prefix(rowv, k as int) * 0x40_0000_0000 + (c as int)
                            * 0x40_0000_0000) by (nonlinear_arith);
                        assert(seq_sum_prefix(rowv, k + 1) <= n);
                        assert((n as int) * 0x40_0000_0000 <= 0x4_0000_0000_0000_0000_0000_0000)
                            by (nonlinear_arith)
                            requires
                                1 <= n <= u32::MAX,
                        ;
                    }
                    racc = racc + (c as i128) * ((l2n as i128) - (l2c as i128));
                }
                k = k + 1;
            }
            proof {
                lemma_sum_prefix_full(rowv);
                assert(racc == spec_row_entropy(rowv, n_int, rowv.len() as int));
                assert(-((n as int) * 0x40_0000_0000) <= racc <= (n as int) * 0x40_0000_0000);
                assert((f + 1) * (n as int) * 0x40_0000_0000 == (f as int) * (n as int)
                    * 0x40_0000_0000 + (n as int) * 0x40_0000_0000 && -((f + 1) * (n as int)
                    * 0x40_0000_0000) == -((f as int) * (n as int) * 0x40_0000_0000) + -((
                n as int) * 0x40_0000_0000)) by (nonlinear_arith);
                assert((f + 1) * (n as int) * 0x40_0000_0000
                    <= 0x4_0000_0000_0000_0000_0000_0000_0000) by (nonlinear_arith)
                    requires
                        0 <= f + 1 <= u32::MAX as int + 1,
                        1 <= n <= u32::MAX,
                ;
            }
            acc = acc + racc;
            f = f + 1;
        }
        proof {
            assert((nf as int) * (n as int) * 0x40_0000_0000
                <= 0x4_0000_0000_0000_0000_0000_0000_0000) by (nonlinear_arith)
                requires
                    0 <= nf <= u32::MAX,
                    1 <= n <= u32::MAX,
            ;
        }
        acc
    }

    /// The model complexity `MC = log2(N+1) * sum_f (|p_f| - 1)` in
    /// fixed-point scale.
    pub fn model_complexity(&self) -> (r: i128)
        requires
            1 <= self.spec_sample_size() <= u32::MAX,
            self.counts_view().len() <= u32::MAX,
            forall|f: int|
                0 <= f < self.counts_view().len() ==> 1 <= (#[trigger] self.counts_view()[f]).len()
                    <= u32::MAX,
        ensures
            r == spec_mc(self.counts_view(), self.spec_sample_size() as int),
            0 <= r <= 0x4_0000_0000_0000_0000_0000_0000_0000,
    {
        let n = self.sample_size;
        let l2n1 = crate::entropy::log2_fp((n as u64) + 1);
        let nf = self.counts.len();
        let mut params: u64 = 0;
        let mut f: usize = 0;
        while f < nf
            invariant
                f <= nf,
                nf == self.counts_view().len(),
                nf <= u32::MAX,
                forall|f2: int|
                    0 <= f2 < self.counts_view().len() ==> 1 <= (
                    #[trigger] self.counts_view()[f2]).len() <= u32::MAX,
                params == spec_params(self.counts_view(), f as int),
                params <= (f as int) * 0x1_0000_0000,
            decreases nf - f,
        {
            let rl = self.counts[f].len();
            proof {
                assert(self.counts_view()[f as int].len() == rl);
                assert((f + 1) * 0x1_0000_0000 == (f as int) * 0x1_0000_0000 + 0x1_0000_0000)
                    by (nonlinear_arith);
                assert((f as int + 1) * 0x1_0000_0000 <= 0x1_0000_0000_0000_0000_0000)
                    by (nonlinear_arith)
                    requires
                        0 <= f + 1 <= u32::MAX as int + 1,
                ;
            }
            params = params + (rl - 1) as u64;
            f = f + 1;
        }
        proof {
            lemma_log2_fp_bound(self.spec_sample_size() as int + 1);
            assert(params <= 0x1_0000_0000_0000_0000) by (nonlinear_arith)
                requires
                    params <= (nf as int) * 0x1_0000_0000,
                    nf <= u32::MAX,
            ;
            assert((l2n1 as int) * (params as int) <= 0x40_0000_0000 * 0x1_0000_0000_0000_0000 && 0
                <= (l2n1 as int) * (params as int)) by (nonlinear_arith)
                requires
                    0 <= l2n1 < 0x40_0000_0000,
                    0 <= params <= 0x1_0000_0000_0000_0000,
            ;
            assert(spec_params(self.counts_view(), self.counts_view().len() as int) == params);
        }
        (l2n1 as i128) * (params as i128)
    }

    /// The combined complexity `CC = CPC + MC / 5`: the MDL score, in
    /// fixed-point scale, that the greedy linkage search minimizes.
    pub fn combined_complexity(&self) -> (r: i128)
        requires
            self.rows_sum_to_n(),
            1 <= self.spec_sample_size() <= u32::MAX,
            self.counts_view().len() <= u32::MAX,
            forall|f: int|
                0 <= f < self.counts_view().len() ==> 1 <= (#[trigger] self.counts_view()[f]).len()
                    <= u32::MAX,
        ensures
            r == spec_cc(self.counts_view(), self.spec_sample_size() as int),
    {
        let cpc = self.compressed_population_complexity();
        let mc = self.model_complexity();
        proof {
            lemma_cpc_bound(
                self.counts_view(),
                self.spec_sample_size() as int,
                self.counts_view().len() as int,
            );
            lemma_log2_fp_bound(self.spec_sample_size() as int + 1);
            assert(0 <= spec_params(self.counts_view(), self.counts_view().len() as int)) by {
                lemma_params_nonneg(self.counts_view(), self.counts_view().len() as int);
            }
        }
        cpc + mc / MDL_WEIGHT_RECIPROCAL
    }
}

/// The parameter count is non-negative when every factor has at least
/// one outcome.
proof fn lemma_params_nonneg(counts: Seq<Seq<usize>>, f: int)
    requires
        0 <= f <= counts.len(),
        forall|f2: int| 0 <= f2 < counts.len() ==> (#[trigger] counts[f2]).len() >= 1,
    ensures
        0 <= spec_params(counts, f),
    decreases f,
{
    if f > 0 {
        lemma_params_nonneg(counts, f - 1);
    }
}


/// The exact joint-count table that fitting a model to `pop` under the
/// factorization yields.
pub open spec fn spec_model_counts(
    genome: &Genome,
    pop: Seq<Seq<Allele>>,
    fact: Seq<Seq<usize>>,
) -> Seq<Seq<usize>> {
    Seq::new(
        fact.len(),
        |f: int|
            Seq::new(
                joint_size(genome@, fact[f]) as nat,
                |k: int| joint_count(pop, pop.len() as int, genome@, fact[f], k) as usize,
            ),
    )
}

/// The combined complexity that fitting a model to `pop` under the
/// factorization yields.
pub open spec fn spec_cc_of(genome: &Genome, pop: Seq<Seq<Allele>>, fact: Seq<Seq<usize>>) -> int {
    spec_cc(spec_model_counts(genome, pop, fact), pop.len() as int)
}

/// A fitted model's count table is exactly the spec-level table.
pub proof fn lemma_fitted_counts(m: &MultivariateModel, genome: &Genome, pop: Seq<Seq<Allele>>)
    requires
        m.fitted_to(genome, pop),
    ensures
        m.counts_view() == spec_model_counts(genome, pop, m.fact()),
{
    let sm = spec_model_counts(genome, pop, m.fact());
    assert forall|f: int| 0 <= f < m.fact().len() implies m.counts_view()[f] =~= sm[f] by {
        assert(m.counts_view()[f].len() == joint_size(genome@, m.fact()[f]));
        assert forall|k: int| 0 <= k < m.counts_view()[f].len() implies m.counts_view()[f][k]
            == sm[f][k] by {
            lemma_joint_count_bound(pop, pop.len() as int, genome@, m.fact()[f], k);
            assert(m.counts_view()[f][k] == joint_count(
                pop,
                pop.len() as int,
                genome@,
                m.fact()[f],
                k,
            ));
        }
    }
    assert(m.counts_view() =~= sm);
}

/// Every factor's joint-outcome space is small enough for MDL scoring.
pub open spec fn sizes_fit(genome: &Genome, fact: Seq<Seq<usize>>) -> bool {
    forall|f: int| 0 <= f < fact.len() ==> joint_size(genome@, #[trigger] fact[f]) <= u32::MAX
}

/// Checks whether every factor's joint-outcome space is small enough
/// for the MDL scores.
pub fn sizes_ok(genome: &Genome, fact: &Factorization) -> (r: bool)
    requires
        genome.wf(),
        is_partition(fact@, genome@.len() as int),
        genome@.len() <= usize::MAX,
        forall|i: int| 0 <= i < genome@.len() ==> (#[trigger] genome@[i]).len() <= u32::MAX,
    ensures
        r == sizes_fit(genome, fact@),
{
    let nf = fact.len();
    let mut f: usize = 0;
    proof {
        crate::genome::lemma_genome_nonempty(genome);
    }
    while f < nf
        invariant
            f <= nf,
            nf == fact@.len(),
            genome.wf(),
            is_partition(fact@, genome@.len() as int),
            genome@.len() <= usize::MAX,
            forall|i: int| 0 <= i < genome@.len() ==> (#[trigger] genome@[i]).len() <= u32::MAX,
            forall|m: int| 0 <= m < genome@.len() ==> (#[trigger] genome@[m]).len() >= 1,
            forall|f2: int| 0 <= f2 < f ==> joint_size(genome@, #[trigger] fact@[f2]) <= u32::MAX,
        decreases nf - f,
    {
        proof {
            lemma_partition_in_range(fact@, genome@.len() as int, f as int);
        }
        let factor = fact.get_factor(f);
        let fl = factor.len();
        let mut mult: u64 = 1;
        let mut j: usize = 0;
        while j < fl
            invariant
                j <= fl,
                fl == factor@.len(),
                f < nf,
                nf == fact@.len(),
                genome.wf(),
                factor@ == fact@[f as int],
                factor_in_range(genome@, factor@),
                forall|i: int| 0 <= i < genome@.len() ==> (#[trigger] genome@[i]).len() <= u32::MAX,
                forall|m: int| 0 <= m < genome@.len() ==> (#[trigger] genome@[m]).len() >= 1,
                mult == prefix_prod(genome@, factor@, j as int),
                mult <= u32::MAX,
            decreases fl - j,
        {
            let pos = factor[j];
            let d = genome.get(pos);
            let dl = d.len();
            proof {
                assert((mult as int) * (dl as int) <= (u32::MAX as int) * (u32::MAX as int))
                    by (nonlinear_arith)
                    requires
                        mult <= u32::MAX,
                        dl <= u32::MAX,
                        mult >= 0,
                        dl >= 0,
                ;
            }
            let next = mult * (dl as u64);
            proof {
                assert(next == prefix_prod(genome@, factor@, j + 1));
            }
            if next > 0xFFFF_FFFF {
                proof {
                    lemma_prefix_prod_bounds(genome@, factor@, j + 1, fl as int);
                    assert(joint_size(genome@, factor@) > u32::MAX);
                    assert(joint_size(genome@, fact@[f as int]) > u32::MAX);
                    assert(!sizes_fit(genome, fact@));
                }
                return false;
            }
            mult = next;
            j = j + 1;
        }
        f = f + 1;
    }
    true
}


/// For every factor of a fitted multivariate model, the joint
/// probabilities sum to one exactly: the factor's counts sum to the
/// sample size.
pub proof fn lemma_factor_probabilities_total(
    m: &MultivariateModel,
    genome: &Genome,
    pop: Seq<Seq<Allele>>,
)
    requires
        m.fitted_to(genome, pop),
    ensures
        forall|f: int|
            0 <= f < m.counts_view().len() ==> seq_sum(#[trigger] m.counts_view()[f])
                == m.spec_sample_size(),
        m.spec_sample_size() == pop.len(),
{
}


/// The joint index over a prefix lies below the prefix outcome count.
pub proof fn lemma_ji_prefix_range(
    genome_v: Seq<Seq<Allele>>,
    factor: Seq<usize>,
    g: Seq<Allele>,
    j: int,
)
    requires
        0 <= j <= factor.len(),
        factor_in_range(genome_v, factor),
        forall|m: int| 0 <= m < genome_v.len() ==> (#[trigger] genome_v[m]).len() >= 1,
        forall|m: int|
            0 <= m < factor.len() ==> 0 <= dom_index(
                genome_v[factor[m] as int],
                #[trigger] g[factor[m] as int],
            ) < genome_v[factor[m] as int].len(),
    ensures
        0 <= ji_prefix(genome_v, factor, g, j) < prefix_prod(genome_v, factor, j),
    decreases j,
{
    if j == 0 {
    } else {
        lemma_ji_prefix_range(genome_v, factor, g, j - 1);
        lemma_prefix_prod_bounds(genome_v, factor, j - 1, j - 1);
        assert(0 <= ji_prefix(genome_v, factor, g, j) < prefix_prod(genome_v, factor, j))
            by (nonlinear_arith)
            requires
                ji_prefix(genome_v, factor, g, j) == ji_prefix(genome_v, factor, g, j - 1)
                    + dom_index(genome_v[factor[j - 1] as int], g[factor[j - 1] as int])
                    * prefix_prod(genome_v, factor, j - 1),
                prefix_prod(genome_v, factor, j) == prefix_prod(genome_v, factor, j - 1)
                    * genome_v[factor[j - 1] as int].len(),
                0 <= ji_prefix(genome_v, factor, g, j - 1) < prefix_prod(genome_v, factor, j - 1),
                0 <= dom_index(genome_v[factor[j - 1] as int], g[factor[j - 1] as int])
                    < genome_v[factor[j - 1] as int].len(),
                prefix_prod(genome_v, factor, j - 1) >= 1,
        ;
    }
}

/// Two genotypes with the same joint index agree on every variable of
/// the factor: the linearization is injective.
pub proof fn lemma_ji_prefix_injective(
    genome_v: Seq<Seq<Allele>>,
    factor: Seq<usize>,
    g1: Seq<Allele>,
    g2: Seq<Allele>,
    j: int,
)
    requires
        0 <= j <= factor.len(),
        factor_in_range(genome_v, factor),
        forall|m: int| 0 <= m < genome_v.len() ==> (#[trigger] genome_v[m]).len() >= 1,
        forall|m: int|
            0 <= m < g1.len() ==> 0 <= dom_index(genome_v[m], #[trigger] g1[m]) < genome_v[m].len()
                && genome_v[m][dom_index(genome_v[m], g1[m])] == g1[m],
        forall|m: int|
            0 <= m < g2.len() ==> 0 <= dom_index(genome_v[m], #[trigger] g2[m]) < genome_v[m].len()
                && genome_v[m][dom_index(genome_v[m], g2[m])] == g2[m],
        g1.len() == genome_v.len(),
        g2.len() == genome_v.len(),
        ji_prefix(genome_v, factor, g1, j) == ji_prefix(genome_v, factor, g2, j),
    ensures
        forall|m: int| 0 <= m < j ==> g1[#[trigger] factor[m] as int] == g2[factor[m] as int],
    decreases j,
{
    if j > 0 {
        let pos = factor[j - 1] as int;
        let pp = prefix_prod(genome_v, factor, j - 1);
        let a1 = ji_prefix(genome_v, factor, g1, j - 1);
        let a2 = ji_prefix(genome_v, factor, g2, j - 1);
        let d1 = dom_index(genome_v[pos], g1[pos]);
        let d2 = dom_index(genome_v[pos], g2[pos]);
        assert forall|m: int|
            0 <= m < factor.len() implies 0 <= dom_index(
            genome_v[factor[m] as int],
            #[trigger] g1[factor[m] as int],
        ) < genome_v[factor[m] as int].len() by {
            assert(factor[m] < genome_v.len());
        }
        assert forall|m: int|
            0 <= m < factor.len() implies 0 <= dom_index(
            genome_v[factor[m] as int],
            #[trigger] g2[factor[m] as int],
        ) < genome_v[factor[m] as int].len() by {
            assert(factor[m] < genome_v.len());
        }
        lemma_ji_prefix_range(genome_v, factor, g1, j - 1);
        lemma_ji_prefix_range(genome_v, factor, g2, j - 1);
        assert(d1 == d2 && a1 == a2) by (nonlinear_arith)
            requires
                a1 + d1 * pp == a2 + d2 * pp,
                0 <= a1 < pp,
                0 <= a2 < pp,
                pp >= 1,
        ;
        assert(g1[pos] == genome_v[pos][d1] && g2[pos] == genome_v[pos][d2]);
        lemma_ji_prefix_injective(genome_v, factor, g1, g2, j - 1);
    }
}

/// A positive joint count means some individual carries the outcome.
pub proof fn lemma_joint_count_positive(
    pop: Seq<Seq<Allele>>,
    m: int,
    genome_v: Seq<Seq<Allele>>,
    factor: Seq<usize>,
    k: int,
)
    requires
        joint_count(pop, m, genome_v, factor, k) > 0,
    ensures
        exists|p: int| 0 <= p < m && joint_index(genome_v, factor, #[trigger] pop[p]) == k,
    decreases m,
{
    if m > 0 {
        if joint_index(genome_v, factor, pop[m - 1]) == k {
            assert(0 <= m - 1 < m && joint_index(genome_v, factor, pop[m - 1]) == k);
        } else {
            lemma_joint_count_positive(pop, m - 1, genome_v, factor, k);
        }
    }
}

/// A variable index counted by the multiset union occurs in some factor.
proof fn lemma_union_count_positive(f: Seq<Seq<usize>>, x: usize)
    requires
        factors_union(f).count(x) > 0,
    ensures
        exists|fi: int| 0 <= fi < f.len() && (#[trigger] f[fi]).contains(x),
    decreases f.len(),
{
    if f.len() > 0 {
        if f[0].to_multiset().count(x) > 0 {
            assert(f[0].contains(x));
        } else {
            lemma_union_count_positive(f.drop_first(), x);
            let fi = choose|fi: int|
                0 <= fi < f.drop_first().len() && (#[trigger] f.drop_first()[fi]).contains(x);
            assert(f[fi + 1].contains(x));
        }
    }
}

/// Every variable of a partition's range occurs in some factor.
pub proof fn lemma_position_in_factor(fact: Seq<Seq<usize>>, l: int, x: usize)
    requires
        0 <= l <= usize::MAX,
        is_partition(fact, l),
        x < l,
    ensures
        exists|fi: int| 0 <= fi < fact.len() && (#[trigger] fact[fi]).contains(x),
{
    lemma_range_multiset_count(l, x);
    assert(factors_union(fact).count(x) == range_multiset(l).count(x));
    lemma_union_count_positive(fact, x);
}

/// Position `i` of `g` carries an allele that some member of `pop`
/// carries at that same position.
pub open spec fn pos_from(pop: Seq<Seq<Allele>>, g: Seq<Allele>, i: int) -> bool {
    exists|p: int| 0 <= p < pop.len() && g[i] == (#[trigger] pop[p])[i]
}

/// Every position of `g` carries an allele that some member of `pop`
/// carries at that same position.
pub open spec fn built_from(pop: Seq<Seq<Allele>>, g: Seq<Allele>) -> bool {
    forall|i: int| 0 <= i < g.len() ==> #[trigger] pos_from(pop, g, i)
}

/// Any genotype a univariate model fitted to a population supports is
/// built from alleles that occur in the population: at every position,
/// some population member carries the same allele.
pub proof fn lemma_univariate_child_from_population(
    m: &UnivariateModel,
    genome: &Genome,
    pop: Seq<Seq<Allele>>,
    g: Seq<Allele>,
)
    requires
        m.fitted_to(genome, pop),
        m.supports(genome, g),
    ensures
        built_from(pop, g),
{
    assert forall|i: int| 0 <= i < g.len() implies #[trigger] pos_from(pop, g, i) by {
        assert(m.supported_at(genome, g, i));
        let k = choose|k: int|
            0 <= k < genome@[i].len() && m.counts_view()[i][k] > 0 && g[i] == genome@[i][k];
        assert(m.counts_view()[i][k] == spec_count_at(pop, pop.len() as int, i, genome@[i][k]));
        lemma_count_at_positive(pop, pop.len() as int, i, genome@[i][k]);
        let p = choose|p: int| 0 <= p < pop.len() && pop[p][i] == genome@[i][k];
        assert(0 <= p < pop.len() && g[i] == pop[p][i]);
    }
}

/// Any genotype a multivariate model fitted to a population supports is
/// built from joint outcomes that occur in the population: at every
/// position, some population member carries the same allele (in fact
/// the member matching the whole factor's outcome).
pub proof fn lemma_multivariate_child_from_population(
    m: &MultivariateModel,
    genome: &Genome,
    pop: Seq<Seq<Allele>>,
    g: Seq<Allele>,
)
    requires
        genome.wf(),
        genome@.len() <= usize::MAX,
        is_partition(m.fact(), genome@.len() as int),
        m.fitted_to(genome, pop),
        m.supports(genome, g),
        genome.genotype_valid(g),
        forall|p: int| 0 <= p < pop.len() ==> genome.genotype_valid(#[trigger] pop[p]),
    ensures
        built_from(pop, g),
{
    let l = genome@.len() as int;
    assert forall|i: int| 0 <= i < g.len() implies #[trigger] pos_from(pop, g, i) by {
        crate::genome::lemma_genome_nonempty(genome);
        lemma_position_in_factor(m.fact(), l, i as usize);
        let f = choose|f: int| 0 <= f < m.fact().len() && (#[trigger] m.fact()[f]).contains(
            i as usize,
        );
        let factor = m.fact()[f];
        let j = choose|j: int| 0 <= j < factor.len() && factor[j] == i as usize;
        lemma_partition_in_range(m.fact(), l, f);
        assert(m.supported_factor(genome, g, f));
        let k = joint_index(genome@, factor, g);
        assert(m.counts_view()[f][k] > 0);
        assert(m.counts_view()[f][k] == joint_count(pop, pop.len() as int, genome@, factor, k));
        lemma_joint_count_positive(pop, pop.len() as int, genome@, factor, k);
        let p = choose|p: int|
            0 <= p < pop.len() && joint_index(genome@, factor, #[trigger] pop[p]) == k;
        lemma_dom_index_valid(genome, g);
        lemma_dom_index_valid(genome, pop[p]);
        lemma_ji_prefix_injective(genome@, factor, g, pop[p], factor.len() as int);
        assert(g[factor[j] as int] == pop[p][factor[j] as int]);
        assert(0 <= p < pop.len() && g[i] == pop[p][i]);
    }
}

} // verus!
