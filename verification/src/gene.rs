//! Alleles and the per-position value sets (domains) of the search space.
//!
//! A domain is a finite ordered list of distinct alleles; `get` and
//! `index_of` are mutually inverse, and iteration order is frozen at
//! construction time.

use vstd::prelude::*;

verus! {

/// One concrete value a decision variable may hold: either a Boolean or an
/// integral allele.
#[derive(Clone, Copy, PartialEq, Eq, Structural, Debug)]
pub enum Allele {
    Bool(bool),
    Int(i64),
}

/// A sequence holds no element twice.
pub open spec fn seq_distinct<T>(s: Seq<T>) -> bool {
    forall|i: int, j: int| 0 <= i < j < s.len() ==> s[i] != s[j]
}

/// A sequence of integers is strictly increasing.
pub open spec fn seq_sorted_strict(s: Seq<i64>) -> bool {
    forall|i: int, j: int| 0 <= i < j < s.len() ==> s[i] < s[j]
}

/// Appending an element to a sequence adds exactly that element to its
/// contents.
pub proof fn lemma_push_contains<T>(s: Seq<T>, x: T, a: T)
    ensures
        s.push(x).contains(a) <==> (s.contains(a) || a == x),
{
    if s.push(x).contains(a) {
        let w = choose|w: int| 0 <= w < s.push(x).len() && s.push(x)[w] == a;
        if w < s.len() {
            assert(s[w] == a);
        }
    }
    if s.contains(a) {
        let w = choose|w: int| 0 <= w < s.len() && s[w] == a;
        assert(s.push(x)[w] == a);
    }
    assert(s.push(x)[s.len() as int] == x);
}

/// Appending a fresh element keeps a sequence free of duplicates.
pub proof fn lemma_push_distinct<T>(s: Seq<T>, x: T)
    requires
        seq_distinct(s),
        !s.contains(x),
    ensures
        seq_distinct(s.push(x)),
{
    assert forall|i: int, j: int| 0 <= i < j < s.push(x).len() implies s.push(x)[i] != s.push(
        x,
    )[j] by {
        if j == s.len() {
            assert(s[i] == s.push(x)[i]);
            if s.push(x)[i] == x {
                assert(s.contains(x));
            }
        }
    }
}

/// The Boolean domain: an ordered list of distinct Boolean values.
/// The canonical (default) Boolean domain is `[false, true]`.
#[derive(Debug)]
pub struct BoolDomain {
    values: Vec<bool>,
}

impl View for BoolDomain {
    type V = Seq<bool>;

    closed spec fn view(&self) -> Seq<bool> {
        self.values@
    }
}

impl Default for BoolDomain {
    /// The canonical Boolean domain `[false, true]`.
    fn default() -> (r: Self)
        ensures
            r@ =~= seq![false, true],
            r.wf(),
    {
        let values: Vec<bool> = vec![false, true];
        BoolDomain { values }
    }
}

impl BoolDomain {
    /// A well-formed Boolean domain holds each value at most once.
    pub open spec fn wf(&self) -> bool {
        seq_distinct(self@)
    }

    /// Builds a domain from the given values, keeping the first occurrence
    /// of each and dropping later duplicates.
    pub fn from_values(vs: &Vec<bool>) -> (r: Self)
        ensures
            r.wf(),
            forall|a: bool| r@.contains(a) <==> vs@.contains(a),
    {
        let mut values: Vec<bool> = Vec::new();
        let mut i: usize = 0;
        while i < vs.len()
            invariant
                i <= vs.len(),
                seq_distinct(values@),
                forall|a: bool| values@.contains(a) <==> vs@.take(i as int).contains(a),
            decreases vs.len() - i,
        {
            let v = vs[i];
            let ghost prev = values@;
            if !contains_bool(&values, v) {
                values.push(v);
                proof {
                    lemma_push_distinct(prev, v);
                }
            }
            proof {
                assert(vs@.take(i + 1) =~= vs@.take(i as int).push(vs@[i as int]));
                assert forall|a: bool| values@.contains(a) <==> vs@.take(i + 1).contains(a) by {
                    lemma_push_contains(vs@.take(i as int), vs@[i as int], a);
                    if prev.contains(v) || values@ != prev {
                        lemma_push_contains(prev, v, a);
                    }
                }
            }
            i = i + 1;
        }
        proof {
            assert(vs@.take(vs@.len() as int) =~= vs@);
        }
        BoolDomain { values }
    }

    /// The allele at position `idx` in canonical order.
    pub fn get(&self, idx: usize) -> (r: bool)
        requires
            idx < self@.len(),
        ensures
            r == self@[idx as int],
    {
        self.values[idx]
    }

    /// The position of `allele` in canonical order; inverse of `get`.
    pub fn index_of(&self, allele: bool) -> (r: usize)
        requires
            self@.contains(allele),
        ensures
            r < self@.len(),
            self@[r as int] == allele,
    {
        let mut i: usize = 0;
        loop
            invariant
                i < self.values.len(),
                self@.contains(allele),
                forall|j: int| 0 <= j < i ==> self@[j] != allele,
            decreases self.values.len() - i,
        {
            if self.values[i] == allele {
                return i;
            }
            proof {
                if i + 1 == self.values.len() {
                    let w = choose|w: int| 0 <= w < self@.len() && self@[w] == allele;
                    assert(false);
                }
            }
            i = i + 1;
        }
    }

    /// The number of alleles in the domain.
    pub fn len(&self) -> (r: usize)
        ensures
            r == self@.len(),
    {
        self.values.len()
    }

    /// The alleles in canonical order.
    pub fn iter(&self) -> (r: Vec<bool>)
        ensures
            r@ == self@,
    {
        let mut out: Vec<bool> = Vec::new();
        let mut i: usize = 0;
        while i < self.values.len()
            invariant
                i <= self.values.len(),
                out@ =~= self@.take(i as int),
            decreases self.values.len() - i,
        {
            out.push(self.values[i]);
            i = i + 1;
        }
        proof {
            assert(self@.take(self@.len() as int) =~= self@);
        }
        out
    }

    /// A new domain that also holds `allele`; unchanged if already present.
    pub fn add(self, allele: bool) -> (r: Self)
        requires
            self.wf(),
        ensures
            r.wf(),
            forall|a: bool| r@.contains(a) <==> (self@.contains(a) || a == allele),
    {
        if contains_bool(&self.values, allele) {
            self
        } else {
            let ghost prev = self@;
            let mut values = self.values;
            values.push(allele);
            proof {
                lemma_push_distinct(prev, allele);
                assert forall|a: bool| values@.contains(a) <==> (prev.contains(a) || a
                    == allele) by {
                    lemma_push_contains(prev, allele, a);
                }
            }
            BoolDomain { values }
        }
    }

    /// A new domain holding the union of the two allele sets; the alleles of
    /// `self` keep their order and new alleles of `other` follow.
    pub fn union(self, other: Self) -> (r: Self)
        requires
            self.wf(),
        ensures
            r.wf(),
            forall|a: bool| r@.contains(a) <==> (self@.contains(a) || other@.contains(a)),
    {
        let ghost orig = self@;
        let mut r = self;
        let mut i: usize = 0;
        while i < other.values.len()
            invariant
                i <= other.values.len(),
                r.wf(),
                r@.contains(true) <==> (orig.contains(true) || other@.take(i as int).contains(
                    true,
                )),
                r@.contains(false) <==> (orig.contains(false) || other@.take(i as int).contains(
                    false,
                )),
            decreases other.values.len() - i,
        {
            let ghost before = r@;
            r = r.add(other.values[i]);
            proof {
                assert(other@.take(i + 1) =~= other@.take(i as int).push(other@[i as int]));
                lemma_push_contains(other@.take(i as int), other@[i as int], true);
                lemma_push_contains(other@.take(i as int), other@[i as int], false);
            }
            i = i + 1;
        }
        proof {
            assert(other@.take(other@.len() as int) =~= other@);
            assert forall|a: bool|
                r@.contains(a) <==> (orig.contains(a) || other@.contains(a)) by {
                if a {
                    assert(r@.contains(true) <==> (orig.contains(true) || other@.contains(true)));
                } else {
                    assert(r@.contains(false) <==> (orig.contains(false) || other@.contains(
                        false,
                    )));
                }
            }
        }
        r
    }
}

/// A discrete domain over integral alleles: a strictly increasing list of
/// distinct values.
#[derive(Debug)]
pub struct IntegralDomain {
    alleles: Vec<i64>,
}

impl View for IntegralDomain {
    type V = Seq<i64>;

    closed spec fn view(&self) -> Seq<i64> {
        self.alleles@
    }
}

impl IntegralDomain {
    /// A well-formed integral domain is strictly increasing (hence its
    /// alleles are distinct).
    pub open spec fn wf(&self) -> bool {
        seq_sorted_strict(self@)
    }

    /// The empty domain.
    pub fn empty() -> (r: Self)
        ensures
            r.wf(),
            r@.len() == 0,
    {
        IntegralDomain { alleles: Vec::new() }
    }

    /// The domain holding `lo, lo+1, ..., hi-1` (empty if `lo >= hi`).
    pub fn from_range(lo: i64, hi: i64) -> (r: Self)
        ensures
            r.wf(),
            r@.len() == if lo <= hi {
                hi - lo
            } else {
                0
            },
            forall|k: int| 0 <= k < r@.len() ==> r@[k] == lo + k,
    {
        let mut alleles: Vec<i64> = Vec::new();
        let mut x = lo;
        while x < hi
            invariant
                lo <= x || x == lo,
                x <= hi || x == lo,
                alleles@.len() == if x >= lo {
                    x - lo
                } else {
                    0
                },
                forall|k: int| 0 <= k < alleles@.len() ==> alleles@[k] == lo + k,
            decreases hi - x,
        {
            alleles.push(x);
            x = x + 1;
        }
        IntegralDomain { alleles }
    }

    /// The domain holding `lo, lo+1, ..., hi` (empty if `lo > hi`).
    pub fn from_inclusive_range(lo: i64, hi: i64) -> (r: Self)
        ensures
            r.wf(),
            r@.len() == if lo <= hi {
                hi - lo + 1
            } else {
                0
            },
            forall|k: int| 0 <= k < r@.len() ==> r@[k] == lo + k,
    {
        let mut alleles: Vec<i64> = Vec::new();
        if lo <= hi {
            let mut x = lo;
            while x < hi
                invariant
                    lo <= x <= hi,
                    alleles@.len() == x - lo,
                    forall|k: int| 0 <= k < alleles@.len() ==> alleles@[k] == lo + k,
                decreases hi - x,
            {
                alleles.push(x);
                x = x + 1;
            }
            alleles.push(hi);
        }
        IntegralDomain { alleles }
    }

    /// The allele at position `idx` in increasing order.
    pub fn get(&self, idx: usize) -> (r: i64)
        requires
            idx < self@.len(),
        ensures
            r == self@[idx as int],
    {
        self.alleles[idx]
    }

    /// The position of `allele`; inverse of `get`.
    pub fn index_of(&self, allele: i64) -> (r: usize)
        requires
            self@.contains(allele),
        ensures
            r < self@.len(),
            self@[r as int] == allele,
    {
        let mut i: usize = 0;
        loop
            invariant
                i < self.alleles.len(),
                self@.contains(allele),
                forall|j: int| 0 <= j < i ==> self@[j] != allele,
            decreases self.alleles.len() - i,
        {
            if self.alleles[i] == allele {
                return i;
            }
            proof {
                if i + 1 == self.alleles.len() {
                    let w = choose|w: int| 0 <= w < self@.len() && self@[w] == allele;
                    assert(false);
                }
            }
            i = i + 1;
        }
    }

    /// The number of alleles in the domain.
    pub fn len(&self) -> (r: usize)
        ensures
            r == self@.len(),
    {
        self.alleles.len()
    }

    /// The alleles in increasing order.
    pub fn iter(&self) -> (r: Vec<i64>)
        ensures
            r@ == self@,
    {
        let mut out: Vec<i64> = Vec::new();
        let mut i: usize = 0;
        while i < self.alleles.len()
            invariant
                i <= self.alleles.len(),
                out@ =~= self@.take(i as int),
            decreases self.alleles.len() - i,
        {
            out.push(self.alleles[i]);
            i = i + 1;
        }
        proof {
            assert(self@.take(self@.len() as int) =~= self@);
        }
        out
    }

    /// A new domain that also holds `allele`, at its sorted position;
    /// unchanged if already present.
    pub fn add(self, allele: i64) -> (r: Self)
        requires
            self.wf(),
        ensures
            r.wf(),
            forall|a: i64| r@.contains(a) <==> (self@.contains(a) || a == allele),
    {
        let mut p: usize = 0;
        while p < self.alleles.len() && self.alleles[p] < allele
            invariant
                p <= self.alleles.len(),
                forall|j: int| 0 <= j < p ==> self@[j] < allele,
            decreases self.alleles.len() - p,
        {
            p = p + 1;
        }
        if p < self.alleles.len() && self.alleles[p] == allele {
            proof {
                assert(self@.contains(allele));
            }
            self
        } else {
            let ghost prev = self@;
            let mut alleles = self.alleles;
            alleles.insert(p, allele);
            proof {
                prev.insert_ensures(p as int, allele);
                assert(forall|j: int| p <= j < prev.len() ==> prev[j] > allele);
                assert forall|i: int, j: int|
                    0 <= i < j < alleles@.len() implies alleles@[i] < alleles@[j] by {
                    if j <= p {
                        assert(alleles@[i] == prev[i] && (j == p || alleles@[j] == prev[j]));
                    } else if i >= p {
                        assert(alleles@[j] == prev[j - 1] && (i == p || alleles@[i] == prev[i
                            - 1]));
                    } else {
                        assert(alleles@[i] == prev[i] && alleles@[j] == prev[j - 1]);
                    }
                }
                assert forall|a: i64| alleles@.contains(a) <==> (prev.contains(a) || a
                    == allele) by {
                    if alleles@.contains(a) {
                        let w = choose|w: int| 0 <= w < alleles@.len() && alleles@[w] == a;
                        if w < p {
                            assert(prev[w] == a);
                        } else if w > p {
                            assert(alleles@[(w - 1) + 1] == prev[w - 1]);
                            assert(prev[w - 1] == a);
                        }
                    }
                    if prev.contains(a) {
                        let w = choose|w: int| 0 <= w < prev.len() && prev[w] == a;
                        if w < p {
                            assert(alleles@[w] == a);
                        } else {
                            assert(alleles@[w + 1] == a);
                        }
                    }
                    assert(alleles@[p as int] == allele);
                }
            }
            IntegralDomain { alleles }
        }
    }

    /// A new domain holding the union of the two allele sets, in increasing
    /// order.
    pub fn union(self, other: Self) -> (r: Self)
        requires
            self.wf(),
        ensures
            r.wf(),
            forall|a: i64| r@.contains(a) <==> (self@.contains(a) || other@.contains(a)),
    {
        let ghost orig = self@;
        let mut r = self;
        let mut i: usize = 0;
        while i < other.alleles.len()
            invariant
                i <= other.alleles.len(),
                r.wf(),
                forall|a: i64| orig.contains(a) ==> r@.contains(a),
                forall|j: int| 0 <= j < i ==> r@.contains(#[trigger] other@[j]),
                forall|a: i64| r@.contains(a) ==> (orig.contains(a) || other@.contains(a)),
            decreases other.alleles.len() - i,
        {
            let ghost before = r@;
            r = r.add(other.alleles[i]);
            proof {
                assert(other@.contains(other@[i as int]));
                assert(forall|j: int|
                    0 <= j < i + 1 ==> r@.contains(#[trigger] other@[j])) by {
                    assert(forall|j: int|
                        0 <= j < i ==> before.contains(#[trigger] other@[j]));
                }
            }
            i = i + 1;
        }
        proof {
            assert forall|a: i64| r@.contains(a) <==> (orig.contains(a) || other@.contains(a)) by {
                if other@.contains(a) {
                    let w = choose|w: int| 0 <= w < other@.len() && other@[w] == a;
                    assert(r@.contains(other@[w]));
                }
            }
        }
        r
    }
}

impl Clone for BoolDomain {
    /// A deep copy with the same alleles in the same order.
    fn clone(&self) -> (r: Self)
        ensures
            r@ == self@,
    {
        let values = self.values.clone();
        proof {
            assert(values@ =~= self.values@);
        }
        BoolDomain { values }
    }
}

impl Clone for IntegralDomain {
    /// A deep copy with the same alleles in the same order.
    fn clone(&self) -> (r: Self)
        ensures
            r@ == self@,
    {
        let alleles = self.alleles.clone();
        proof {
            assert(alleles@ =~= self.alleles@);
        }
        IntegralDomain { alleles }
    }
}

/// A sequence of Booleans seen as alleles.
pub open spec fn bools_as_alleles(s: Seq<bool>) -> Seq<Allele> {
    s.map(|j: int, b: bool| Allele::Bool(b))
}

/// A sequence of integers seen as alleles.
pub open spec fn ints_as_alleles(s: Seq<i64>) -> Seq<Allele> {
    s.map(|j: int, x: i64| Allele::Int(x))
}

/// A discrete per-position value set: either a Boolean domain or an
/// integral domain.  Its view is the ordered sequence of alleles.
#[derive(Debug)]
pub enum DiscreteDomain {
    Bools(BoolDomain),
    Ints(IntegralDomain),
}

impl View for DiscreteDomain {
    type V = Seq<Allele>;

    open spec fn view(&self) -> Seq<Allele> {
        match self {
            DiscreteDomain::Bools(d) => bools_as_alleles(d@),
            DiscreteDomain::Ints(d) => ints_as_alleles(d@),
        }
    }
}

impl Clone for DiscreteDomain {
    /// A deep copy with the same alleles in the same order; it stays
    /// well-formed.
    fn clone(&self) -> (r: Self)
        ensures
            r@ == self@,
            self.wf() ==> r.wf(),
    {
        match self {
            DiscreteDomain::Bools(d) => DiscreteDomain::Bools(d.clone()),
            DiscreteDomain::Ints(d) => DiscreteDomain::Ints(d.clone()),
        }
    }
}

impl DiscreteDomain {
    /// A well-formed domain holds distinct alleles.
    pub open spec fn wf(&self) -> bool {
        match self {
            DiscreteDomain::Bools(d) => d.wf(),
            DiscreteDomain::Ints(d) => d.wf(),
        }
    }

    /// The canonical Boolean domain `[false, true]`, as a discrete domain.
    pub fn bools() -> (r: Self)
        ensures
            r.wf(),
            r@ =~= seq![Allele::Bool(false), Allele::Bool(true)],
    {
        let r = DiscreteDomain::Bools(BoolDomain::default());
        proof {
            assert(r@ =~= seq![Allele::Bool(false), Allele::Bool(true)]);
        }
        r
    }

    /// A well-formed domain has distinct alleles in the allele view too.
    pub proof fn lemma_view_distinct(&self)
        requires
            self.wf(),
        ensures
            seq_distinct(self@),
    {
        match self {
            DiscreteDomain::Bools(d) => {
                assert forall|i: int, j: int| 0 <= i < j < self@.len() implies self@[i]
                    != self@[j] by {
                    assert(d@[i] != d@[j]);
                }
            },
            DiscreteDomain::Ints(d) => {
                assert forall|i: int, j: int| 0 <= i < j < self@.len() implies self@[i]
                    != self@[j] by {
                    assert(d@[i] != d@[j]);
                }
            },
        }
    }

    /// The number of alleles in the domain.
    pub fn len(&self) -> (r: usize)
        ensures
            r == self@.len(),
    {
        match self {
            DiscreteDomain::Bools(d) => d.len(),
            DiscreteDomain::Ints(d) => d.len(),
        }
    }

    /// The allele at position `idx` in canonical order.
    pub fn get(&self, idx: usize) -> (r: Allele)
        requires
            idx < self@.len(),
        ensures
            r == self@[idx as int],
    {
        match self {
            DiscreteDomain::Bools(d) => Allele::Bool(d.get(idx)),
            DiscreteDomain::Ints(d) => Allele::Int(d.get(idx)),
        }
    }

    /// The position of `allele` in canonical order; inverse of `get`.
    pub fn index_of(&self, allele: Allele) -> (r: usize)
        requires
            self@.contains(allele),
        ensures
            r < self@.len(),
            self@[r as int] == allele,
    {
        proof {
            let w = choose|w: int| 0 <= w < self@.len() && self@[w] == allele;
            assert(self@[w] == allele);
        }
        match (self, allele) {
            (DiscreteDomain::Bools(d), Allele::Bool(b)) => d.index_of(b),
            (DiscreteDomain::Ints(d), Allele::Int(x)) => d.index_of(x),
            _ => {
                proof {
                    let w = choose|w: int| 0 <= w < self@.len() && self@[w] == allele;
                    assert(false);
                }
                vstd::pervasive::unreached()
            },
        }
    }

    /// Draws one allele uniformly from the domain.
    pub fn sample_uniform(&self, rng: &mut rand::rngs::ThreadRng) -> (r: Allele)
        requires
            self@.len() > 0,
        ensures
            self@.contains(r),
    {
        let n = self.len();
        let k = crate::rng::rand_below(rng, n);
        let r = self.get(k);
        proof {
            assert(self@[k as int] == r);
        }
        r
    }
}

/// For every well-formed domain, `index_of` is the inverse of `get`: the
/// allele at position `i` is found again at position `i` and nowhere else.
pub proof fn lemma_index_of_get(d: &DiscreteDomain, i: int, j: int)
    requires
        d.wf(),
        0 <= i < d@.len(),
        0 <= j < d@.len(),
        d@[j] == d@[i],
    ensures
        d@.contains(d@[i]),
        j == i,
{
    d.lemma_view_distinct();
    assert(d@[i] == d@[i]);
}

/// A real-valued domain over a half-open range `start..end`.  Only the
/// bounds are modelled here; uniform sampling of a real value is left to
/// the surrounding application.
#[derive(Debug)]
pub struct ExclusiveRangeRealDomain<A: Copy> {
    pub start: A,
    pub end: A,
}

impl<A: Copy> ExclusiveRangeRealDomain<A> {
    /// A domain over `start..end`.
    pub fn with_range(start: A, end: A) -> (r: Self)
        ensures
            r.start == start,
            r.end == end,
    {
        ExclusiveRangeRealDomain { start, end }
    }

    /// The bounds of the range, lower then upper.
    pub fn range(&self) -> (r: (A, A))
        ensures
            r.0 == self.start,
            r.1 == self.end,
    {
        (self.start, self.end)
    }
}

/// A real-valued domain over an inclusive range `start..=end`.
#[derive(Debug)]
pub struct InclusiveRangeRealDomain<A: Copy> {
    pub start: A,
    pub end: A,
}

impl<A: Copy> InclusiveRangeRealDomain<A> {
    /// A domain over `start..=end`.
    pub fn with_range(start: A, end: A) -> (r: Self)
        ensures
            r.start == start,
            r.end == end,
    {
        InclusiveRangeRealDomain { start, end }
    }

    /// The bounds of the range, lower then upper.
    pub fn range(&self) -> (r: (A, A))
        ensures
            r.0 == self.start,
            r.1 == self.end,
    {
        (self.start, self.end)
    }
}

impl<A: Copy> Clone for ExclusiveRangeRealDomain<A> {
    /// A copy of the same range.
    fn clone(&self) -> (r: Self)
        ensures
            r == *self,
    {
        ExclusiveRangeRealDomain { start: self.start, end: self.end }
    }
}

impl<A: Copy> Clone for InclusiveRangeRealDomain<A> {
    /// A copy of the same range.
    fn clone(&self) -> (r: Self)
        ensures
            r == *self,
    {
        InclusiveRangeRealDomain { start: self.start, end: self.end }
    }
}

/// Whether a vector of Booleans holds the given value.
fn contains_bool(v: &Vec<bool>, b: bool) -> (r: bool)
    ensures
        r == v@.contains(b),
{
    let mut i: usize = 0;
    while i < v.len()
        invariant
            i <= v.len(),
            forall|j: int| 0 <= j < i ==> v@[j] != b,
        decreases v.len() - i,
    {
        if v[i] == b {
            return true;
        }
        i = i + 1;
    }
    false
}

} // verus!
