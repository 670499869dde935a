use rustea::gene::{BoolDomain, DiscreteDomain, ExclusiveRangeRealDomain, InclusiveRangeRealDomain, IntegralDomain};

#[test]
fn test_integral_domain_union() {
    let domain1 = IntegralDomain::from_inclusive_range(1, 3);
    let domain2 = IntegralDomain::from_range(4, 6);

    let vec: Vec<i64> = domain1.union(domain2).iter();

    assert_eq!(vec, vec![1, 2, 3, 4, 5]);
}

#[test]
fn test_idom_macro_combined() {
    let domain = IntegralDomain::empty()
        .union(IntegralDomain::from_range(1, 3))
        .union(IntegralDomain::from_inclusive_range(3, 6))
        .add(7);

    assert_eq!(domain.iter(), vec![1, 2, 3, 4, 5, 6, 7]);
}

#[test]
fn test_idom_macro_inclusive() {
    let domain = IntegralDomain::empty().union(IntegralDomain::from_inclusive_range(1, 5));

    assert_eq!(domain.iter(), vec![1, 2, 3, 4, 5]);
}

#[test]
fn test_idom_macro_exclusive() {
    let domain = IntegralDomain::empty().union(IntegralDomain::from_range(1, 5));

    assert_eq!(domain.iter(), vec![1, 2, 3, 4]);
}

#[test]
fn test_idom_macro_single_element() {
    let domain = IntegralDomain::empty().add(1);

    assert_eq!(domain.iter(), vec![1]);
}

#[test]
fn test_idom_macro_disjoint_elements() {
    let domain = IntegralDomain::empty().add(1).add(3).add(5).add(7);

    assert_eq!(domain.iter(), vec![1, 3, 5, 7]);
}

#[test]
fn test_bdom_contains_false_and_true() {
    let domain = BoolDomain::default();

    assert_eq!(domain.iter(), vec![false, true])
}

#[test]
fn test_boolean_domain_false() {
    let domain = BoolDomain::from_values(&vec![false]);

    assert_eq!(domain.get(0), false)
}

#[test]
fn test_boolean_domain_true() {
    let domain = BoolDomain::from_values(&vec![true]);

    assert_eq!(domain.get(0), true)
}

#[test]
fn test_rdom_exclusive() {
    let range = (-1.0, 1.0);
    let domain = ExclusiveRangeRealDomain::with_range(-1.0, 1.0);

    assert_eq!(domain.range(), range)
}

#[test]
fn test_rdom_inclusive() {
    let range = (-1.0, 1.0);
    let domain = InclusiveRangeRealDomain::with_range(-1.0, 1.0);

    assert_eq!(domain.range(), range)
}

#[test]
fn index_of_inverts_get() {
    let domain = IntegralDomain::empty().add(2).add(9).add(40);
    for i in 0..domain.len() {
        assert_eq!(domain.index_of(domain.get(i)), i);
    }
    let b = BoolDomain::default();
    for i in 0..b.len() {
        assert_eq!(b.index_of(b.get(i)), i);
    }
}

#[test]
fn uniform_sampling_stays_in_domain() {
    let mut rng = rand::rng();
    let domain = DiscreteDomain::Ints(IntegralDomain::from_inclusive_range(5, 7));
    for _ in 0..100 {
        let a = domain.sample_uniform(&mut rng);
        let idx = domain.index_of(a);
        assert!(idx < 3);
    }
}
