use std_dev::cluster::ClusterList;
use std_dev::percentile::MeanValue;
use std_dev::{
    mean_cluster, median, percentile, percentile_rand, percentiles_cluster,
    standard_deviation_cluster, Cluster, Fraction, OwnedClusterList, Rational,
};

fn r(n: i64, d: i64) -> Rational {
    Rational::new(n, d).unwrap()
}

fn ri(n: i64) -> Rational {
    Rational::new(n, 1).unwrap()
}

fn clusters(items: &[(i64, usize)]) -> OwnedClusterList {
    let list: Vec<Cluster> = items.iter().map(|&(v, c)| (ri(v), c)).collect();
    OwnedClusterList::new(list)
}

fn resolve(mv: MeanValue) -> Rational {
    mv.resolve().unwrap()
}

#[test]
fn median_odd_weight_middle_value() {
    let owned = clusters(&[(1, 1), (2, 1), (3, 1)]);
    let m = resolve(median(&owned.borrow()));
    assert!(m.eq_value(&ri(2)));
}

#[test]
fn median_even_weight_boundary_mean() {
    let owned = clusters(&[(1, 1), (2, 1)]);
    let m = resolve(median(&owned.borrow()));
    assert!(m.eq_value(&r(3, 2)));
}

#[test]
fn median_dominant_tail_cluster() {
    let owned = clusters(&[(1, 1), (2, 3)]);
    let m = resolve(median(&owned.borrow()));
    assert!(m.eq_value(&ri(2)));
}

#[test]
fn median_even_weight_single_cluster() {
    let owned = clusters(&[(5, 4)]);
    let m = resolve(median(&owned.borrow()));
    assert!(m.eq_value(&ri(5)));
}

#[test]
fn percentile_quartile_positions() {
    let owned = clusters(&[(1, 1), (2, 1), (3, 1), (4, 1), (5, 1), (6, 1), (7, 1), (8, 1)]);
    let lower = resolve(percentile(&owned.borrow(), &Fraction::new(1, 4)));
    let upper = resolve(percentile(&owned.borrow(), &Fraction::new(3, 4)));
    // Weight 8: position 2 straddles a boundary, as does position 6.
    assert!(lower.eq_value(&r(5, 2)));
    assert!(upper.eq_value(&r(13, 2)));
}

#[test]
fn optimize_values_merges_identical_values() {
    let list: Vec<Cluster> = vec![(r(1, 2), 2), (r(1, 2), 3), (ri(3), 1)];
    let owned = OwnedClusterList::new(list);
    let merged = owned.borrow().optimize_values();
    let v = merged.as_vec();
    assert_eq!(v.len(), 2);
    assert!(v[0].0.eq_value(&r(1, 2)));
    assert_eq!(v[0].1, 5);
    assert!(v[1].0.eq_value(&ri(3)));
    assert_eq!(v[1].1, 1);
}

#[test]
fn optimize_values_is_idempotent() {
    let list: Vec<Cluster> = vec![(ri(4), 2), (r(1, 2), 3), (ri(4), 5), (r(1, 2), 1)];
    let owned = OwnedClusterList::new(list);
    let once = owned.borrow().optimize_values();
    let total_once: usize = once.as_vec().iter().map(|c| c.1).sum();
    let twice = once.borrow().optimize_values();
    let first: Vec<Cluster> = once.as_vec().clone();
    let second: Vec<Cluster> = twice.as_vec().clone();
    assert_eq!(first, second);
    // Total weight is preserved exactly.
    assert_eq!(total_once, 11);
    let total_twice: usize = twice.as_vec().iter().map(|c| c.1).sum();
    assert_eq!(total_twice, 11);
}

#[test]
fn standard_deviation_sample_example() {
    // Unweighted [2, 4, 4, 4, 5, 5, 7, 9]: mean 5, sample variance 32/7,
    // standard deviation near 2.138.
    let owned = clusters(&[(2, 1), (4, 3), (5, 2), (7, 1), (9, 1)]);
    let out = standard_deviation_cluster(&owned.borrow()).unwrap();
    assert!(out.mean.eq_value(&ri(5)));
    let sd = out.standard_deviation.numerator() as f64
        / out.standard_deviation.denominator() as f64;
    assert!((sd - 2.138).abs() < 0.001);
}

#[test]
fn mean_cluster_weighted() {
    let owned = clusters(&[(1, 2), (4, 2)]);
    let m = mean_cluster(&owned.borrow()).unwrap();
    assert!(m.eq_value(&r(5, 2)));
}

#[test]
fn percentiles_cluster_reports_quartiles_only_when_heavy() {
    let mut light = clusters(&[(1, 1), (2, 1), (3, 1), (4, 1)]);
    let out = percentiles_cluster(&mut light).unwrap();
    assert!(out.lower_quadrille.is_none());
    assert!(out.higher_quadrille.is_none());
    assert!(out.median.eq_value(&r(5, 2)));

    let mut heavy = clusters(&[(1, 1), (2, 1), (3, 1), (4, 1), (5, 1)]);
    let out = percentiles_cluster(&mut heavy).unwrap();
    assert!(out.lower_quadrille.is_some());
    assert!(out.higher_quadrille.is_some());
    assert!(out.median.eq_value(&ri(3)));
}

#[test]
fn split_start_takes_exact_weight() {
    let owned = clusters(&[(1, 2), (2, 3)]);
    let front = owned.borrow().split_start(3);
    let v = front.as_vec();
    assert_eq!(v.len(), 2);
    assert!(v[0].0.eq_value(&ri(1)));
    assert_eq!(v[0].1, 2);
    assert!(v[1].0.eq_value(&ri(2)));
    assert_eq!(v[1].1, 1);
}

#[test]
fn split_end_takes_exact_weight() {
    let owned = clusters(&[(1, 2), (2, 3)]);
    let back = owned.borrow().split_end(4);
    let v = back.as_vec();
    assert_eq!(v.len(), 2);
    assert!(v[0].0.eq_value(&ri(1)));
    assert_eq!(v[0].1, 1);
    assert!(v[1].0.eq_value(&ri(2)));
    assert_eq!(v[1].1, 3);
}

#[test]
fn sort_by_value_orders_clusters() {
    let list: Vec<Cluster> = vec![(ri(3), 1), (ri(1), 2), (ri(2), 1)];
    let mut owned = OwnedClusterList::new(list);
    owned.sort_by_value();
    let v = owned.as_vec();
    assert!(v[0].0.eq_value(&ri(1)));
    assert!(v[1].0.eq_value(&ri(2)));
    assert!(v[2].0.eq_value(&ri(3)));
}

#[test]
fn cluster_list_len_is_total_weight() {
    let owned = clusters(&[(1, 2), (9, 3)]);
    assert_eq!(owned.borrow().len(), 5);
    assert!(!owned.borrow().is_empty());
    let empty = ClusterList::new(&[]);
    assert!(empty.is_empty());
}

#[test]
fn rational_arithmetic_is_exact() {
    let a = r(1, 3);
    let b = r(1, 6);
    assert!(a.try_add(&b).unwrap().eq_value(&r(1, 2)));
    assert!(a.try_sub(&b).unwrap().eq_value(&r(1, 6)));
    assert!(a.try_mul(&b).unwrap().eq_value(&r(1, 18)));
    assert!(a.try_div(&b).unwrap().eq_value(&ri(2)));
    assert!(r(2, 4) == r(1, 2));
    assert!(Rational::new(1, 0).is_none());
    assert!(ri(5).try_div(&Rational::zero()).is_none());
}

#[test]
fn sqrt_floor_is_exact_on_squares() {
    let four = ri(4);
    let root = four.sqrt_floor();
    assert!(root.eq_value(&ri(2)));
}

#[test]
fn mean_value_resolve_averages() {
    let mv = MeanValue::Mean(ri(1), ri(2));
    assert!(mv.resolve().unwrap().eq_value(&r(3, 2)));
    let sv = MeanValue::Single(r(7, 3));
    assert!(sv.resolve().unwrap().eq_value(&r(7, 3)));
}

#[test]
fn percentile_rand_matches_percentile_on_sorted_input() {
    let owned = clusters(&[(1, 1), (2, 1), (3, 1), (4, 1)]);
    let direct = resolve(percentile(&owned.borrow(), &Fraction::new(1, 2)));
    let mut owned = clusters(&[(1, 1), (2, 1), (3, 1), (4, 1)]);
    let randomized = resolve(percentile_rand(&mut owned, &Fraction::new(1, 2)));
    assert!(direct.eq_value(&randomized));
    assert!(direct.eq_value(&r(5, 2)));
}

#[test]
fn mean_cluster_of_huge_values_reports_unrepresentable() {
    let big = i64::MAX - 1;
    let owned = clusters(&[(big, 1), (big - 1, 1)]);
    assert!(mean_cluster(&owned.borrow()).is_none());
}

#[test]
fn standard_deviation_of_huge_values_reports_unrepresentable() {
    let big = i64::MAX - 1;
    let owned = clusters(&[(big, 1), (big - 2, 1)]);
    assert!(standard_deviation_cluster(&owned.borrow()).is_none());
}
