//! Weighted mean, sample standard deviation and percentile summaries over
//! cluster lists, all in exact rational arithmetic; only the final square
//! root is rounded, down to a multiple of `1 / SQRT_SCALE`, with both
//! bounds stated.

use vstd::prelude::*;

use crate::cluster::{
    lemma_weight_positive, sorted_by_value, values_valid, weight_of, Cluster, ClusterList,
    OwnedClusterList,
};
use crate::percentile::{median, percentile, percentile_spec, Fraction};
use crate::rational::{
    lemma_pos_mul, lemma_rat_add_congruence, lemma_rat_div_congruence, lemma_rat_eq_trans,
    lemma_rat_lt_respects_eq, lemma_rat_le_respects_eq, lemma_rat_mul_congruence,
    lemma_rat_sub_congruence, lemma_representable_congruence, mag_bound, rat_add, rat_div, rat_eq,
    rat_le, rat_lt, rat_mul, rat_sub, rat_wf, representable, Rational, SQRT_SCALE,
};

verus! {

/// The weighted sum of the values: each value counted as often as it
/// occurs.
pub open spec fn weighted_sum(s: Seq<Cluster>) -> (int, int)
    decreases s.len(),
{
    if s.len() == 0 {
        (0int, 1int)
    } else {
        rat_add(weighted_sum(s.drop_last()), rat_mul(s.last().0.v(), (s.last().1 as int, 1int)))
    }
}

/// The weighted mean.
pub open spec fn mean_spec(s: Seq<Cluster>) -> (int, int) {
    rat_div(weighted_sum(s), (weight_of(s), 1int))
}

/// The weighted sum of squared deviations from `base`.
pub open spec fn sum_squared_diff_spec(s: Seq<Cluster>, base: (int, int)) -> (int, int)
    decreases s.len(),
{
    if s.len() == 0 {
        (0int, 1int)
    } else {
        rat_add(
            sum_squared_diff_spec(s.drop_last(), base),
            rat_mul(
                rat_mul(rat_sub(s.last().0.v(), base), rat_sub(s.last().0.v(), base)),
                (s.last().1 as int, 1int),
            ),
        )
    }
}

/// The sample variance: squared deviations from the mean over `n - 1`.
pub open spec fn variance_spec(s: Seq<Cluster>) -> (int, int) {
    rat_div(sum_squared_diff_spec(s, mean_spec(s)), (weight_of(s) - 1, 1int))
}

/// The reason a weighted sum can fail: some count exceeds the numerator
/// range, or some term or partial sum has no 64-bit representative.
pub open spec fn weighted_sum_failure(s: Seq<Cluster>) -> bool {
    exists|i: int|
        #![trigger s[i]]
        0 <= i < s.len() && {
            ||| s[i].1 > mag_bound()
            ||| !representable(rat_mul(s[i].0.v(), (s[i].1 as int, 1int)))
            ||| !representable(weighted_sum(s.take(i + 1)))
        }
}

/// The reason a sum of squared deviations can fail: some count exceeds
/// the numerator range, or some deviation, square, term or partial sum
/// has no 64-bit representative.
pub open spec fn sum_squared_diff_failure(s: Seq<Cluster>, base: (int, int)) -> bool {
    exists|i: int|
        #![trigger s[i]]
        0 <= i < s.len() && {
            let dv = rat_sub(s[i].0.v(), base);
            ||| s[i].1 > mag_bound()
            ||| !representable(dv)
            ||| !representable(rat_mul(dv, dv))
            ||| !representable(rat_mul(rat_mul(dv, dv), (s[i].1 as int, 1int)))
            ||| !representable(sum_squared_diff_spec(s.take(i + 1), base))
        }
}

/// Weighted sums have positive denominators.
proof fn lemma_weighted_sum_wf(s: Seq<Cluster>)
    requires
        values_valid(s),
    ensures
        rat_wf(weighted_sum(s)),
    decreases s.len(),
{
    if s.len() > 0 {
        assert(values_valid(s.drop_last())) by {
            assert(forall|i: int|
                0 <= i < s.drop_last().len() ==> s.drop_last()[i] == #[trigger] s[i]);
        }
        lemma_weighted_sum_wf(s.drop_last());
        lemma_pos_mul(weighted_sum(s.drop_last()).1, s.last().0.v().1 * 1);
        lemma_pos_mul(s.last().0.v().1, 1);
    }
}

/// Sums of squared deviations have positive denominators and are at least
/// zero.
proof fn lemma_ssd_wf(s: Seq<Cluster>, base: (int, int))
    requires
        values_valid(s),
        base.1 >= 1,
    ensures
        rat_wf(sum_squared_diff_spec(s, base)),
        sum_squared_diff_spec(s, base).0 >= 0,
    decreases s.len(),
{
    if s.len() > 0 {
        assert(values_valid(s.drop_last())) by {
            assert(forall|i: int|
                0 <= i < s.drop_last().len() ==> s.drop_last()[i] == #[trigger] s[i]);
        }
        lemma_ssd_wf(s.drop_last(), base);
        let rec = sum_squared_diff_spec(s.drop_last(), base);
        let d = rat_sub(s.last().0.v(), base);
        let term = rat_mul(rat_mul(d, d), (s.last().1 as int, 1int));
        assert(rat_wf(term) && term.0 >= 0) by (nonlinear_arith)
            requires
                d == rat_sub(s.last().0.v(), base),
                term == rat_mul(rat_mul(d, d), (s.last().1 as int, 1int)),
                s.last().0.v().1 >= 1,
                base.1 >= 1,
                s.last().1 >= 0,
        ;
        assert(rat_wf(sum_squared_diff_spec(s, base)) && sum_squared_diff_spec(s, base).0 >= 0)
            by (nonlinear_arith)
            requires
                sum_squared_diff_spec(s, base) == rat_add(rec, term),
                rat_wf(rec),
                rec.0 >= 0,
                rat_wf(term),
                term.0 >= 0,
        ;
    }
}

/// Squared deviations from equal bases are equal.
proof fn lemma_ssd_congruence(s: Seq<Cluster>, base: (int, int), base2: (int, int))
    requires
        values_valid(s),
        rat_eq(base, base2),
        base.1 >= 1,
        base2.1 >= 1,
    ensures
        rat_eq(sum_squared_diff_spec(s, base), sum_squared_diff_spec(s, base2)),
    decreases s.len(),
{
    if s.len() > 0 {
        assert(values_valid(s.drop_last())) by {
            assert(forall|i: int|
                0 <= i < s.drop_last().len() ==> s.drop_last()[i] == #[trigger] s[i]);
        }
        lemma_ssd_congruence(s.drop_last(), base, base2);
        lemma_ssd_wf(s.drop_last(), base);
        lemma_ssd_wf(s.drop_last(), base2);
        let v = s.last().0.v();
        let c = (s.last().1 as int, 1int);
        let d = rat_sub(v, base);
        let d2 = rat_sub(v, base2);
        lemma_rat_sub_congruence(v, v, base, base2);
        lemma_pos_mul(v.1, base.1);
        lemma_pos_mul(v.1, base2.1);
        lemma_rat_mul_congruence(d, d2, d, d2);
        lemma_pos_mul(d.1, d.1);
        lemma_pos_mul(d2.1, d2.1);
        lemma_rat_mul_congruence(rat_mul(d, d), rat_mul(d2, d2), c, c);
        lemma_pos_mul(rat_mul(d, d).1, 1);
        lemma_pos_mul(rat_mul(d2, d2).1, 1);
        lemma_rat_add_congruence(
            sum_squared_diff_spec(s.drop_last(), base),
            sum_squared_diff_spec(s.drop_last(), base2),
            rat_mul(rat_mul(d, d), c),
            rat_mul(rat_mul(d2, d2), c),
        );
    }
}

/// A failing squared-deviation computation fails for every equal base.
proof fn lemma_ssd_failure_congruence(s: Seq<Cluster>, b: (int, int), b2: (int, int))
    requires
        values_valid(s),
        rat_eq(b, b2),
        b.1 >= 1,
        b2.1 >= 1,
        sum_squared_diff_failure(s, b),
    ensures
        sum_squared_diff_failure(s, b2),
{
    let i = choose|i: int|
        #![trigger s[i]]
        0 <= i < s.len() && {
            let dv = rat_sub(s[i].0.v(), b);
            ||| s[i].1 > mag_bound()
            ||| !representable(dv)
            ||| !representable(rat_mul(dv, dv))
            ||| !representable(rat_mul(rat_mul(dv, dv), (s[i].1 as int, 1int)))
            ||| !representable(sum_squared_diff_spec(s.take(i + 1), b))
        };
    let v = s[i].0.v();
    let dv = rat_sub(v, b);
    let dv2 = rat_sub(v, b2);
    lemma_rat_sub_congruence(v, v, b, b2);
    lemma_pos_mul(v.1, b.1);
    lemma_pos_mul(v.1, b2.1);
    if s[i].1 > mag_bound() {
    } else if !representable(dv) {
        lemma_representable_congruence(dv, dv2);
    } else if !representable(rat_mul(dv, dv)) {
        lemma_rat_mul_congruence(dv, dv2, dv, dv2);
        lemma_pos_mul(dv.1, dv.1);
        lemma_pos_mul(dv2.1, dv2.1);
        lemma_representable_congruence(rat_mul(dv, dv), rat_mul(dv2, dv2));
    } else if !representable(rat_mul(rat_mul(dv, dv), (s[i].1 as int, 1int))) {
        lemma_rat_mul_congruence(dv, dv2, dv, dv2);
        lemma_pos_mul(dv.1, dv.1);
        lemma_pos_mul(dv2.1, dv2.1);
        lemma_rat_mul_congruence(
            rat_mul(dv, dv),
            rat_mul(dv2, dv2),
            (s[i].1 as int, 1int),
            (s[i].1 as int, 1int),
        );
        lemma_pos_mul(rat_mul(dv, dv).1, 1);
        lemma_pos_mul(rat_mul(dv2, dv2).1, 1);
        lemma_representable_congruence(
            rat_mul(rat_mul(dv, dv), (s[i].1 as int, 1int)),
            rat_mul(rat_mul(dv2, dv2), (s[i].1 as int, 1int)),
        );
    } else {
        let prefix1 = s.take(i + 1);
        assert(values_valid(prefix1)) by {
            assert(forall|j: int| 0 <= j < prefix1.len() ==> prefix1[j] == #[trigger] s[j]);
        }
        lemma_ssd_congruence(prefix1, b, b2);
        lemma_ssd_wf(prefix1, b);
        lemma_ssd_wf(prefix1, b2);
        lemma_representable_congruence(
            sum_squared_diff_spec(prefix1, b),
            sum_squared_diff_spec(prefix1, b2),
        );
    }
    assert(0 <= i < s.len() && {
        let dvx = rat_sub(s[i].0.v(), b2);
        ||| s[i].1 > mag_bound()
        ||| !representable(dvx)
        ||| !representable(rat_mul(dvx, dvx))
        ||| !representable(rat_mul(rat_mul(dvx, dvx), (s[i].1 as int, 1int)))
        ||| !representable(sum_squared_diff_spec(s.take(i + 1), b2))
    });
}

impl<'a> ClusterList<'a> {
    /// The weighted sum of the values; `None` only when a named exact
    /// intermediate (a count, a term, or a partial sum) has no 64-bit
    /// representative.
    pub fn sum(&self) -> (r: Option<Rational>)
        requires
            self.wf(),
        ensures
            r matches Some(q) ==> q.valid() && rat_eq(q.v(), weighted_sum(self.clusters())),
            r is None ==> weighted_sum_failure(self.clusters()),
    {
        let ghost s = self.clusters();
        let m = self.cluster_count();
        let mut acc = Rational::zero();
        let mut i: usize = 0;
        proof {
            assert(s.take(0) =~= Seq::<Cluster>::empty());
        }
        while i < m
            invariant
                self.wf(),
                s == self.clusters(),
                m == s.len(),
                0 <= i <= m,
                acc.valid(),
                rat_eq(acc.v(), weighted_sum(s.take(i as int))),
            decreases m - i,
        {
            let c = self.cluster_at(i);
            let cnt = match Rational::from_count(c.1) {
                Some(cnt) => cnt,
                None => {
                    proof {
                        assert(s[i as int].1 > mag_bound());
                    }
                    return None;
                },
            };
            let term = match c.0.try_mul(&cnt) {
                Some(term) => term,
                None => {
                    proof {
                        assert(!representable(
                            rat_mul(s[i as int].0.v(), (s[i as int].1 as int, 1int)),
                        ));
                    }
                    return None;
                },
            };
            let next = match acc.try_add(&term) {
                Some(next) => next,
                None => {
                    proof {
                        let prefix = s.take(i as int);
                        let prefix1 = s.take(i as int + 1);
                        assert(prefix1.drop_last() =~= prefix);
                        assert(prefix1.last() == s[i as int]);
                        assert(values_valid(prefix)) by {
                            assert(forall|j: int|
                                0 <= j < prefix.len() ==> prefix[j] == #[trigger] s[j]);
                        }
                        lemma_weighted_sum_wf(prefix);
                        let mulv = rat_mul(s[i as int].0.v(), (s[i as int].1 as int, 1int));
                        lemma_pos_mul(s[i as int].0.v().1, 1);
                        lemma_rat_add_congruence(acc.v(), weighted_sum(prefix), term.v(), mulv);
                        lemma_pos_mul(acc.v().1, term.v().1);
                        lemma_pos_mul(weighted_sum(prefix).1, mulv.1);
                        lemma_representable_congruence(
                            rat_add(acc.v(), term.v()),
                            weighted_sum(prefix1),
                        );
                        assert(!representable(weighted_sum(s.take(i as int + 1))));
                    }
                    return None;
                },
            };
            proof {
                let ghost prefix = s.take(i as int);
                let ghost prefix1 = s.take(i as int + 1);
                assert(prefix1.drop_last() =~= prefix);
                assert(prefix1.last() == s[i as int]);
                assert(values_valid(prefix)) by {
                    assert(forall|j: int| 0 <= j < prefix.len() ==> prefix[j] == #[trigger] s[j]);
                }
                lemma_weighted_sum_wf(prefix);
                let mulv = rat_mul(s[i as int].0.v(), (s[i as int].1 as int, 1int));
                lemma_pos_mul(s[i as int].0.v().1, 1);
                lemma_rat_add_congruence(acc.v(), weighted_sum(prefix), term.v(), mulv);
                lemma_pos_mul(acc.v().1, term.v().1);
                lemma_rat_eq_trans(next.v(), rat_add(acc.v(), term.v()), weighted_sum(prefix1));
            }
            acc = next;
            i = i + 1;
        }
        proof {
            assert(s.take(m as int) =~= s);
        }
        Some(acc)
    }

    /// The weighted sum of squared deviations from `base`; `None` only
    /// when a named exact intermediate (a count, a deviation, a square, a
    /// term or a partial sum) has no 64-bit representative.
    pub fn sum_squared_diff(&self, base: &Rational) -> (r: Option<Rational>)
        requires
            self.wf(),
            base.valid(),
        ensures
            r matches Some(q) ==> q.valid() && rat_eq(
                q.v(),
                sum_squared_diff_spec(self.clusters(), base.v()),
            ),
            r is None ==> sum_squared_diff_failure(self.clusters(), base.v()),
    {
        let ghost s = self.clusters();
        let m = self.cluster_count();
        let mut acc = Rational::zero();
        let mut i: usize = 0;
        proof {
            assert(s.take(0) =~= Seq::<Cluster>::empty());
        }
        while i < m
            invariant
                self.wf(),
                base.valid(),
                s == self.clusters(),
                m == s.len(),
                0 <= i <= m,
                acc.valid(),
                rat_eq(acc.v(), sum_squared_diff_spec(s.take(i as int), base.v())),
            decreases m - i,
        {
            let c = self.cluster_at(i);
            let ghost dv = rat_sub(s[i as int].0.v(), base.v());
            let cnt = match Rational::from_count(c.1) {
                Some(cnt) => cnt,
                None => {
                    proof {
                        assert(s[i as int].1 > mag_bound());
                    }
                    return None;
                },
            };
            let d = match c.0.try_sub(base) {
                Some(d) => d,
                None => {
                    proof {
                        assert(!representable(dv));
                    }
                    return None;
                },
            };
            let sq = match d.try_mul(&d) {
                Some(sq) => sq,
                None => {
                    proof {
                        lemma_pos_mul(s[i as int].0.v().1, base.v().1);
                        lemma_rat_mul_congruence(d.v(), dv, d.v(), dv);
                        lemma_pos_mul(d.v().1, d.v().1);
                        lemma_pos_mul(dv.1, dv.1);
                        lemma_representable_congruence(rat_mul(d.v(), d.v()), rat_mul(dv, dv));
                        assert(!representable(rat_mul(dv, dv)));
                    }
                    return None;
                },
            };
            let term = match sq.try_mul(&cnt) {
                Some(term) => term,
                None => {
                    proof {
                        lemma_pos_mul(s[i as int].0.v().1, base.v().1);
                        lemma_rat_mul_congruence(d.v(), dv, d.v(), dv);
                        lemma_pos_mul(d.v().1, d.v().1);
                        lemma_pos_mul(dv.1, dv.1);
                        lemma_rat_eq_trans(sq.v(), rat_mul(d.v(), d.v()), rat_mul(dv, dv));
                        lemma_rat_mul_congruence(
                            sq.v(),
                            rat_mul(dv, dv),
                            cnt.v(),
                            (s[i as int].1 as int, 1int),
                        );
                        lemma_pos_mul(sq.v().1, 1);
                        lemma_pos_mul(rat_mul(dv, dv).1, 1);
                        lemma_representable_congruence(
                            rat_mul(sq.v(), cnt.v()),
                            rat_mul(rat_mul(dv, dv), (s[i as int].1 as int, 1int)),
                        );
                        assert(!representable(
                            rat_mul(rat_mul(dv, dv), (s[i as int].1 as int, 1int)),
                        ));
                    }
                    return None;
                },
            };
            let next = match acc.try_add(&term) {
                Some(next) => next,
                None => {
                    proof {
                        let prefix = s.take(i as int);
                        let prefix1 = s.take(i as int + 1);
                        assert(prefix1.drop_last() =~= prefix);
                        assert(prefix1.last() == s[i as int]);
                        assert(values_valid(prefix)) by {
                            assert(forall|j: int|
                                0 <= j < prefix.len() ==> prefix[j] == #[trigger] s[j]);
                        }
                        lemma_ssd_wf(prefix, base.v());
                        lemma_pos_mul(s[i as int].0.v().1, base.v().1);
                        lemma_rat_mul_congruence(d.v(), dv, d.v(), dv);
                        lemma_pos_mul(d.v().1, d.v().1);
                        lemma_pos_mul(dv.1, dv.1);
                        lemma_rat_eq_trans(sq.v(), rat_mul(d.v(), d.v()), rat_mul(dv, dv));
                        lemma_rat_mul_congruence(
                            sq.v(),
                            rat_mul(dv, dv),
                            cnt.v(),
                            (s[i as int].1 as int, 1int),
                        );
                        lemma_pos_mul(sq.v().1, 1);
                        lemma_pos_mul(rat_mul(dv, dv).1, 1);
                        lemma_rat_eq_trans(
                            term.v(),
                            rat_mul(sq.v(), cnt.v()),
                            rat_mul(rat_mul(dv, dv), (s[i as int].1 as int, 1int)),
                        );
                        lemma_rat_add_congruence(
                            acc.v(),
                            sum_squared_diff_spec(prefix, base.v()),
                            term.v(),
                            rat_mul(rat_mul(dv, dv), (s[i as int].1 as int, 1int)),
                        );
                        lemma_pos_mul(acc.v().1, term.v().1);
                        lemma_pos_mul(
                            sum_squared_diff_spec(prefix, base.v()).1,
                            rat_mul(rat_mul(dv, dv), (s[i as int].1 as int, 1int)).1,
                        );
                        lemma_representable_congruence(
                            rat_add(acc.v(), term.v()),
                            sum_squared_diff_spec(prefix1, base.v()),
                        );
                        assert(!representable(sum_squared_diff_spec(s.take(i as int + 1), base.v())));
                    }
                    return None;
                },
            };
            proof {
                let ghost prefix = s.take(i as int);
                let ghost prefix1 = s.take(i as int + 1);
                assert(prefix1.drop_last() =~= prefix);
                assert(prefix1.last() == s[i as int]);
                lemma_ssd_wf(prefix, base.v());
                let v = s[i as int].0.v();
                let cv = (s[i as int].1 as int, 1int);
                let ds = rat_sub(v, base.v());
                lemma_pos_mul(v.1, base.v().1);
                lemma_rat_mul_congruence(d.v(), ds, d.v(), ds);
                lemma_pos_mul(d.v().1, d.v().1);
                lemma_pos_mul(ds.1, ds.1);
                lemma_rat_eq_trans(sq.v(), rat_mul(d.v(), d.v()), rat_mul(ds, ds));
                lemma_rat_mul_congruence(sq.v(), rat_mul(ds, ds), cnt.v(), cv);
                lemma_pos_mul(sq.v().1, 1);
                lemma_pos_mul(rat_mul(ds, ds).1, 1);
                lemma_rat_eq_trans(term.v(), rat_mul(sq.v(), cnt.v()), rat_mul(rat_mul(ds, ds), cv));
                lemma_rat_add_congruence(
                    acc.v(),
                    sum_squared_diff_spec(prefix, base.v()),
                    term.v(),
                    rat_mul(rat_mul(ds, ds), cv),
                );
                lemma_pos_mul(acc.v().1, term.v().1);
                lemma_rat_eq_trans(
                    next.v(),
                    rat_add(acc.v(), term.v()),
                    sum_squared_diff_spec(prefix1, base.v()),
                );
            }
            acc = next;
            i = i + 1;
        }
        proof {
            assert(s.take(m as int) =~= s);
        }
        Some(acc)
    }
}

/// The weighted mean of a non-empty list; `None` only when a named exact
/// intermediate of the sum, the total weight, or the mean itself has no
/// 64-bit representative.
pub fn mean_cluster(values: &ClusterList) -> (r: Option<Rational>)
    requires
        values.wf(),
        values.clusters().len() > 0,
    ensures
        r matches Some(q) ==> q.valid() && rat_eq(q.v(), mean_spec(values.clusters())),
        r is None ==> {
            let s = values.clusters();
            ||| weighted_sum_failure(s)
            ||| weight_of(s) > mag_bound()
            ||| !representable(mean_spec(s))
        },
{
    let ghost s = values.clusters();
    proof {
        lemma_weight_positive(s);
    }
    let total = match values.sum() {
        Some(total) => total,
        None => {
            return None;
        },
    };
    let len = values.len();
    let cnt = match Rational::from_count(len) {
        Some(cnt) => cnt,
        None => {
            return None;
        },
    };
    let m = match total.try_div(&cnt) {
        Some(m) => m,
        None => {
            proof {
                lemma_weighted_sum_wf(s);
                lemma_rat_div_congruence(
                    total.v(),
                    weighted_sum(s),
                    cnt.v(),
                    (weight_of(s), 1int),
                );
                lemma_pos_mul(total.v().1, weight_of(s));
                lemma_pos_mul(weighted_sum(s).1, weight_of(s));
                lemma_representable_congruence(rat_div(total.v(), cnt.v()), mean_spec(s));
            }
            return None;
        },
    };
    proof {
        lemma_weighted_sum_wf(s);
        lemma_rat_div_congruence(
            total.v(),
            weighted_sum(s),
            cnt.v(),
            (weight_of(s), 1int),
        );
        lemma_pos_mul(total.v().1, weight_of(s));
        lemma_rat_eq_trans(m.v(), rat_div(total.v(), cnt.v()), mean_spec(s));
    }
    Some(m)
}

/// Returned from `standard_deviation_cluster`: the rounded square root of
/// the sample variance, and the exact mean it was computed around.
pub struct StandardDeviationOutput {
    pub standard_deviation: Rational,
    pub mean: Rational,
}

/// The sample standard deviation and mean of a list of total weight at
/// least two.  The mean is exact; the standard deviation is the square
/// root of the exact sample variance, rounded down to a multiple of
/// `1 / SQRT_SCALE`, with the bounds stated.  `None` only when an
/// named exact intermediate does not fit the representation.
/// O(m), where m is the number of clusters.
pub fn standard_deviation_cluster(values: &ClusterList) -> (r: Option<StandardDeviationOutput>)
    requires
        values.wf(),
        weight_of(values.clusters()) >= 2,
    ensures
        r is None ==> {
            let s = values.clusters();
            ||| weighted_sum_failure(s)
            ||| weight_of(s) > mag_bound()
            ||| !representable(mean_spec(s))
            ||| sum_squared_diff_failure(s, mean_spec(s))
            ||| weight_of(s) - 1 > mag_bound()
            ||| !representable(variance_spec(s))
        },
        r matches Some(o) ==> {
            let sd = o.standard_deviation.v();
            &&& o.mean.valid()
            &&& rat_eq(o.mean.v(), mean_spec(values.clusters()))
            &&& o.standard_deviation.valid()
            &&& sd.0 >= 0
            &&& sd.1 == SQRT_SCALE
            &&& rat_le(rat_mul(sd, sd), variance_spec(values.clusters()))
            &&& rat_lt(
                variance_spec(values.clusters()),
                ((sd.0 + 1) * (sd.0 + 1), (SQRT_SCALE as int) * (SQRT_SCALE as int)),
            )
        },
{
    let ghost s = values.clusters();
    proof {
        if s.len() == 0 {
            assert(weight_of(s) == 0);
            assert(false);
        }
    }
    let m = match mean_cluster(values) {
        Some(m) => m,
        None => {
            return None;
        },
    };
    let ssd = match values.sum_squared_diff(&m) {
        Some(ssd) => ssd,
        None => {
            proof {
                lemma_weighted_sum_wf(s);
                lemma_pos_mul(weighted_sum(s).1, weight_of(s));
                lemma_ssd_failure_congruence(s, m.v(), mean_spec(s));
            }
            return None;
        },
    };
    let len = values.len();
    let nm1 = match Rational::from_count(len - 1) {
        Some(nm1) => nm1,
        None => {
            return None;
        },
    };
    let va = match ssd.try_div(&nm1) {
        Some(va) => va,
        None => {
            proof {
                lemma_weighted_sum_wf(s);
                lemma_pos_mul(weighted_sum(s).1, weight_of(s));
                let msv = mean_spec(s);
                lemma_ssd_wf(s, m.v());
                lemma_ssd_wf(s, msv);
                lemma_ssd_congruence(s, m.v(), msv);
                lemma_rat_eq_trans(
                    ssd.v(),
                    sum_squared_diff_spec(s, m.v()),
                    sum_squared_diff_spec(s, msv),
                );
                lemma_rat_div_congruence(
                    ssd.v(),
                    sum_squared_diff_spec(s, msv),
                    nm1.v(),
                    (weight_of(s) - 1, 1int),
                );
                lemma_pos_mul(ssd.v().1, weight_of(s) - 1);
                lemma_pos_mul(sum_squared_diff_spec(s, msv).1, weight_of(s) - 1);
                lemma_representable_congruence(
                    rat_div(ssd.v(), nm1.v()),
                    variance_spec(s),
                );
            }
            return None;
        },
    };
    proof {
        // The exact variance: connect the computed quotient to the spec.
        lemma_weighted_sum_wf(s);
        let msv = mean_spec(s);
        assert(rat_wf(msv)) by {
            lemma_pos_mul(weighted_sum(s).1, weight_of(s));
        }
        lemma_ssd_wf(s, m.v());
        lemma_ssd_wf(s, msv);
        lemma_ssd_congruence(s, m.v(), msv);
        lemma_rat_eq_trans(
            ssd.v(),
            sum_squared_diff_spec(s, m.v()),
            sum_squared_diff_spec(s, msv),
        );
        lemma_rat_div_congruence(
            ssd.v(),
            sum_squared_diff_spec(s, msv),
            nm1.v(),
            (weight_of(s) - 1, 1int),
        );
        lemma_pos_mul(ssd.v().1, weight_of(s) - 1);
        lemma_rat_eq_trans(va.v(), rat_div(ssd.v(), nm1.v()), variance_spec(s));
        // The variance is at least zero, so the square root applies.
        assert(va.v().0 >= 0) by (nonlinear_arith)
            requires
                rat_eq(va.v(), rat_div(ssd.v(), nm1.v())),
                rat_eq(ssd.v(), sum_squared_diff_spec(s, m.v())),
                sum_squared_diff_spec(s, m.v()).0 >= 0,
                rat_wf(sum_squared_diff_spec(s, m.v())),
                ssd.v().1 >= 1,
                va.v().1 >= 1,
                nm1.v() == (weight_of(s) - 1, 1int),
                weight_of(s) >= 2,
        ;
    }
    let sd = va.sqrt_floor();
    proof {
        assert(rat_wf(variance_spec(s))) by {
            lemma_ssd_wf(s, mean_spec(s));
            lemma_pos_mul(sum_squared_diff_spec(s, mean_spec(s)).1, weight_of(s) - 1);
        }
        lemma_pos_mul(sd.v().1, sd.v().1);
        lemma_rat_le_respects_eq(
            rat_mul(sd.v(), sd.v()),
            rat_mul(sd.v(), sd.v()),
            va.v(),
            variance_spec(s),
        );
        lemma_rat_lt_respects_eq(
            va.v(),
            variance_spec(s),
            ((sd.v().0 + 1) * (sd.v().0 + 1), (SQRT_SCALE as int) * (SQRT_SCALE as int)),
            ((sd.v().0 + 1) * (sd.v().0 + 1), (SQRT_SCALE as int) * (SQRT_SCALE as int)),
        );
    }
    Some(StandardDeviationOutput { standard_deviation: sd, mean: m })
}

/// Returned from `percentiles_cluster`: the median, and the quartiles when
/// the sample is heavy enough for them to mean anything.
pub struct PercentilesOutput {
    pub median: Rational,
    pub lower_quadrille: Option<Rational>,
    pub higher_quadrille: Option<Rational>,
}

/// The median and, when the total weight is at least five, both
/// quartiles, of a sorted, non-empty cluster list.  Each reported value is
/// the resolved percentile (boundary pairs averaged).  `None` exactly when
/// one of the reported values has no 64-bit representative.
pub fn percentiles_cluster(values: &mut OwnedClusterList) -> (r: Option<PercentilesOutput>)
    requires
        old(values).wf(),
        sorted_by_value(old(values).clusters()),
        old(values).clusters().len() > 0,
    ensures
        *final (values) == *old(values),
        r is None ==> {
            let s = old(values).clusters();
            ||| !representable(percentile_spec(s, 1, 2).resolve_spec())
            ||| weight_of(s) >= 5 && !representable(percentile_spec(s, 1, 4).resolve_spec())
            ||| weight_of(s) >= 5 && !representable(percentile_spec(s, 3, 4).resolve_spec())
        },
        r matches Some(o) ==> {
            let s = old(values).clusters();
            &&& o.median.valid()
            &&& rat_eq(o.median.v(), percentile_spec(s, 1, 2).resolve_spec())
            &&& (o.lower_quadrille is Some <==> weight_of(s) >= 5)
            &&& (o.higher_quadrille is Some <==> weight_of(s) >= 5)
            &&& (o.lower_quadrille matches Some(q) ==> q.valid() && rat_eq(
                q.v(),
                percentile_spec(s, 1, 4).resolve_spec(),
            ))
            &&& (o.higher_quadrille matches Some(q) ==> q.valid() && rat_eq(
                q.v(),
                percentile_spec(s, 3, 4).resolve_spec(),
            ))
        },
{
    let ghost s = values.clusters();
    let list = values.borrow();
    let heavy_enough: bool = list.len() >= 5;
    let lower: Option<Rational> = if heavy_enough {
        let mv = percentile(&list, &Fraction::new(1, 4));
        match mv.resolve() {
            Some(q) => Some(q),
            None => {
                return None;
            },
        }
    } else {
        None
    };
    let higher: Option<Rational> = if heavy_enough {
        let mv = percentile(&list, &Fraction::new(3, 4));
        match mv.resolve() {
            Some(q) => Some(q),
            None => {
                return None;
            },
        }
    } else {
        None
    };
    let med_mv = median(&list);
    let med = match med_mv.resolve() {
        Some(q) => q,
        None => {
            return None;
        },
    };
    Some(PercentilesOutput { median: med, lower_quadrille: lower, higher_quadrille: higher })
}

} // verus!
