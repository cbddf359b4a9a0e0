//! Regression models over exact rational samples.
//!
//! Vocabulary: predictors are the independent values (usually `x`), from
//! which a fitted equation produces the outcomes (the dependent values,
//! usually `y`).  The coefficient types expose `predict_outcome` and an
//! equation rendering; the coefficient of determination (R-squared) is
//! computed exactly from predictions and observed outcomes.  Linear
//! estimators (ordinary least squares, Theil-Sen) implement
//! `LinearEstimator`, and the best-fit selector weighs candidate models
//! against each other.

use vstd::prelude::*;

use crate::percentile::{flat_median_spec, rationals_valid, sorted_values};
use crate::rational::{
    lemma_pos_mul, lemma_rat_add_congruence, lemma_rat_div_congruence, lemma_rat_eq_trans,
    lemma_rat_mul_congruence, lemma_rat_sub_congruence, lemma_representable_congruence, mag_bound,
    rat_add, rat_div, rat_eq, rat_mul, rat_sub, rat_wf, representable, Rational,
};

pub mod ols;
pub mod theil_sen;
pub mod derived;
pub mod selection;

pub use selection::{
    best_fit, best_fit_ols, DynModel, ExponentialEvaluation, PowerEvaluation, ScoredCandidate,
};

verus! {

/// Why a regression call could not produce a result.
#[derive(Clone, Copy, Debug, PartialEq, Eq, Structural)]
pub enum RegressionError {
    /// An intermediate exact value does not fit the 64-bit rational
    /// representation.
    Unrepresentable,
    /// The observed outcomes have no variance, so R-squared divides by
    /// zero.
    ZeroVariance,
    /// The normal-equations matrix has no usable pivot: the predictors are
    /// collinear or otherwise degenerate.
    SingularMatrix,
}

/// The views of a sequence of rationals.
pub open spec fn views_of(s: Seq<Rational>) -> Seq<(int, int)> {
    s.map_values(|r: Rational| r.v())
}

/// The sum of a sequence of rationals.
pub open spec fn rat_seq_sum(s: Seq<(int, int)>) -> (int, int)
    decreases s.len(),
{
    if s.len() == 0 {
        (0int, 1int)
    } else {
        rat_add(rat_seq_sum(s.drop_last()), s.last())
    }
}

/// The sum of squared differences `(a[i] - b[i])^2`, pairwise.
pub open spec fn sq_diff_sum(a: Seq<(int, int)>, b: Seq<(int, int)>) -> (int, int)
    decreases a.len(),
{
    if a.len() == 0 {
        (0int, 1int)
    } else {
        rat_add(
            sq_diff_sum(a.drop_last(), b.drop_last()),
            rat_mul(rat_sub(a.last(), b.last()), rat_sub(a.last(), b.last())),
        )
    }
}

/// The sum of squared deviations of each element from `m`.
pub open spec fn sq_dev_sum(a: Seq<(int, int)>, m: (int, int)) -> (int, int)
    decreases a.len(),
{
    if a.len() == 0 {
        (0int, 1int)
    } else {
        rat_add(
            sq_dev_sum(a.drop_last(), m),
            rat_mul(rat_sub(a.last(), m), rat_sub(a.last(), m)),
        )
    }
}

/// Every pair has a positive denominator.
pub open spec fn pairs_wf(s: Seq<(int, int)>) -> bool {
    forall|i: int| 0 <= i < s.len() ==> (#[trigger] s[i]).1 >= 1
}

/// The coefficient of determination:
/// `1 - sum((y - prediction)^2) / sum((y - mean(y))^2)`.
pub open spec fn determination_spec(preds: Seq<(int, int)>, outs: Seq<(int, int)>) -> (int, int) {
    let mean = rat_div(rat_seq_sum(outs), (outs.len() as int, 1int));
    rat_sub((1int, 1int), rat_div(sq_diff_sum(outs, preds), sq_dev_sum(outs, mean)))
}

/// The reason a plain sum can fail: some partial sum has no 64-bit
/// representative.
pub open spec fn sum_values_failure(vs: Seq<(int, int)>) -> bool {
    exists|i: int|
        #![trigger vs[i]]
        0 <= i < vs.len() && !representable(rat_seq_sum(vs.take(i + 1)))
}

/// The reason a sum of squared deviations from `base` can fail: some
/// deviation, square or partial sum has no 64-bit representative.
pub open spec fn sq_dev_failure(vs: Seq<(int, int)>, base: (int, int)) -> bool {
    exists|i: int|
        #![trigger vs[i]]
        0 <= i < vs.len() && {
            let dv = rat_sub(vs[i], base);
            ||| !representable(dv)
            ||| !representable(rat_mul(dv, dv))
            ||| !representable(sq_dev_sum(vs.take(i + 1), base))
        }
}

/// The reason a sum of squared pairwise differences can fail.
pub open spec fn sq_diff_failure(a: Seq<(int, int)>, b: Seq<(int, int)>) -> bool {
    exists|i: int|
        #![trigger a[i]]
        0 <= i < a.len() && {
            let dv = rat_sub(a[i], b[i]);
            ||| !representable(dv)
            ||| !representable(rat_mul(dv, dv))
            ||| !representable(sq_diff_sum(a.take(i + 1), b.take(i + 1)))
        }
}

/// A failing squared-deviation computation fails for every equal base.
proof fn lemma_sq_dev_failure_congruence(vs: Seq<(int, int)>, b: (int, int), b2: (int, int))
    requires
        pairs_wf(vs),
        rat_eq(b, b2),
        b.1 >= 1,
        b2.1 >= 1,
        sq_dev_failure(vs, b),
    ensures
        sq_dev_failure(vs, b2),
{
    let i = choose|i: int|
        #![trigger vs[i]]
        0 <= i < vs.len() && {
            let dv = rat_sub(vs[i], b);
            ||| !representable(dv)
            ||| !representable(rat_mul(dv, dv))
            ||| !representable(sq_dev_sum(vs.take(i + 1), b))
        };
    let v = vs[i];
    let dv = rat_sub(v, b);
    let dv2 = rat_sub(v, b2);
    lemma_rat_sub_congruence(v, v, b, b2);
    lemma_pos_mul(v.1, b.1);
    lemma_pos_mul(v.1, b2.1);
    if !representable(dv) {
        lemma_representable_congruence(dv, dv2);
    } else if !representable(rat_mul(dv, dv)) {
        lemma_rat_mul_congruence(dv, dv2, dv, dv2);
        lemma_pos_mul(dv.1, dv.1);
        lemma_pos_mul(dv2.1, dv2.1);
        lemma_representable_congruence(rat_mul(dv, dv), rat_mul(dv2, dv2));
    } else {
        let prefix1 = vs.take(i + 1);
        assert(pairs_wf(prefix1)) by {
            assert(forall|j: int| 0 <= j < prefix1.len() ==> prefix1[j] == #[trigger] vs[j]);
        }
        lemma_ssdv_congruence(prefix1, b, b2);
        lemma_sq_dev_sum_wf(prefix1, b);
        lemma_sq_dev_sum_wf(prefix1, b2);
        lemma_representable_congruence(sq_dev_sum(prefix1, b), sq_dev_sum(prefix1, b2));
    }
    assert(0 <= i < vs.len() && {
        let dvx = rat_sub(vs[i], b2);
        ||| !representable(dvx)
        ||| !representable(rat_mul(dvx, dvx))
        ||| !representable(sq_dev_sum(vs.take(i + 1), b2))
    });
}

proof fn lemma_views_wf(s: Seq<Rational>)
    requires
        rationals_valid(s),
    ensures
        pairs_wf(views_of(s)),
        views_of(s).len() == s.len(),
        forall|i: int| 0 <= i < s.len() ==> views_of(s)[i] == (#[trigger] s[i]).v(),
{
}

proof fn lemma_rat_seq_sum_wf(s: Seq<(int, int)>)
    requires
        pairs_wf(s),
    ensures
        rat_wf(rat_seq_sum(s)),
    decreases s.len(),
{
    if s.len() > 0 {
        assert(pairs_wf(s.drop_last())) by {
            assert(forall|i: int|
                0 <= i < s.drop_last().len() ==> s.drop_last()[i] == #[trigger] s[i]);
        }
        lemma_rat_seq_sum_wf(s.drop_last());
        lemma_pos_mul(rat_seq_sum(s.drop_last()).1, s.last().1);
    }
}

proof fn lemma_sq_diff_sum_wf(a: Seq<(int, int)>, b: Seq<(int, int)>)
    requires
        pairs_wf(a),
        pairs_wf(b),
        a.len() <= b.len(),
    ensures
        rat_wf(sq_diff_sum(a, b)),
        sq_diff_sum(a, b).0 >= 0,
    decreases a.len(),
{
    if a.len() > 0 {
        assert(pairs_wf(a.drop_last()) && pairs_wf(b.drop_last())) by {
            assert(forall|i: int|
                0 <= i < a.drop_last().len() ==> a.drop_last()[i] == #[trigger] a[i]);
            assert(forall|i: int|
                0 <= i < b.drop_last().len() ==> b.drop_last()[i] == #[trigger] b[i]);
        }
        lemma_sq_diff_sum_wf(a.drop_last(), b.drop_last());
        let rec = sq_diff_sum(a.drop_last(), b.drop_last());
        let bl = b[a.len() - 1];
        assert(b.drop_last().len() == b.len() - 1);
        let last_term = rat_mul(rat_sub(a.last(), b.last()), rat_sub(a.last(), b.last()));
        assert(rat_wf(last_term) && last_term.0 >= 0 && rat_wf(rat_add(rec, last_term))
            && rat_add(rec, last_term).0 >= 0) by (nonlinear_arith)
            requires
                last_term == rat_mul(rat_sub(a.last(), b.last()), rat_sub(a.last(), b.last())),
                a.last().1 >= 1,
                b.last().1 >= 1,
                rat_wf(rec),
                rec.0 >= 0,
        ;
    }
}

proof fn lemma_sq_dev_sum_wf(a: Seq<(int, int)>, m: (int, int))
    requires
        pairs_wf(a),
        m.1 >= 1,
    ensures
        rat_wf(sq_dev_sum(a, m)),
        sq_dev_sum(a, m).0 >= 0,
    decreases a.len(),
{
    if a.len() > 0 {
        assert(pairs_wf(a.drop_last())) by {
            assert(forall|i: int|
                0 <= i < a.drop_last().len() ==> a.drop_last()[i] == #[trigger] a[i]);
        }
        lemma_sq_dev_sum_wf(a.drop_last(), m);
        let rec = sq_dev_sum(a.drop_last(), m);
        let last_term = rat_mul(rat_sub(a.last(), m), rat_sub(a.last(), m));
        assert(rat_wf(last_term) && last_term.0 >= 0 && rat_wf(rat_add(rec, last_term))
            && rat_add(rec, last_term).0 >= 0) by (nonlinear_arith)
            requires
                last_term == rat_mul(rat_sub(a.last(), m), rat_sub(a.last(), m)),
                a.last().1 >= 1,
                m.1 >= 1,
                rat_wf(rec),
                rec.0 >= 0,
        ;
    }
}

/// The exact sum of a vector of rationals; `None` only when an
/// intermediate value does not fit the representation.
pub fn sum_values(v: &Vec<Rational>) -> (r: Option<Rational>)
    requires
        rationals_valid(v@),
    ensures
        r matches Some(q) ==> q.valid() && rat_eq(q.v(), rat_seq_sum(views_of(v@))),
        r is None ==> sum_values_failure(views_of(v@)),
{
    let ghost vs = views_of(v@);
    proof {
        lemma_views_wf(v@);
    }
    let mut acc = Rational::zero();
    let mut i: usize = 0;
    proof {
        assert(vs.take(0) =~= Seq::<(int, int)>::empty());
    }
    while i < v.len()
        invariant
            rationals_valid(v@),
            vs == views_of(v@),
            pairs_wf(vs),
            0 <= i <= v@.len(),
            vs.len() == v@.len(),
            acc.valid(),
            rat_eq(acc.v(), rat_seq_sum(vs.take(i as int))),
        decreases v@.len() - i,
    {
        let next = match acc.try_add(&v[i]) {
            Some(next) => next,
            None => {
                proof {
                    let prefix = vs.take(i as int);
                    let prefix1 = vs.take(i as int + 1);
                    assert(prefix1.drop_last() =~= prefix);
                    assert(prefix1.last() == vs[i as int]);
                    assert(pairs_wf(prefix)) by {
                        assert(forall|j: int|
                            0 <= j < prefix.len() ==> prefix[j] == #[trigger] vs[j]);
                    }
                    lemma_rat_seq_sum_wf(prefix);
                    lemma_rat_add_congruence(
                        acc.v(),
                        rat_seq_sum(prefix),
                        v@[i as int].v(),
                        vs[i as int],
                    );
                    lemma_pos_mul(acc.v().1, v@[i as int].v().1);
                    lemma_pos_mul(rat_seq_sum(prefix).1, vs[i as int].1);
                    lemma_representable_congruence(
                        rat_add(acc.v(), v@[i as int].v()),
                        rat_seq_sum(prefix1),
                    );
                    assert(!representable(rat_seq_sum(vs.take(i as int + 1))));
                }
                return None;
            },
        };
        proof {
            let prefix = vs.take(i as int);
            let prefix1 = vs.take(i as int + 1);
            assert(prefix1.drop_last() =~= prefix);
            assert(prefix1.last() == vs[i as int]);
            assert(pairs_wf(prefix)) by {
                assert(forall|j: int| 0 <= j < prefix.len() ==> prefix[j] == #[trigger] vs[j]);
            }
            lemma_rat_seq_sum_wf(prefix);
            lemma_rat_add_congruence(acc.v(), rat_seq_sum(prefix), v@[i as int].v(), vs[i as int]);
            lemma_pos_mul(acc.v().1, v@[i as int].v().1);
            lemma_rat_eq_trans(
                next.v(),
                rat_add(acc.v(), v@[i as int].v()),
                rat_seq_sum(prefix1),
            );
        }
        acc = next;
        i = i + 1;
    }
    proof {
        assert(vs.take(vs.len() as int) =~= vs);
    }
    Some(acc)
}

/// The exact sum of squared deviations of each element from `base`;
/// `None` only when an intermediate value does not fit.
pub fn sum_sq_dev(v: &Vec<Rational>, base: &Rational) -> (r: Option<Rational>)
    requires
        rationals_valid(v@),
        base.valid(),
    ensures
        r matches Some(q) ==> q.valid() && rat_eq(q.v(), sq_dev_sum(views_of(v@), base.v())),
        r is None ==> sq_dev_failure(views_of(v@), base.v()),
{
    let ghost vs = views_of(v@);
    proof {
        lemma_views_wf(v@);
    }
    let mut acc = Rational::zero();
    let mut i: usize = 0;
    proof {
        assert(vs.take(0) =~= Seq::<(int, int)>::empty());
    }
    while i < v.len()
        invariant
            rationals_valid(v@),
            base.valid(),
            vs == views_of(v@),
            pairs_wf(vs),
            0 <= i <= v@.len(),
            vs.len() == v@.len(),
            acc.valid(),
            rat_eq(acc.v(), sq_dev_sum(vs.take(i as int), base.v())),
        decreases v@.len() - i,
    {
        let ghost ds = rat_sub(vs[i as int], base.v());
        let d = match v[i].try_sub(base) {
            Some(d) => d,
            None => {
                proof {
                    assert(!representable(ds));
                }
                return None;
            },
        };
        let sq = match d.try_mul(&d) {
            Some(sq) => sq,
            None => {
                proof {
                    lemma_pos_mul(vs[i as int].1, base.v().1);
                    lemma_rat_mul_congruence(d.v(), ds, d.v(), ds);
                    lemma_pos_mul(d.v().1, d.v().1);
                    lemma_pos_mul(ds.1, ds.1);
                    lemma_representable_congruence(rat_mul(d.v(), d.v()), rat_mul(ds, ds));
                    assert(!representable(rat_mul(ds, ds)));
                }
                return None;
            },
        };
        let next = match acc.try_add(&sq) {
            Some(next) => next,
            None => {
                proof {
                    let prefix = vs.take(i as int);
                    let prefix1 = vs.take(i as int + 1);
                    assert(prefix1.drop_last() =~= prefix);
                    assert(prefix1.last() == vs[i as int]);
                    assert(pairs_wf(prefix)) by {
                        assert(forall|j: int|
                            0 <= j < prefix.len() ==> prefix[j] == #[trigger] vs[j]);
                    }
                    lemma_sq_dev_sum_wf(prefix, base.v());
                    lemma_pos_mul(vs[i as int].1, base.v().1);
                    lemma_rat_mul_congruence(d.v(), ds, d.v(), ds);
                    lemma_pos_mul(d.v().1, d.v().1);
                    lemma_pos_mul(ds.1, ds.1);
                    lemma_rat_eq_trans(sq.v(), rat_mul(d.v(), d.v()), rat_mul(ds, ds));
                    lemma_rat_add_congruence(
                        acc.v(),
                        sq_dev_sum(prefix, base.v()),
                        sq.v(),
                        rat_mul(ds, ds),
                    );
                    lemma_pos_mul(acc.v().1, sq.v().1);
                    lemma_pos_mul(sq_dev_sum(prefix, base.v()).1, rat_mul(ds, ds).1);
                    lemma_representable_congruence(
                        rat_add(acc.v(), sq.v()),
                        sq_dev_sum(prefix1, base.v()),
                    );
                    assert(!representable(sq_dev_sum(vs.take(i as int + 1), base.v())));
                }
                return None;
            },
        };
        proof {
            let prefix = vs.take(i as int);
            let prefix1 = vs.take(i as int + 1);
            assert(prefix1.drop_last() =~= prefix);
            assert(prefix1.last() == vs[i as int]);
            assert(pairs_wf(prefix)) by {
                assert(forall|j: int| 0 <= j < prefix.len() ==> prefix[j] == #[trigger] vs[j]);
            }
            lemma_sq_dev_sum_wf(prefix, base.v());
            lemma_pos_mul(vs[i as int].1, base.v().1);
            lemma_rat_mul_congruence(d.v(), ds, d.v(), ds);
            lemma_pos_mul(d.v().1, d.v().1);
            lemma_pos_mul(ds.1, ds.1);
            lemma_rat_eq_trans(sq.v(), rat_mul(d.v(), d.v()), rat_mul(ds, ds));
            lemma_rat_add_congruence(
                acc.v(),
                sq_dev_sum(prefix, base.v()),
                sq.v(),
                rat_mul(ds, ds),
            );
            lemma_pos_mul(acc.v().1, sq.v().1);
            lemma_rat_eq_trans(
                next.v(),
                rat_add(acc.v(), sq.v()),
                sq_dev_sum(prefix1, base.v()),
            );
        }
        acc = next;
        i = i + 1;
    }
    proof {
        assert(vs.take(vs.len() as int) =~= vs);
    }
    Some(acc)
}

/// The exact sum of squared pairwise differences; `None` only when an
/// intermediate value does not fit.
pub fn sum_sq_diff(a: &Vec<Rational>, b: &Vec<Rational>) -> (r: Option<Rational>)
    requires
        rationals_valid(a@),
        rationals_valid(b@),
        a@.len() == b@.len(),
    ensures
        r matches Some(q) ==> q.valid() && rat_eq(q.v(), sq_diff_sum(views_of(a@), views_of(b@))),
        r is None ==> sq_diff_failure(views_of(a@), views_of(b@)),
{
    let ghost av = views_of(a@);
    let ghost bv = views_of(b@);
    proof {
        lemma_views_wf(a@);
        lemma_views_wf(b@);
    }
    let mut acc = Rational::zero();
    let mut i: usize = 0;
    proof {
        assert(av.take(0) =~= Seq::<(int, int)>::empty());
        assert(bv.take(0) =~= Seq::<(int, int)>::empty());
    }
    while i < a.len()
        invariant
            rationals_valid(a@),
            rationals_valid(b@),
            av == views_of(a@),
            bv == views_of(b@),
            pairs_wf(av),
            pairs_wf(bv),
            a@.len() == b@.len(),
            0 <= i <= a@.len(),
            av.len() == a@.len(),
            bv.len() == b@.len(),
            acc.valid(),
            rat_eq(acc.v(), sq_diff_sum(av.take(i as int), bv.take(i as int))),
        decreases a@.len() - i,
    {
        let ghost ds = rat_sub(av[i as int], bv[i as int]);
        let d = match a[i].try_sub(&b[i]) {
            Some(d) => d,
            None => {
                proof {
                    assert(!representable(ds));
                }
                return None;
            },
        };
        let sq = match d.try_mul(&d) {
            Some(sq) => sq,
            None => {
                proof {
                    lemma_pos_mul(av[i as int].1, bv[i as int].1);
                    lemma_rat_mul_congruence(d.v(), ds, d.v(), ds);
                    lemma_pos_mul(d.v().1, d.v().1);
                    lemma_pos_mul(ds.1, ds.1);
                    lemma_representable_congruence(rat_mul(d.v(), d.v()), rat_mul(ds, ds));
                    assert(!representable(rat_mul(ds, ds)));
                }
                return None;
            },
        };
        let next = match acc.try_add(&sq) {
            Some(next) => next,
            None => {
                proof {
                    let pa = av.take(i as int);
                    let pa1 = av.take(i as int + 1);
                    let pb = bv.take(i as int);
                    let pb1 = bv.take(i as int + 1);
                    assert(pa1.drop_last() =~= pa);
                    assert(pb1.drop_last() =~= pb);
                    assert(pa1.last() == av[i as int]);
                    assert(pb1.last() == bv[i as int]);
                    assert(pairs_wf(pa) && pairs_wf(pb)) by {
                        assert(forall|j: int| 0 <= j < pa.len() ==> pa[j] == #[trigger] av[j]);
                        assert(forall|j: int| 0 <= j < pb.len() ==> pb[j] == #[trigger] bv[j]);
                    }
                    lemma_sq_diff_sum_wf(pa, pb);
                    lemma_pos_mul(av[i as int].1, bv[i as int].1);
                    lemma_rat_mul_congruence(d.v(), ds, d.v(), ds);
                    lemma_pos_mul(d.v().1, d.v().1);
                    lemma_pos_mul(ds.1, ds.1);
                    lemma_rat_eq_trans(sq.v(), rat_mul(d.v(), d.v()), rat_mul(ds, ds));
                    lemma_rat_add_congruence(acc.v(), sq_diff_sum(pa, pb), sq.v(), rat_mul(ds, ds));
                    lemma_pos_mul(acc.v().1, sq.v().1);
                    lemma_pos_mul(sq_diff_sum(pa, pb).1, rat_mul(ds, ds).1);
                    lemma_representable_congruence(
                        rat_add(acc.v(), sq.v()),
                        sq_diff_sum(pa1, pb1),
                    );
                    assert(!representable(
                        sq_diff_sum(av.take(i as int + 1), bv.take(i as int + 1)),
                    ));
                }
                return None;
            },
        };
        proof {
            let pa = av.take(i as int);
            let pa1 = av.take(i as int + 1);
            let pb = bv.take(i as int);
            let pb1 = bv.take(i as int + 1);
            assert(pa1.drop_last() =~= pa);
            assert(pb1.drop_last() =~= pb);
            assert(pa1.last() == av[i as int]);
            assert(pb1.last() == bv[i as int]);
            assert(pairs_wf(pa) && pairs_wf(pb)) by {
                assert(forall|j: int| 0 <= j < pa.len() ==> pa[j] == #[trigger] av[j]);
                assert(forall|j: int| 0 <= j < pb.len() ==> pb[j] == #[trigger] bv[j]);
            }
            lemma_sq_diff_sum_wf(pa, pb);
            lemma_pos_mul(av[i as int].1, bv[i as int].1);
            lemma_rat_mul_congruence(d.v(), ds, d.v(), ds);
            lemma_pos_mul(d.v().1, d.v().1);
            lemma_pos_mul(ds.1, ds.1);
            lemma_rat_eq_trans(sq.v(), rat_mul(d.v(), d.v()), rat_mul(ds, ds));
            lemma_rat_add_congruence(acc.v(), sq_diff_sum(pa, pb), sq.v(), rat_mul(ds, ds));
            lemma_pos_mul(acc.v().1, sq.v().1);
            lemma_rat_eq_trans(next.v(), rat_add(acc.v(), sq.v()), sq_diff_sum(pa1, pb1));
        }
        acc = next;
        i = i + 1;
    }
    proof {
        assert(av.take(av.len() as int) =~= av);
        assert(bv.take(bv.len() as int) =~= bv);
    }
    Some(acc)
}

/// The coefficient of determination of `predictions` against observed
/// `outcomes`: exactly `1 - residual-sum / total-sum`.  Outcomes that all
/// equal their mean (a zero total sum) always fail; `ZeroVariance` is
/// reported only in that case, while `Unrepresentable` names an exact
/// intermediate that does not fit the 64-bit rational form.  O(n).
pub fn determination_of(predictions: &Vec<Rational>, outcomes: &Vec<Rational>) -> (r: Result<
    Rational,
    RegressionError,
>)
    requires
        rationals_valid(predictions@),
        rationals_valid(outcomes@),
        predictions@.len() == outcomes@.len(),
        outcomes@.len() > 0,
    ensures
        r matches Ok(q) ==> {
            &&& q.valid()
            &&& rat_eq(q.v(), determination_spec(views_of(predictions@), views_of(outcomes@)))
            &&& !rat_eq(
                sq_dev_sum(
                    views_of(outcomes@),
                    rat_div(rat_seq_sum(views_of(outcomes@)), (outcomes@.len() as int, 1int)),
                ),
                (0int, 1int),
            )
        },
        r == Err::<Rational, RegressionError>(RegressionError::ZeroVariance) ==> rat_eq(
            sq_dev_sum(
                views_of(outcomes@),
                rat_div(rat_seq_sum(views_of(outcomes@)), (outcomes@.len() as int, 1int)),
            ),
            (0int, 1int),
        ),
        rat_eq(
            sq_dev_sum(
                views_of(outcomes@),
                rat_div(rat_seq_sum(views_of(outcomes@)), (outcomes@.len() as int, 1int)),
            ),
            (0int, 1int),
        ) ==> r is Err,
        r is Err ==> (r == Err::<Rational, RegressionError>(RegressionError::ZeroVariance) || r
            == Err::<Rational, RegressionError>(RegressionError::Unrepresentable)),
        r == Err::<Rational, RegressionError>(RegressionError::Unrepresentable) ==> {
            let pv = views_of(predictions@);
            let ov = views_of(outcomes@);
            let mean_s = rat_div(rat_seq_sum(ov), (ov.len() as int, 1int));
            ||| sum_values_failure(ov)
            ||| ov.len() > mag_bound()
            ||| !representable(mean_s)
            ||| sq_dev_failure(ov, mean_s)
            ||| sq_diff_failure(ov, pv)
            ||| !representable(rat_div(sq_diff_sum(ov, pv), sq_dev_sum(ov, mean_s)))
            ||| !representable(determination_spec(pv, ov))
        },
{
    let ghost pv = views_of(predictions@);
    let ghost ov = views_of(outcomes@);
    proof {
        lemma_views_wf(predictions@);
        lemma_views_wf(outcomes@);
    }
    let total = match sum_values(outcomes) {
        Some(total) => total,
        None => {
            return Err(RegressionError::Unrepresentable);
        },
    };
    let cnt = match Rational::from_count(outcomes.len()) {
        Some(cnt) => cnt,
        None => {
            return Err(RegressionError::Unrepresentable);
        },
    };
    let ghost mean_s = rat_div(rat_seq_sum(ov), (ov.len() as int, 1int));
    let mean = match total.try_div(&cnt) {
        Some(mean) => mean,
        None => {
            proof {
                lemma_rat_seq_sum_wf(ov);
                lemma_rat_div_congruence(
                    total.v(),
                    rat_seq_sum(ov),
                    cnt.v(),
                    (ov.len() as int, 1int),
                );
                lemma_pos_mul(total.v().1, ov.len() as int);
                lemma_pos_mul(rat_seq_sum(ov).1, ov.len() as int);
                lemma_representable_congruence(rat_div(total.v(), cnt.v()), mean_s);
            }
            return Err(RegressionError::Unrepresentable);
        },
    };
    proof {
        lemma_rat_seq_sum_wf(ov);
        lemma_rat_div_congruence(total.v(), rat_seq_sum(ov), cnt.v(), (ov.len() as int, 1int));
        lemma_pos_mul(total.v().1, ov.len() as int);
        lemma_rat_eq_trans(mean.v(), rat_div(total.v(), cnt.v()), mean_s);
        lemma_pos_mul(rat_seq_sum(ov).1, ov.len() as int);
    }
    let tot = match sum_sq_dev(outcomes, &mean) {
        Some(tot) => tot,
        None => {
            proof {
                lemma_sq_dev_failure_congruence(ov, mean.v(), mean_s);
            }
            return Err(RegressionError::Unrepresentable);
        },
    };
    proof {
        lemma_ssdv_congruence(ov, mean.v(), mean_s);
        lemma_sq_dev_sum_wf(ov, mean.v());
        lemma_rat_eq_trans(tot.v(), sq_dev_sum(ov, mean.v()), sq_dev_sum(ov, mean_s));
    }
    if tot.is_zero() {
        proof {
            lemma_sq_dev_sum_wf(ov, mean_s);
            assert(rat_eq(sq_dev_sum(ov, mean_s), (0int, 1int))) by (nonlinear_arith)
                requires
                    rat_eq(tot.v(), sq_dev_sum(ov, mean_s)),
                    tot.v().0 == 0,
                    tot.v().1 >= 1,
                    sq_dev_sum(ov, mean_s).1 >= 1,
            ;
        }
        return Err(RegressionError::ZeroVariance);
    }
    proof {
        lemma_sq_dev_sum_wf(ov, mean_s);
        assert(!rat_eq(sq_dev_sum(ov, mean_s), (0int, 1int))) by (nonlinear_arith)
            requires
                rat_eq(tot.v(), sq_dev_sum(ov, mean_s)),
                tot.v().0 != 0,
                tot.v().1 >= 1,
                sq_dev_sum(ov, mean_s).1 >= 1,
        ;
    }
    let res = match sum_sq_diff(outcomes, predictions) {
        Some(res) => res,
        None => {
            return Err(RegressionError::Unrepresentable);
        },
    };
    let frac = match res.try_div(&tot) {
        Some(frac) => frac,
        None => {
            proof {
                lemma_sq_diff_sum_wf(ov, pv);
                lemma_sq_dev_sum_wf(ov, mean_s);
                lemma_rat_div_congruence(
                    res.v(),
                    sq_diff_sum(ov, pv),
                    tot.v(),
                    sq_dev_sum(ov, mean_s),
                );
                assert(rat_wf(rat_div(res.v(), tot.v()))) by (nonlinear_arith)
                    requires
                        res.v().1 >= 1,
                        tot.v().1 >= 1,
                        tot.v().0 != 0,
                ;
                assert(rat_wf(rat_div(sq_diff_sum(ov, pv), sq_dev_sum(ov, mean_s))))
                    by (nonlinear_arith)
                    requires
                        sq_diff_sum(ov, pv).1 >= 1,
                        sq_dev_sum(ov, mean_s).1 >= 1,
                        !rat_eq(sq_dev_sum(ov, mean_s), (0int, 1int)),
                ;
                lemma_representable_congruence(
                    rat_div(res.v(), tot.v()),
                    rat_div(sq_diff_sum(ov, pv), sq_dev_sum(ov, mean_s)),
                );
            }
            return Err(RegressionError::Unrepresentable);
        },
    };
    let one = Rational::one();
    let out = match one.try_sub(&frac) {
        Some(out) => out,
        None => {
            proof {
                lemma_sq_diff_sum_wf(ov, pv);
                lemma_sq_dev_sum_wf(ov, mean_s);
                lemma_rat_div_congruence(
                    res.v(),
                    sq_diff_sum(ov, pv),
                    tot.v(),
                    sq_dev_sum(ov, mean_s),
                );
                assert(rat_wf(rat_div(res.v(), tot.v()))) by (nonlinear_arith)
                    requires
                        res.v().1 >= 1,
                        tot.v().1 >= 1,
                        tot.v().0 != 0,
                ;
                assert(rat_wf(rat_div(sq_diff_sum(ov, pv), sq_dev_sum(ov, mean_s))))
                    by (nonlinear_arith)
                    requires
                        sq_diff_sum(ov, pv).1 >= 1,
                        sq_dev_sum(ov, mean_s).1 >= 1,
                        !rat_eq(sq_dev_sum(ov, mean_s), (0int, 1int)),
                ;
                lemma_rat_eq_trans(
                    frac.v(),
                    rat_div(res.v(), tot.v()),
                    rat_div(sq_diff_sum(ov, pv), sq_dev_sum(ov, mean_s)),
                );
                lemma_rat_sub_congruence(
                    (1int, 1int),
                    (1int, 1int),
                    frac.v(),
                    rat_div(sq_diff_sum(ov, pv), sq_dev_sum(ov, mean_s)),
                );
                lemma_representable_congruence(
                    rat_sub((1int, 1int), frac.v()),
                    determination_spec(pv, ov),
                );
            }
            return Err(RegressionError::Unrepresentable);
        },
    };
    proof {
        lemma_sq_diff_sum_wf(ov, pv);
        lemma_sq_dev_sum_wf(ov, mean_s);
        assert(tot.v().0 != 0);
        lemma_rat_div_congruence(res.v(), sq_diff_sum(ov, pv), tot.v(), sq_dev_sum(ov, mean_s));
        assert(rat_wf(rat_div(res.v(), tot.v()))) by (nonlinear_arith)
            requires
                res.v().1 >= 1,
                tot.v().1 >= 1,
                tot.v().0 != 0,
        ;
        assert(rat_wf(rat_div(sq_diff_sum(ov, pv), sq_dev_sum(ov, mean_s)))) by (nonlinear_arith)
            requires
                sq_diff_sum(ov, pv).1 >= 1,
                sq_dev_sum(ov, mean_s).1 >= 1,
                !rat_eq(sq_dev_sum(ov, mean_s), (0int, 1int)),
        ;
        lemma_rat_eq_trans(
            frac.v(),
            rat_div(res.v(), tot.v()),
            rat_div(sq_diff_sum(ov, pv), sq_dev_sum(ov, mean_s)),
        );
        lemma_rat_sub_congruence(
            (1int, 1int),
            (1int, 1int),
            frac.v(),
            rat_div(sq_diff_sum(ov, pv), sq_dev_sum(ov, mean_s)),
        );
        lemma_pos_mul(1, frac.v().1);
        lemma_rat_eq_trans(
            out.v(),
            rat_sub((1int, 1int), frac.v()),
            determination_spec(pv, ov),
        );
    }
    Ok(out)
}

/// Squared deviations from equal bases are equal (flat-sequence form).
proof fn lemma_ssdv_congruence(s: Seq<(int, int)>, base: (int, int), base2: (int, int))
    requires
        pairs_wf(s),
        rat_eq(base, base2),
        base.1 >= 1,
        base2.1 >= 1,
    ensures
        rat_eq(sq_dev_sum(s, base), sq_dev_sum(s, base2)),
    decreases s.len(),
{
    if s.len() > 0 {
        assert(pairs_wf(s.drop_last())) by {
            assert(forall|i: int|
                0 <= i < s.drop_last().len() ==> s.drop_last()[i] == #[trigger] s[i]);
        }
        lemma_ssdv_congruence(s.drop_last(), base, base2);
        lemma_sq_dev_sum_wf(s.drop_last(), base);
        lemma_sq_dev_sum_wf(s.drop_last(), base2);
        let v = s.last();
        let d = rat_sub(v, base);
        let d2 = rat_sub(v, base2);
        lemma_rat_sub_congruence(v, v, base, base2);
        lemma_pos_mul(v.1, base.1);
        lemma_pos_mul(v.1, base2.1);
        lemma_rat_mul_congruence(d, d2, d, d2);
        lemma_pos_mul(d.1, d.1);
        lemma_pos_mul(d2.1, d2.1);
        lemma_rat_add_congruence(
            sq_dev_sum(s.drop_last(), base),
            sq_dev_sum(s.drop_last(), base2),
            rat_mul(d, d),
            rat_mul(d2, d2),
        );
    }
}

/// A perfect fit has a determination of exactly one: when every
/// prediction equals its outcome and the outcomes vary at all, R-squared
/// is exactly `1`.
pub proof fn lemma_determination_perfect(preds: Seq<(int, int)>, outs: Seq<(int, int)>)
    requires
        pairs_wf(preds),
        pairs_wf(outs),
        preds.len() == outs.len(),
        outs.len() > 0,
        forall|i: int| 0 <= i < outs.len() ==> rat_eq(#[trigger] outs[i], preds[i]),
        !rat_eq(
            sq_dev_sum(outs, rat_div(rat_seq_sum(outs), (outs.len() as int, 1int))),
            (0int, 1int),
        ),
    ensures
        rat_eq(determination_spec(preds, outs), (1int, 1int)),
{
    lemma_sq_diff_perfect(preds, outs);
    let mean = rat_div(rat_seq_sum(outs), (outs.len() as int, 1int));
    lemma_rat_seq_sum_wf(outs);
    lemma_pos_mul(rat_seq_sum(outs).1, outs.len() as int);
    lemma_sq_dev_sum_wf(outs, mean);
    lemma_sq_diff_sum_wf(outs, preds);
    let res = sq_diff_sum(outs, preds);
    let tot = sq_dev_sum(outs, mean);
    assert(rat_eq(determination_spec(preds, outs), (1int, 1int))) by (nonlinear_arith)
        requires
            res.0 == 0,
            res.1 >= 1,
            tot.1 >= 1,
            !rat_eq(tot, (0int, 1int)),
            determination_spec(preds, outs) == rat_sub((1int, 1int), rat_div(res, tot)),
    ;
}

/// When predictions match outcomes pairwise, the residual sum is the zero
/// rational (zero numerator).
proof fn lemma_sq_diff_perfect(preds: Seq<(int, int)>, outs: Seq<(int, int)>)
    requires
        pairs_wf(preds),
        pairs_wf(outs),
        preds.len() == outs.len(),
        forall|i: int| 0 <= i < outs.len() ==> rat_eq(#[trigger] outs[i], preds[i]),
    ensures
        rat_wf(sq_diff_sum(outs, preds)),
        sq_diff_sum(outs, preds).0 == 0,
    decreases outs.len(),
{
    if outs.len() > 0 {
        assert(pairs_wf(preds.drop_last()) && pairs_wf(outs.drop_last())) by {
            assert(forall|i: int|
                0 <= i < preds.drop_last().len() ==> preds.drop_last()[i] == #[trigger] preds[i]);
            assert(forall|i: int|
                0 <= i < outs.drop_last().len() ==> outs.drop_last()[i] == #[trigger] outs[i]);
        }
        assert(forall|i: int|
            0 <= i < outs.drop_last().len() ==> rat_eq(
                #[trigger] outs.drop_last()[i],
                preds.drop_last()[i],
            ));
        lemma_sq_diff_perfect(preds.drop_last(), outs.drop_last());
        let rec = sq_diff_sum(outs.drop_last(), preds.drop_last());
        assert(rat_eq(outs.last(), preds.last()));
        assert(sq_diff_sum(outs, preds).0 == 0 && rat_wf(sq_diff_sum(outs, preds)))
            by (nonlinear_arith)
            requires
                sq_diff_sum(outs, preds) == rat_add(
                    rec,
                    rat_mul(
                        rat_sub(outs.last(), preds.last()),
                        rat_sub(outs.last(), preds.last()),
                    ),
                ),
                rat_eq(outs.last(), preds.last()),
                outs.last().1 >= 1,
                preds.last().1 >= 1,
                rec.0 == 0,
                rec.1 >= 1,
        ;
    }
}

/// Pointwise value equality between a sequence of rationals and a
/// sequence of numerator/denominator pairs.
pub open spec fn pointwise_eq(s: Seq<Rational>, t: Seq<(int, int)>) -> bool {
    s.len() == t.len() && forall|i: int|
        0 <= i < s.len() ==> rat_eq((#[trigger] s[i]).v(), t[i])
}

/// `q` is the median of the values in `vals`: the resolved middle of some
/// ascending arrangement of exactly those values.
pub open spec fn is_median_of(q: Rational, vals: Seq<Rational>) -> bool {
    exists|sorted: Seq<Rational>|
        {
            &&& sorted_values(sorted)
            &&& #[trigger] sorted.to_multiset() == vals.to_multiset()
            &&& rationals_valid(sorted)
            &&& sorted.len() == vals.len()
            &&& rat_eq(q.v(), flat_median_spec(sorted).resolve_spec())
        }
}

/// Introduce `is_median_of` from an explicit sorted arrangement.
pub proof fn lemma_median_of_intro(q: Rational, vals: Seq<Rational>, sorted: Seq<Rational>)
    requires
        sorted_values(sorted),
        sorted.to_multiset() == vals.to_multiset(),
        rationals_valid(sorted),
        sorted.len() == vals.len(),
        rat_eq(q.v(), flat_median_spec(sorted).resolve_spec()),
    ensures
        is_median_of(q, vals),
{
}

/// A fitted line: slope `k` and intercept `m`.
#[derive(Clone, Copy, Debug, PartialEq, Eq, Structural)]
pub struct LinearCoefficients {
    /// The slope: the coefficient of the predictor.
    pub k: Rational,
    /// The intercept: the additive term.
    pub m: Rational,
}

impl LinearCoefficients {
    pub open spec fn wf(self) -> bool {
        self.k.valid() && self.m.valid()
    }

    /// The value the line takes at `x`.
    pub open spec fn predict_spec(self, x: (int, int)) -> (int, int) {
        rat_add(rat_mul(self.k.v(), x), self.m.v())
    }

    /// The predicted outcome `k * x + m`; `None` only when the scaled
    /// term or the prediction itself has no 64-bit representative.
    pub fn predict_outcome(&self, predictor: &Rational) -> (r: Option<Rational>)
        requires
            self.wf(),
            predictor.valid(),
        ensures
            r matches Some(q) ==> q.valid() && rat_eq(q.v(), self.predict_spec(predictor.v())),
            r is None ==> !representable(rat_mul(self.k.v(), predictor.v())) || !representable(
                self.predict_spec(predictor.v()),
            ),
    {
        let scaled = match self.k.try_mul(predictor) {
            Some(scaled) => scaled,
            None => {
                return None;
            },
        };
        let out = match scaled.try_add(&self.m) {
            Some(out) => out,
            None => {
                proof {
                    lemma_pos_mul(self.k.v().1, predictor.v().1);
                    lemma_rat_add_congruence(
                        scaled.v(),
                        rat_mul(self.k.v(), predictor.v()),
                        self.m.v(),
                        self.m.v(),
                    );
                    lemma_pos_mul(scaled.v().1, self.m.v().1);
                    lemma_pos_mul(rat_mul(self.k.v(), predictor.v()).1, self.m.v().1);
                    lemma_representable_congruence(
                        rat_add(scaled.v(), self.m.v()),
                        self.predict_spec(predictor.v()),
                    );
                }
                return None;
            },
        };
        proof {
            lemma_pos_mul(self.k.v().1, predictor.v().1);
            lemma_rat_add_congruence(
                scaled.v(),
                rat_mul(self.k.v(), predictor.v()),
                self.m.v(),
                self.m.v(),
            );
            lemma_pos_mul(scaled.v().1, self.m.v().1);
            lemma_rat_eq_trans(
                out.v(),
                rat_add(scaled.v(), self.m.v()),
                self.predict_spec(predictor.v()),
            );
        }
        Some(out)
    }

    /// Predictions of this line on each predictor; `None` only when some
    /// scaled term or prediction has no 64-bit representative.
    pub fn predictions(&self, predictors: &Vec<Rational>) -> (r: Option<Vec<Rational>>)
        requires
            self.wf(),
            rationals_valid(predictors@),
        ensures
            r is None ==> exists|i: int|
                0 <= i < predictors@.len() && {
                    ||| !representable(rat_mul(self.k.v(), (#[trigger] predictors@[i]).v()))
                    ||| !representable(self.predict_spec(predictors@[i].v()))
                },
            r matches Some(v) ==> {
                &&& v@.len() == predictors@.len()
                &&& rationals_valid(v@)
                &&& forall|i: int|
                    0 <= i < v@.len() ==> rat_eq(
                        (#[trigger] v@[i]).v(),
                        self.predict_spec(predictors@[i].v()),
                    )
            },
    {
        let mut out: Vec<Rational> = Vec::new();
        let mut i: usize = 0;
        while i < predictors.len()
            invariant
                self.wf(),
                rationals_valid(predictors@),
                0 <= i <= predictors@.len(),
                out@.len() == i,
                rationals_valid(out@),
                forall|j: int|
                    0 <= j < out@.len() ==> rat_eq(
                        (#[trigger] out@[j]).v(),
                        self.predict_spec(predictors@[j].v()),
                    ),
            decreases predictors@.len() - i,
        {
            let p = match self.predict_outcome(&predictors[i]) {
                Some(p) => p,
                None => {
                    return None;
                },
            };
            out.push(p);
            i = i + 1;
        }
        Some(out)
    }

    /// The coefficient of determination of this line against observed
    /// samples.  The two slices must have the same positive length.
    pub fn determination_slice(&self, predictors: &Vec<Rational>, outcomes: &Vec<Rational>) -> (r:
        Result<Rational, RegressionError>)
        requires
            self.wf(),
            rationals_valid(predictors@),
            rationals_valid(outcomes@),
            predictors@.len() == outcomes@.len(),
            outcomes@.len() > 0,
        ensures
            r matches Ok(q) ==> q.valid() && exists|preds: Seq<Rational>|
                #![trigger views_of(preds)]
                {
                    &&& pointwise_eq(preds, line_predictions(*self, predictors@))
                    &&& rat_eq(q.v(), determination_spec(views_of(preds), views_of(outcomes@)))
                },
            r is Err ==> (r == Err::<Rational, RegressionError>(RegressionError::ZeroVariance) || r
                == Err::<Rational, RegressionError>(RegressionError::Unrepresentable)),
            r == Err::<Rational, RegressionError>(RegressionError::ZeroVariance) ==> rat_eq(
                sq_dev_sum(
                    views_of(outcomes@),
                    rat_div(rat_seq_sum(views_of(outcomes@)), (outcomes@.len() as int, 1int)),
                ),
                (0int, 1int),
            ),
            rat_eq(
                sq_dev_sum(
                    views_of(outcomes@),
                    rat_div(rat_seq_sum(views_of(outcomes@)), (outcomes@.len() as int, 1int)),
                ),
                (0int, 1int),
            ) ==> r is Err,
    {
        let preds = match self.predictions(predictors) {
            Some(preds) => preds,
            None => {
                return Err(RegressionError::Unrepresentable);
            },
        };
        let r = determination_of(&preds, outcomes);
        match r {
            Ok(q) => {
                proof {
                    assert(pointwise_eq(preds@, line_predictions(*self, predictors@)));
                }
                Ok(q)
            },
            Err(e) => Err(e),
        }
    }
}

/// The predicted values of a line at each predictor.
pub open spec fn line_predictions(lc: LinearCoefficients, xs: Seq<Rational>) -> Seq<(int, int)> {
    views_of(xs).map_values(|x: (int, int)| lc.predict_spec(x))
}

/// Implemented by every method that fits a line to two-dimensional data.
/// `fits` is the relation the produced coefficients satisfy; each
/// estimator defines what it promises.
pub trait LinearEstimator {
    /// What the estimator promises about coefficients it returns for the
    /// given samples.
    spec fn fits(&self, xs: Seq<Rational>, ys: Seq<Rational>, k: Rational, m: Rational) -> bool;

    /// Model the coefficients from `predictors` and `outcomes`.  The two
    /// slices must have the same length, at least two.  A failure is
    /// always a degeneracy (`SingularMatrix`) or a value outside the
    /// 64-bit rational representation (`Unrepresentable`).
    fn model(&self, predictors: &Vec<Rational>, outcomes: &Vec<Rational>) -> (r: Result<
        LinearCoefficients,
        RegressionError,
    >)
        requires
            rationals_valid(predictors@),
            rationals_valid(outcomes@),
            predictors@.len() == outcomes@.len(),
            predictors@.len() >= 2,
        ensures
            r matches Ok(lc) ==> lc.wf() && self.fits(predictors@, outcomes@, lc.k, lc.m),
            r is Err ==> (r == Err::<LinearCoefficients, RegressionError>(
                RegressionError::SingularMatrix,
            ) || r == Err::<LinearCoefficients, RegressionError>(
                RegressionError::Unrepresentable,
            )),
    ;
}

/// An element-for-element copy of a vector of rationals.
pub fn copy_values(v: &Vec<Rational>) -> (r: Vec<Rational>)
    ensures
        r@ == v@,
{
    let mut out: Vec<Rational> = Vec::new();
    let mut i: usize = 0;
    while i < v.len()
        invariant
            0 <= i <= v@.len(),
            out@ == v@.take(i as int),
        decreases v@.len() - i,
    {
        out.push(v[i]);
        proof {
            assert(out@ =~= v@.take(i as int + 1));
        }
        i = i + 1;
    }
    proof {
        assert(v@.take(v@.len() as int) =~= v@);
    }
    out
}

} // verus!
