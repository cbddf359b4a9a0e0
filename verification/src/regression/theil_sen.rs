//! The Theil-Sen estimator: a robust linear fit using the median of all
//! pairwise slopes.  Around a quarter of the samples can be outliers
//! without large effects on the result.
//!
//! A pair of samples with value-equal predictors has no slope; such input
//! is reported as `SingularMatrix` rather than silently dropped, a
//! documented policy choice.

use vstd::prelude::*;

use crate::percentile::{median_values, rationals_valid};
use crate::rational::{
    lemma_pos_mul, lemma_rat_div_congruence, lemma_rat_eq_trans, lemma_rat_sub_congruence,
    rat_div, rat_eq, rat_mul, rat_sub, Rational,
};
use crate::regression::{
    copy_values, is_median_of, lemma_median_of_intro, pointwise_eq, LinearCoefficients,
    LinearEstimator, RegressionError,
};

verus! {

/// The row of pairs anchored at index `i`: `(s1[i], s1[j])` and
/// `(s2[i], s2[j])` for every `j > i`.
pub open spec fn pair_row<T>(s1: Seq<T>, s2: Seq<T>, i: int) -> Seq<((T, T), (T, T))> {
    Seq::new(
        (s1.len() - i - 1) as nat,
        |j: int| ((s1[i], s1[i + 1 + j]), (s2[i], s2[i + 1 + j])),
    )
}

/// All pair rows from index `i` on, concatenated.
pub open spec fn pairs_from<T>(s1: Seq<T>, s2: Seq<T>, i: int) -> Seq<((T, T), (T, T))>
    decreases s1.len() - i,
{
    if i < 0 || i >= s1.len() {
        Seq::empty()
    } else {
        pair_row(s1, s2, i) + pairs_from(s1, s2, i + 1)
    }
}

/// Every unordered pair of associated values, in row order.
pub open spec fn permutations_spec<T>(s1: Seq<T>, s2: Seq<T>) -> Seq<((T, T), (T, T))> {
    pairs_from(s1, s2, 0)
}

/// Every element of `pairs_from` pairs two associated positions `i < j`.
proof fn lemma_pairs_from_elements<T>(s1: Seq<T>, s2: Seq<T>, i0: int, k: int)
    requires
        s1.len() == s2.len(),
        0 <= i0,
        0 <= k < pairs_from(s1, s2, i0).len(),
    ensures
        exists|i: int, j: int|
            {
                &&& i0 <= i < j < s1.len()
                &&& #[trigger] pairs_from(s1, s2, i0)[k] == ((s1[i], s1[j]), (s2[i], s2[j]))
            },
    decreases s1.len() - i0,
{
    let row = pair_row(s1, s2, i0);
    if k < row.len() {
        let i = i0;
        let j = i0 + 1 + k;
        assert(pairs_from(s1, s2, i0)[k] == ((s1[i], s1[j]), (s2[i], s2[j])));
    } else {
        lemma_pairs_from_elements(s1, s2, i0 + 1, k - row.len());
        let (i, j): (int, int) = choose|i: int, j: int|
            {
                &&& i0 + 1 <= i < j < s1.len()
                &&& #[trigger] pairs_from(s1, s2, i0 + 1)[k - row.len()] == (
                    (s1[i], s1[j]),
                    (s2[i], s2[j]),
                )
            };
        assert(pairs_from(s1, s2, i0)[k] == ((s1[i], s1[j]), (s2[i], s2[j])));
    }
}

/// Unique permutations of two elements: all the pairs of associated
/// values in the two slices, which must have the same length.  Returns
/// `n * (n - 1) / 2` items.
pub fn permutations<T: Copy>(s1: &Vec<T>, s2: &Vec<T>) -> (r: Vec<((T, T), (T, T))>)
    requires
        s1@.len() == s2@.len(),
    ensures
        r@ == permutations_spec(s1@, s2@),
{
    let mut out: Vec<((T, T), (T, T))> = Vec::new();
    let n = s1.len();
    let mut i: usize = 0;
    proof {
        assert(out@ + pairs_from(s1@, s2@, 0) =~= permutations_spec(s1@, s2@));
    }
    while i < n
        invariant
            s1@.len() == s2@.len(),
            n == s1@.len(),
            0 <= i <= n,
            out@ + pairs_from(s1@, s2@, i as int) == permutations_spec(s1@, s2@),
        decreases n - i,
    {
        let ghost base = out@;
        let ghost row = pair_row(s1@, s2@, i as int);
        let first1 = s1[i];
        let first2 = s2[i];
        let mut j: usize = i + 1;
        proof {
            assert(row.take(0) =~= Seq::<((T, T), (T, T))>::empty());
            assert(base + row.take(0) =~= base);
        }
        while j < n
            invariant
                s1@.len() == s2@.len(),
                n == s1@.len(),
                0 <= i < n,
                i + 1 <= j <= n,
                first1 == s1@[i as int],
                first2 == s2@[i as int],
                row == pair_row(s1@, s2@, i as int),
                out@ == base + row.take(j - i - 1),
            decreases n - j,
        {
            out.push(((first1, s1[j]), (first2, s2[j])));
            proof {
                assert(out@ =~= base + row.take(j - i));
            }
            j = j + 1;
        }
        proof {
            assert(row.take(n - i - 1) =~= row);
            assert((base + row) + pairs_from(s1@, s2@, i as int + 1) =~= base + (row + pairs_from(
                s1@,
                s2@,
                i as int + 1,
            )));
        }
        i = i + 1;
    }
    proof {
        assert(pairs_from(s1@, s2@, n as int) =~= Seq::<((T, T), (T, T))>::empty());
        assert(out@ + pairs_from(s1@, s2@, n as int) =~= out@);
    }
    out
}

/// The slope of one pair: rise over run.
pub open spec fn slope_of(p: ((Rational, Rational), (Rational, Rational))) -> (int, int) {
    rat_div(rat_sub(p.1.0.v(), p.1.1.v()), rat_sub(p.0.0.v(), p.0.1.v()))
}

/// The slopes of all unordered pairs, in row order.
pub open spec fn slopes_spec(xs: Seq<Rational>, ys: Seq<Rational>) -> Seq<(int, int)> {
    permutations_spec(xs, ys).map_values(|p: ((Rational, Rational), (Rational, Rational))| slope_of(p))
}

/// The slope of every unordered pair of samples.  Fails with
/// `SingularMatrix` when two samples share a value-equal predictor (their
/// slope is undefined), and with `Unrepresentable` when an exact slope
/// does not fit the representation.
pub fn pairwise_slopes(predictors: &Vec<Rational>, outcomes: &Vec<Rational>) -> (r: Result<
    Vec<Rational>,
    RegressionError,
>)
    requires
        rationals_valid(predictors@),
        rationals_valid(outcomes@),
        predictors@.len() == outcomes@.len(),
    ensures
        r matches Ok(v) ==> {
            &&& rationals_valid(v@)
            &&& pointwise_eq(v@, slopes_spec(predictors@, outcomes@))
        },
        r == Err::<Vec<Rational>, RegressionError>(RegressionError::SingularMatrix) ==> exists|
            i: int,
            j: int,
        |
            0 <= i < j < predictors@.len() && rat_eq(
                (#[trigger] predictors@[i]).v(),
                (#[trigger] predictors@[j]).v(),
            ),
        r is Err ==> (r == Err::<Vec<Rational>, RegressionError>(RegressionError::SingularMatrix)
            || r == Err::<Vec<Rational>, RegressionError>(RegressionError::Unrepresentable)),
{
    let pairs = permutations(predictors, outcomes);
    let ghost pspec = permutations_spec(predictors@, outcomes@);
    let ghost sspec = slopes_spec(predictors@, outcomes@);
    let mut out: Vec<Rational> = Vec::new();
    let mut k: usize = 0;
    while k < pairs.len()
        invariant
            rationals_valid(predictors@),
            rationals_valid(outcomes@),
            predictors@.len() == outcomes@.len(),
            pairs@ == pspec,
            pspec == permutations_spec(predictors@, outcomes@),
            sspec == slopes_spec(predictors@, outcomes@),
            sspec.len() == pspec.len(),
            0 <= k <= pairs@.len(),
            out@.len() == k,
            rationals_valid(out@),
            forall|t: int| 0 <= t < k ==> rat_eq((#[trigger] out@[t]).v(), sspec[t]),
        decreases pairs@.len() - k,
    {
        let p = pairs[k];
        proof {
            lemma_pairs_from_elements(predictors@, outcomes@, 0, k as int);
        }
        let dx = match p.0.0.try_sub(&p.0.1) {
            Some(dx) => dx,
            None => {
                return Err(RegressionError::Unrepresentable);
            },
        };
        if dx.is_zero() {
            proof {
                let (i, j): (int, int) = choose|i: int, j: int|
                    {
                        &&& 0 <= i < j < predictors@.len()
                        &&& #[trigger] pairs_from(predictors@, outcomes@, 0)[k as int] == (
                            (predictors@[i], predictors@[j]),
                            (outcomes@[i], outcomes@[j]),
                        )
                    };
                assert(rat_eq(predictors@[i].v(), predictors@[j].v())) by (nonlinear_arith)
                    requires
                        rat_eq(dx.v(), rat_sub(predictors@[i].v(), predictors@[j].v())),
                        dx.v().0 == 0,
                        dx.v().1 >= 1,
                        predictors@[i].v().1 >= 1,
                        predictors@[j].v().1 >= 1,
                ;
            }
            return Err(RegressionError::SingularMatrix);
        }
        let dy = match p.1.0.try_sub(&p.1.1) {
            Some(dy) => dy,
            None => {
                return Err(RegressionError::Unrepresentable);
            },
        };
        let slope = match dy.try_div(&dx) {
            Some(slope) => slope,
            None => {
                return Err(RegressionError::Unrepresentable);
            },
        };
        proof {
            let (i, j): (int, int) = choose|i: int, j: int|
                {
                    &&& 0 <= i < j < predictors@.len()
                    &&& #[trigger] pairs_from(predictors@, outcomes@, 0)[k as int] == (
                        (predictors@[i], predictors@[j]),
                        (outcomes@[i], outcomes@[j]),
                    )
                };
            let sx = rat_sub(predictors@[i].v(), predictors@[j].v());
            let sy = rat_sub(outcomes@[i].v(), outcomes@[j].v());
            lemma_pos_mul(predictors@[i].v().1, predictors@[j].v().1);
            lemma_pos_mul(outcomes@[i].v().1, outcomes@[j].v().1);
            assert(sx.0 != 0) by (nonlinear_arith)
                requires
                    rat_eq(dx.v(), sx),
                    dx.v().0 != 0,
                    dx.v().1 >= 1,
                    sx.1 >= 1,
            ;
            lemma_rat_div_congruence(dy.v(), sy, dx.v(), sx);
            assert(rat_div(dy.v(), dx.v()).1 >= 1) by (nonlinear_arith)
                requires
                    dy.v().1 >= 1,
                    dx.v().1 >= 1,
                    dx.v().0 != 0,
            ;
            lemma_rat_eq_trans(slope.v(), rat_div(dy.v(), dx.v()), rat_div(sy, sx));
            assert(sspec[k as int] == slope_of(pspec[k as int]));
        }
        out.push(slope);
        k = k + 1;
    }
    Ok(out)
}

/// What the Theil-Sen estimator promises: the slope is the median of all
/// pairwise slopes, and the intercept is `median(y) - k * median(x)`.
pub open spec fn theil_sen_fits(
    xs: Seq<Rational>,
    ys: Seq<Rational>,
    k: Rational,
    m: Rational,
) -> bool {
    exists|raw: Seq<Rational>, mx: Rational, my: Rational|
        #![trigger raw.to_multiset(), mx.v(), my.v()]
        {
            &&& rationals_valid(raw)
            &&& pointwise_eq(raw, slopes_spec(xs, ys))
            &&& is_median_of(k, raw)
            &&& mx.valid() && is_median_of(mx, xs)
            &&& my.valid() && is_median_of(my, ys)
            &&& rat_eq(m.v(), rat_sub(my.v(), rat_mul(k.v(), mx.v())))
        }
}

/// Naive Theil-Sen implementation, checking every pair of samples.
/// Time and space O(n^2).  The slices must have the same length, at
/// least two.
pub fn slow_linear(predictors: &Vec<Rational>, outcomes: &Vec<Rational>) -> (r: Result<
    LinearCoefficients,
    RegressionError,
>)
    requires
        rationals_valid(predictors@),
        rationals_valid(outcomes@),
        predictors@.len() == outcomes@.len(),
        predictors@.len() >= 2,
    ensures
        r matches Ok(lc) ==> lc.wf() && theil_sen_fits(predictors@, outcomes@, lc.k, lc.m),
        r == Err::<LinearCoefficients, RegressionError>(RegressionError::SingularMatrix)
            ==> exists|i: int, j: int|
            0 <= i < j < predictors@.len() && rat_eq(
                (#[trigger] predictors@[i]).v(),
                (#[trigger] predictors@[j]).v(),
            ),
        r is Err ==> (r == Err::<LinearCoefficients, RegressionError>(
            RegressionError::SingularMatrix,
        ) || r == Err::<LinearCoefficients, RegressionError>(RegressionError::Unrepresentable)),
{
    let mut slopes = match pairwise_slopes(predictors, outcomes) {
        Ok(slopes) => slopes,
        Err(e) => {
            return Err(e);
        },
    };
    let ghost raw = slopes@;
    proof {
        // At least one pair exists, so the slope list is not empty.
        assert(pair_row(predictors@, outcomes@, 0).len() == predictors@.len() - 1);
        assert(pairs_from(predictors@, outcomes@, 0).len() >= predictors@.len() - 1);
    }
    let k_mv = median_values(&mut slopes);
    let k = match k_mv.resolve() {
        Some(k) => k,
        None => {
            return Err(RegressionError::Unrepresentable);
        },
    };
    proof {
        lemma_median_of_intro(k, raw, slopes@);
    }
    let mut xs_sorted = copy_values(predictors);
    let mx_mv = median_values(&mut xs_sorted);
    let mx = match mx_mv.resolve() {
        Some(mx) => mx,
        None => {
            return Err(RegressionError::Unrepresentable);
        },
    };
    proof {
        lemma_median_of_intro(mx, predictors@, xs_sorted@);
    }
    let mut ys_sorted = copy_values(outcomes);
    let my_mv = median_values(&mut ys_sorted);
    let my = match my_mv.resolve() {
        Some(my) => my,
        None => {
            return Err(RegressionError::Unrepresentable);
        },
    };
    proof {
        lemma_median_of_intro(my, outcomes@, ys_sorted@);
    }
    let scaled = match k.try_mul(&mx) {
        Some(scaled) => scaled,
        None => {
            return Err(RegressionError::Unrepresentable);
        },
    };
    let m = match my.try_sub(&scaled) {
        Some(m) => m,
        None => {
            return Err(RegressionError::Unrepresentable);
        },
    };
    proof {
        lemma_pos_mul(k.v().1, mx.v().1);
        lemma_rat_sub_congruence(my.v(), my.v(), scaled.v(), rat_mul(k.v(), mx.v()));
        lemma_pos_mul(my.v().1, scaled.v().1);
        lemma_rat_eq_trans(
            m.v(),
            rat_sub(my.v(), scaled.v()),
            rat_sub(my.v(), rat_mul(k.v(), mx.v())),
        );
        assert(theil_sen_fits(predictors@, outcomes@, k, m)) by {
            assert(rationals_valid(raw) && pointwise_eq(raw, slopes_spec(predictors@, outcomes@))
                && is_median_of(k, raw) && mx.valid() && is_median_of(mx, predictors@)
                && my.valid() && is_median_of(my, outcomes@) && rat_eq(
                m.v(),
                rat_sub(my.v(), rat_mul(k.v(), mx.v())),
            ));
        }
    }
    Ok(LinearCoefficients { k, m })
}

/// Linear estimation with the Theil-Sen estimator: robust against
/// outliers.
pub struct LinearTheilSen;

impl LinearEstimator for LinearTheilSen {
    open spec fn fits(&self, xs: Seq<Rational>, ys: Seq<Rational>, k: Rational, m: Rational) -> bool {
        theil_sen_fits(xs, ys, k, m)
    }

    fn model(&self, predictors: &Vec<Rational>, outcomes: &Vec<Rational>) -> (r: Result<
        LinearCoefficients,
        RegressionError,
    >) {
        slow_linear(predictors, outcomes)
    }
}

} // verus!
