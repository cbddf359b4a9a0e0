//! Power (`y = k * x^e`) and exponential (`y = k * b^x`) fits, derived
//! from a linear estimator by log-linearization.
//!
//! The transcendental steps live with the caller: it supplies the base-2
//! logarithms of the (offset) samples, and turns the fitted intercept and
//! slope back with `2^x`.  Everything rational is verified here: the
//! domain-correcting additive offsets (applied when a minimum is below
//! one, to keep logarithms defined), the linear fit on the transformed
//! data, and the bookkeeping back into coefficient form.  The offsetting
//! disproportionately compresses the influence of large values; that is a
//! known modeling bias of the approach, not a defect.

use vstd::prelude::*;

use crate::percentile::rationals_valid;
use crate::rational::{rat_add, rat_eq, rat_le, rat_lt, rat_sub, Rational};
use crate::regression::{LinearEstimator, RegressionError};

verus! {

/// The least value in the list (by value, not representation); `None`
/// exactly when the list is empty.
pub fn min_value(values: &Vec<Rational>) -> (r: Option<Rational>)
    requires
        rationals_valid(values@),
    ensures
        r is Some <==> values@.len() > 0,
        r matches Some(q) ==> {
            &&& q.valid()
            &&& exists|i: int| 0 <= i < values@.len() && (#[trigger] values@[i]) == q
            &&& forall|i: int| 0 <= i < values@.len() ==> rat_le(q.v(), (#[trigger] values@[i]).v())
        },
{
    if values.len() == 0 {
        return None;
    }
    let mut best = values[0];
    let mut i: usize = 1;
    while i < values.len()
        invariant
            rationals_valid(values@),
            1 <= i <= values@.len(),
            best.valid(),
            exists|j: int| 0 <= j < i && (#[trigger] values@[j]) == best,
            forall|j: int| 0 <= j < i ==> rat_le(best.v(), (#[trigger] values@[j]).v()),
        decreases values@.len() - i,
    {
        if values[i].lt(&best) {
            proof {
                assert forall|j: int| 0 <= j < i implies rat_le(
                    values@[i as int].v(),
                    (#[trigger] values@[j]).v(),
                ) by {
                    crate::rational::lemma_rat_lt_le_trans(
                        values@[i as int].v(),
                        best.v(),
                        values@[j].v(),
                    );
                }
            }
            best = values[i];
        } else {
            proof {
                // Not strictly below means at least the current best.
                assert(rat_le(best.v(), values@[i as int].v())) by (nonlinear_arith)
                    requires
                        !rat_lt(values@[i as int].v(), best.v()),
                        best.v().1 >= 1,
                        values@[i as int].v().1 >= 1,
                ;
            }
        }
        i = i + 1;
    }
    Some(best)
}

/// The additive offset for one side of a log-linearized fit: `1 - min`
/// when the least value is below one, nothing otherwise.  The outer
/// `None` comes exactly when the offset has no 64-bit representative.
pub fn log_domain_additive(min: &Rational) -> (r: Option<Option<Rational>>)
    requires
        min.valid(),
    ensures
        r matches Some(a) ==> {
            &&& (a is Some <==> rat_lt(min.v(), (1int, 1int)))
            &&& (a matches Some(q) ==> q.valid() && rat_eq(
                q.v(),
                rat_sub((1int, 1int), min.v()),
            ))
        },
        r is None ==> !crate::rational::representable(rat_sub((1int, 1int), min.v())),
{
    let one = Rational::one();
    if min.lt(&one) {
        match one.try_sub(min) {
            Some(q) => Some(Some(q)),
            None => None,
        }
    } else {
        Some(None)
    }
}

/// A power fit before the caller undoes the logarithm: the exponent `e`
/// is the slope of the linear fit on the log-log data, and `k` is two to
/// the `log2_k` (the intercept), which only the caller can compute.
#[derive(Debug, Clone, Copy)]
pub struct PowerFit {
    /// The exponent: the slope of the log-log fit.
    pub e: Rational,
    /// The base-2 logarithm of the constant `k`: the intercept.
    pub log2_k: Rational,
    /// The offset added to every predictor before taking logarithms.
    pub predictor_additive: Option<Rational>,
    /// The offset added to every outcome before taking logarithms.
    pub outcome_additive: Option<Rational>,
}

/// Coefficients of `y = k * (x + predictor_additive)^e - outcome_additive`.
#[derive(Debug, Clone, Copy)]
pub struct PowerCoefficients {
    /// The constant factor.
    pub k: Rational,
    /// The exponent.
    pub e: Rational,
    /// If the predictors needed an offset to remove values under one.
    pub predictor_additive: Option<Rational>,
    /// If the outcomes needed an offset to remove values under one.
    pub outcome_additive: Option<Rational>,
}

pub open spec fn option_valid(o: Option<Rational>) -> bool {
    o matches Some(q) ==> q.valid()
}

impl PowerFit {
    pub open spec fn wf(self) -> bool {
        self.e.valid() && self.log2_k.valid() && option_valid(self.predictor_additive)
            && option_valid(self.outcome_additive)
    }

    /// Attach the constant `k = 2^log2_k`, computed by the caller, to
    /// finish the power coefficients.
    pub fn with_k(self, k: Rational) -> (r: PowerCoefficients)
        ensures
            r.k == k,
            r.e == self.e,
            r.predictor_additive == self.predictor_additive,
            r.outcome_additive == self.outcome_additive,
    {
        PowerCoefficients {
            k,
            e: self.e,
            predictor_additive: self.predictor_additive,
            outcome_additive: self.outcome_additive,
        }
    }
}

impl PowerCoefficients {
    pub open spec fn wf(self) -> bool {
        self.k.valid() && self.e.valid() && option_valid(self.predictor_additive) && option_valid(
            self.outcome_additive,
        )
    }
}

/// An exponential fit before the caller undoes the logarithm: the base
/// `b` is two to the slope, the constant `k` two to the intercept.
#[derive(Debug, Clone, Copy)]
pub struct ExponentialFit {
    /// The base-2 logarithm of the base `b`: the slope.
    pub log2_b: Rational,
    /// The base-2 logarithm of the constant `k`: the intercept.
    pub log2_k: Rational,
    /// The offset added to every predictor.
    pub predictor_additive: Option<Rational>,
    /// The offset added to every outcome before taking logarithms.
    pub outcome_additive: Option<Rational>,
}

/// Coefficients of `y = k * b^(x + predictor_additive) - outcome_additive`.
#[derive(Debug, Clone, Copy)]
pub struct ExponentialCoefficients {
    /// The constant factor.
    pub k: Rational,
    /// The base.
    pub b: Rational,
    /// If the predictors needed an offset to remove values under one.
    pub predictor_additive: Option<Rational>,
    /// If the outcomes needed an offset to remove values under one.
    pub outcome_additive: Option<Rational>,
}

impl ExponentialFit {
    pub open spec fn wf(self) -> bool {
        self.log2_b.valid() && self.log2_k.valid() && option_valid(self.predictor_additive)
            && option_valid(self.outcome_additive)
    }

    /// Attach `k = 2^log2_k` and `b = 2^log2_b`, computed by the caller,
    /// to finish the exponential coefficients.
    pub fn with_k_b(self, k: Rational, b: Rational) -> (r: ExponentialCoefficients)
        ensures
            r.k == k,
            r.b == b,
            r.predictor_additive == self.predictor_additive,
            r.outcome_additive == self.outcome_additive,
    {
        ExponentialCoefficients {
            k,
            b,
            predictor_additive: self.predictor_additive,
            outcome_additive: self.outcome_additive,
        }
    }
}

impl ExponentialCoefficients {
    pub open spec fn wf(self) -> bool {
        self.k.valid() && self.b.valid() && option_valid(self.predictor_additive) && option_valid(
            self.outcome_additive,
        )
    }
}

/// Fit `y = k * x^e` from log-log-transformed samples: the caller has
/// taken base-2 logarithms of the (offset) predictors and outcomes; the
/// linear estimator runs on those, the slope becomes the exponent and the
/// intercept the base-2 logarithm of `k`.  More than two samples are
/// required.
pub fn power_from_log2<E: LinearEstimator>(
    log_predictors: &Vec<Rational>,
    log_outcomes: &Vec<Rational>,
    predictor_additive: Option<Rational>,
    outcome_additive: Option<Rational>,
    estimator: &E,
) -> (r: Result<PowerFit, RegressionError>)
    requires
        rationals_valid(log_predictors@),
        rationals_valid(log_outcomes@),
        log_predictors@.len() == log_outcomes@.len(),
        log_predictors@.len() > 2,
        option_valid(predictor_additive),
        option_valid(outcome_additive),
    ensures
        r matches Ok(f) ==> {
            &&& f.wf()
            &&& estimator.fits(log_predictors@, log_outcomes@, f.e, f.log2_k)
            &&& f.predictor_additive == predictor_additive
            &&& f.outcome_additive == outcome_additive
        },
        r is Err ==> (r == Err::<PowerFit, RegressionError>(RegressionError::SingularMatrix) || r
            == Err::<PowerFit, RegressionError>(RegressionError::Unrepresentable)),
{
    let coefficients = match estimator.model(log_predictors, log_outcomes) {
        Ok(c) => c,
        Err(e) => {
            return Err(e);
        },
    };
    Ok(
        PowerFit {
            e: coefficients.k,
            log2_k: coefficients.m,
            predictor_additive,
            outcome_additive,
        },
    )
}

/// Fit `y = k * b^x` from outcome-log-transformed samples: the caller has
/// taken base-2 logarithms of the (offset) outcomes; this applies the
/// predictor offset itself, runs the linear estimator, and the slope
/// becomes the base-2 logarithm of `b`, the intercept that of `k`.  More
/// than two samples are required.
pub fn exponential_from_log2<E: LinearEstimator>(
    predictors: &Vec<Rational>,
    log_outcomes: &Vec<Rational>,
    predictor_additive: Option<Rational>,
    outcome_additive: Option<Rational>,
    estimator: &E,
) -> (r: Result<ExponentialFit, RegressionError>)
    requires
        rationals_valid(predictors@),
        rationals_valid(log_outcomes@),
        predictors@.len() == log_outcomes@.len(),
        predictors@.len() > 2,
        option_valid(predictor_additive),
        option_valid(outcome_additive),
    ensures
        r matches Ok(f) ==> {
            &&& f.wf()
            &&& exists|shifted: Seq<Rational>|
                {
                    &&& #[trigger] shifted.len() == predictors@.len()
                    &&& rationals_valid(shifted)
                    &&& forall|i: int|
                        0 <= i < shifted.len() ==> rat_eq(
                            (#[trigger] shifted[i]).v(),
                            match predictor_additive {
                                Some(a) => rat_add(predictors@[i].v(), a.v()),
                                None => predictors@[i].v(),
                            },
                        )
                    &&& estimator.fits(shifted, log_outcomes@, f.log2_b, f.log2_k)
                }
            &&& f.predictor_additive == predictor_additive
            &&& f.outcome_additive == outcome_additive
        },
        r is Err ==> (r == Err::<ExponentialFit, RegressionError>(RegressionError::SingularMatrix)
            || r == Err::<ExponentialFit, RegressionError>(RegressionError::Unrepresentable)),
{
    let mut shifted: Vec<Rational> = Vec::new();
    let mut i: usize = 0;
    while i < predictors.len()
        invariant
            rationals_valid(predictors@),
            option_valid(predictor_additive),
            0 <= i <= predictors@.len(),
            shifted@.len() == i,
            rationals_valid(shifted@),
            forall|j: int|
                0 <= j < shifted@.len() ==> rat_eq(
                    (#[trigger] shifted@[j]).v(),
                    match predictor_additive {
                        Some(a) => rat_add(predictors@[j].v(), a.v()),
                        None => predictors@[j].v(),
                    },
                ),
        decreases predictors@.len() - i,
    {
        let next = match predictor_additive {
            Some(a) => {
                match predictors[i].try_add(&a) {
                    Some(next) => next,
                    None => {
                        return Err(RegressionError::Unrepresentable);
                    },
                }
            },
            None => predictors[i],
        };
        shifted.push(next);
        i = i + 1;
    }
    let coefficients = match estimator.model(&shifted, log_outcomes) {
        Ok(c) => c,
        Err(e) => {
            return Err(e);
        },
    };
    Ok(
        ExponentialFit {
            log2_b: coefficients.k,
            log2_k: coefficients.m,
            predictor_additive,
            outcome_additive,
        },
    )
}

} // verus!
