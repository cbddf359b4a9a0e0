use std_dev::percentile::{median_values, sort_values};
use std_dev::regression::derived::{log_domain_additive, min_value, power_from_log2};
use std_dev::regression::ols::{polynomial, LinearOls};
use std_dev::regression::selection::{best_fit, DynModel, PowerEvaluation};
use std_dev::regression::theil_sen::{pairwise_slopes, permutations, slow_linear, LinearTheilSen};
use std_dev::regression::{
    best_fit_ols, determination_of, LinearEstimator, RegressionError,
};
use std_dev::{MeanValue, Rational};

fn r(n: i64, d: i64) -> Rational {
    Rational::new(n, d).unwrap()
}

fn ri(n: i64) -> Rational {
    Rational::new(n, 1).unwrap()
}

fn rvec(values: &[i64]) -> Vec<Rational> {
    values.iter().map(|&v| ri(v)).collect()
}

#[test]
fn ols_recovers_collinear_line_exactly() {
    // (1,2), (2,4), (3,6): y = 2x exactly.
    let x = rvec(&[1, 2, 3]);
    let y = rvec(&[2, 4, 6]);
    let lc = LinearOls.model(&x, &y).unwrap();
    assert!(lc.k.eq_value(&ri(2)));
    assert!(lc.m.eq_value(&ri(0)));
}

#[test]
fn ols_polynomial_fits_parabola_exactly() {
    // y = x^2 + 1 on x in 0..=3.
    let x = rvec(&[0, 1, 2, 3]);
    let y = rvec(&[1, 2, 5, 10]);
    let pc = polynomial(&x, &y, 2).unwrap();
    assert_eq!(pc.len(), 3);
    assert!(pc.coefficient(0).eq_value(&ri(1)));
    assert!(pc.coefficient(1).eq_value(&ri(0)));
    assert!(pc.coefficient(2).eq_value(&ri(1)));
    let at = pc.predict_outcome(&ri(5)).unwrap();
    assert!(at.eq_value(&ri(26)));
}

#[test]
fn ols_rejects_degenerate_predictors() {
    let x = rvec(&[1, 1, 1]);
    let y = rvec(&[1, 2, 3]);
    assert_eq!(
        LinearOls.model(&x, &y).unwrap_err(),
        RegressionError::SingularMatrix
    );
}

#[test]
fn power_fit_recovers_square_law_exactly() {
    // (1,2), (2,8), (4,32): y = 2 * x^2.  The base-2 logarithms of these
    // samples are exact integers, so the whole fit is exact.
    let log_x = rvec(&[0, 1, 2]);
    let log_y = rvec(&[1, 3, 5]);
    let fit = power_from_log2(&log_x, &log_y, None, None, &LinearOls).unwrap();
    assert!(fit.e.eq_value(&ri(2)));
    assert!(fit.log2_k.eq_value(&ri(1)));
    let coefficients = fit.with_k(ri(2));
    assert!(coefficients.k.eq_value(&ri(2)));
    assert!(coefficients.e.eq_value(&ri(2)));
}

#[test]
fn theil_sen_shrugs_off_outlier_where_ols_is_pulled() {
    // y = x, except the last sample is wildly corrupted.
    let x = rvec(&[0, 1, 2, 3, 4, 5, 6, 7, 8, 9]);
    let mut y = rvec(&[0, 1, 2, 3, 4, 5, 6, 7, 8]);
    y.push(ri(100));
    let robust = slow_linear(&x, &y).unwrap();
    assert!(robust.k.eq_value(&ri(1)));
    assert!(robust.m.eq_value(&ri(0)));
    let pulled = LinearOls.model(&x, &y).unwrap();
    // The plain least-squares slope is pulled far from 1 (it is 4920/825).
    assert!(ri(5).lt(&pulled.k));
    let through_trait = LinearTheilSen.model(&x, &y).unwrap();
    assert!(through_trait.k.eq_value(&ri(1)));
}

#[test]
fn pairwise_slopes_reports_equal_predictors() {
    let x = rvec(&[1, 1, 2]);
    let y = rvec(&[1, 2, 3]);
    assert_eq!(
        pairwise_slopes(&x, &y).unwrap_err(),
        RegressionError::SingularMatrix
    );
}

#[test]
fn permutations_yields_all_pairs_in_row_order() {
    let s1 = rvec(&[1, 2, 3]);
    let s2 = rvec(&[4, 5, 6]);
    let pairs = permutations(&s1, &s2);
    assert_eq!(pairs.len(), 3);
    assert!(pairs[0].0 .0.eq_value(&ri(1)) && pairs[0].0 .1.eq_value(&ri(2)));
    assert!(pairs[0].1 .0.eq_value(&ri(4)) && pairs[0].1 .1.eq_value(&ri(5)));
    assert!(pairs[1].0 .0.eq_value(&ri(1)) && pairs[1].0 .1.eq_value(&ri(3)));
    assert!(pairs[1].1 .0.eq_value(&ri(4)) && pairs[1].1 .1.eq_value(&ri(6)));
    assert!(pairs[2].0 .0.eq_value(&ri(2)) && pairs[2].0 .1.eq_value(&ri(3)));
    assert!(pairs[2].1 .0.eq_value(&ri(5)) && pairs[2].1 .1.eq_value(&ri(6)));
}

#[test]
fn determination_of_perfect_fit_is_one() {
    let outcomes = rvec(&[1, 2, 3]);
    let predictions = rvec(&[1, 2, 3]);
    let rsq = determination_of(&predictions, &outcomes).unwrap();
    assert!(rsq.eq_value(&ri(1)));
}

#[test]
fn determination_of_constant_outcomes_is_zero_variance() {
    let outcomes = rvec(&[5, 5, 5]);
    let predictions = rvec(&[4, 5, 6]);
    assert_eq!(
        determination_of(&predictions, &outcomes).unwrap_err(),
        RegressionError::ZeroVariance
    );
}

#[test]
fn determination_of_huge_values_is_unrepresentable() {
    let big = i64::MAX - 1;
    let outcomes = vec![ri(big), ri(big - 1), ri(big - 2)];
    let predictions = rvec(&[1, 2, 3]);
    assert_eq!(
        determination_of(&predictions, &outcomes).unwrap_err(),
        RegressionError::Unrepresentable
    );
}

#[test]
fn best_fit_always_returns_a_model_via_linear_fallback() {
    // Three samples: no polynomial guard admits anything, no power or
    // exponential evaluation is given, yet a model comes out.
    let x = rvec(&[1, 2, 3]);
    let y = rvec(&[2, 4, 6]);
    let (model, raw) = best_fit_ols(&x, &y).unwrap();
    match model {
        DynModel::Linear(lc) => {
            assert!(lc.k.eq_value(&ri(2)));
            assert!(lc.m.eq_value(&ri(0)));
        },
        _ => panic!("the linear fallback must win here"),
    }
    assert!(raw.eq_value(&ri(1)));
}

#[test]
fn best_fit_prefers_supplied_power_candidate_on_power_data() {
    // y = 2 * x^2 on x = 1, 2, 4: the power candidate reproduces the
    // outcomes exactly and its bumped score beats the linear fit.
    let x = vec![ri(1), ri(2), ri(4)];
    let y = vec![ri(2), ri(8), ri(32)];
    let log_x = rvec(&[0, 1, 2]);
    let log_y = rvec(&[1, 3, 5]);
    let fit = power_from_log2(&log_x, &log_y, None, None, &LinearOls).unwrap();
    let coefficients = fit.with_k(ri(2));
    let power_eval = PowerEvaluation {
        coefficients,
        predictions: vec![ri(2), ri(8), ri(32)],
    };
    let (model, raw) = best_fit(&x, &y, &LinearOls, Some(power_eval), None).unwrap();
    match model {
        DynModel::Power(pc) => {
            assert!(pc.k.eq_value(&ri(2)));
            assert!(pc.e.eq_value(&ri(2)));
        },
        _ => panic!("the power candidate must win here"),
    }
    assert!(raw.eq_value(&ri(1)));
}

#[test]
fn min_value_and_additive_gate() {
    let values = vec![r(1, 2), ri(3), ri(1)];
    let least = min_value(&values).unwrap();
    assert!(least.eq_value(&r(1, 2)));
    let additive = log_domain_additive(&least).unwrap();
    assert!(additive.unwrap().eq_value(&r(1, 2)));
    let no_offset = log_domain_additive(&ri(1)).unwrap();
    assert!(no_offset.is_none());
}

#[test]
fn median_values_sorts_and_averages() {
    let mut values = vec![ri(3), ri(1), ri(2), ri(4)];
    let mv = median_values(&mut values);
    match mv {
        MeanValue::Mean(a, b) => {
            assert!(a.eq_value(&ri(2)));
            assert!(b.eq_value(&ri(3)));
        },
        _ => panic!("even count must average the two middle values"),
    }
    let mut odd = vec![ri(9), ri(1), ri(5)];
    let mv = median_values(&mut odd);
    match mv {
        MeanValue::Single(v) => assert!(v.eq_value(&ri(5))),
        _ => panic!("odd count must pick the middle value"),
    }
}

#[test]
fn sort_values_orders_ascending() {
    let mut values = vec![r(1, 2), ri(-1), r(1, 3)];
    sort_values(&mut values);
    assert!(values[0].eq_value(&ri(-1)));
    assert!(values[1].eq_value(&r(1, 3)));
    assert!(values[2].eq_value(&r(1, 2)));
}

#[test]
fn best_fit_admits_second_degree_polynomial_past_fifteen_samples() {
    // y = x^2 on sixteen samples: the quadratic candidate reproduces the
    // data exactly and beats the linear fit.
    let x: Vec<Rational> = (1..=16).map(ri).collect();
    let y: Vec<Rational> = (1..=16).map(|v| ri(v * v)).collect();
    let (model, raw) = best_fit_ols(&x, &y).unwrap();
    match model {
        DynModel::Polynomial(pc) => {
            assert_eq!(pc.len(), 3);
            assert!(pc.coefficient(2).eq_value(&ri(1)));
            assert!(pc.coefficient(1).eq_value(&ri(0)));
            assert!(pc.coefficient(0).eq_value(&ri(0)));
        },
        _ => panic!("the quadratic candidate must win here"),
    }
    assert!(raw.eq_value(&ri(1)));
}

#[test]
fn best_fit_winner_renders_its_equation() {
    let x = rvec(&[1, 2, 3]);
    let y = rvec(&[2, 4, 6]);
    let (model, _) = best_fit_ols(&x, &y).unwrap();
    assert_eq!(model.equation(2), "2.00x + 0.00");
}
