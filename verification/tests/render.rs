use std_dev::regression::derived::{ExponentialCoefficients, PowerCoefficients};
use std_dev::regression::ols::polynomial;
use std_dev::regression::LinearCoefficients;
use std_dev::render::render;
use std_dev::Rational;

fn r(n: i64, d: i64) -> Rational {
    Rational::new(n, d).unwrap()
}

fn ri(n: i64) -> Rational {
    Rational::new(n, 1).unwrap()
}

#[test]
fn render_decimal_digits() {
    assert_eq!(render(&r(3, 2), 2), "1.50");
    assert_eq!(render(&r(-3, 2), 2), "-1.50");
    assert_eq!(render(&ri(42), 0), "42");
    assert_eq!(render(&r(1, 3), 5), "0.33333");
    assert_eq!(render(&r(22, 7), 3), "3.142");
}

#[test]
fn linear_equation_rendering() {
    let lc = LinearCoefficients { k: ri(2), m: ri(-3) };
    assert_eq!(lc.equation(2), "2.00x + -3.00");
}

#[test]
fn polynomial_equation_rendering() {
    // y = x^2 + 2x + 0 fitted from exact samples.
    let x: Vec<Rational> = [0i64, 1, 2, 3].iter().map(|&v| ri(v)).collect();
    let y: Vec<Rational> = [0i64, 3, 8, 15].iter().map(|&v| ri(v)).collect();
    let pc = polynomial(&x, &y, 2).unwrap();
    assert_eq!(pc.equation(2), "1.00x^2 + 2.00x + 0.00");
}

#[test]
fn polynomial_equation_renders_negative_terms() {
    let x: Vec<Rational> = [0i64, 1, 2].iter().map(|&v| ri(v)).collect();
    let y: Vec<Rational> = [1i64, 0, -1].iter().map(|&v| ri(v)).collect();
    let pc = polynomial(&x, &y, 1).unwrap();
    assert_eq!(pc.equation(2), "-1.00x + 1.00");
}

#[test]
fn power_equation_rendering() {
    let pc = PowerCoefficients {
        k: ri(2),
        e: ri(2),
        predictor_additive: None,
        outcome_additive: None,
    };
    assert_eq!(pc.equation(2), "2.00 * x^2.00");
    let offset = PowerCoefficients {
        k: ri(2),
        e: ri(2),
        predictor_additive: Some(r(1, 2)),
        outcome_additive: Some(ri(3)),
    };
    assert_eq!(offset.equation(2), "2.00 * (x + 0.50)^2.00 - 3.00");
}

#[test]
fn exponential_equation_rendering() {
    let ec = ExponentialCoefficients {
        k: ri(3),
        b: ri(2),
        predictor_additive: None,
        outcome_additive: None,
    };
    assert_eq!(ec.equation(2), "3.00 * 2.00^x");
}
