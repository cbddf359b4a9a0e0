//! Human-readable equation rendering.
//!
//! Every model renders to a plain string, with each rational written in
//! decimal at a chosen precision, rounded toward zero.  The exact digit
//! sequences are pinned down by the specifications here.

use vstd::prelude::*;

use crate::rational::{rat_neg, Rational};
use crate::regression::derived::{ExponentialCoefficients, PowerCoefficients};
use crate::regression::ols::PolynomialCoefficients;
use crate::regression::selection::DynModel;
use crate::regression::LinearCoefficients;

verus! {

/// The character of one decimal digit.
pub open spec fn digit_char(d: int) -> char {
    if d == 0 {
        '0'
    } else if d == 1 {
        '1'
    } else if d == 2 {
        '2'
    } else if d == 3 {
        '3'
    } else if d == 4 {
        '4'
    } else if d == 5 {
        '5'
    } else if d == 6 {
        '6'
    } else if d == 7 {
        '7'
    } else if d == 8 {
        '8'
    } else {
        '9'
    }
}

/// The decimal digits of a natural number, most significant first.
pub open spec fn dec_digits(n: nat) -> Seq<char>
    decreases n,
{
    if n < 10 {
        seq![digit_char(n as int)]
    } else {
        dec_digits(n / 10) + seq![digit_char((n % 10) as int)]
    }
}

/// Exactly `p` decimal digits of `n`, zero-padded, most significant
/// first (only the lowest `p` digits of `n` appear).
pub open spec fn dec_frac(n: nat, p: nat) -> Seq<char>
    decreases p,
{
    if p == 0 {
        Seq::empty()
    } else {
        dec_frac(n / 10, (p - 1) as nat) + seq![digit_char((n % 10) as int)]
    }
}

pub open spec fn pow10(p: nat) -> nat
    decreases p,
{
    if p == 0 {
        1
    } else {
        10 * pow10((p - 1) as nat)
    }
}

/// The decimal rendering of a rational at precision `p`, rounded toward
/// zero: an optional minus sign, the integer digits, and for positive `p`
/// a point and exactly `p` fractional digits.
pub open spec fn render_spec(v: (int, int), p: nat) -> Seq<char> {
    let mag = if v.0 < 0 {
        -v.0
    } else {
        v.0
    };
    let scaled = mag * pow10(p) / v.1;
    let q = scaled / pow10(p) as int;
    let f = scaled % pow10(p) as int;
    (if v.0 < 0 {
        seq!['-']
    } else {
        Seq::empty()
    }) + dec_digits(q as nat) + (if p > 0 {
        seq!['.'] + dec_frac(f as nat, p)
    } else {
        Seq::empty()
    })
}

/// The one-character string of a decimal digit.
fn digit_str(d: u128) -> (r: &'static str)
    requires
        d < 10,
    ensures
        r@ == seq![digit_char(d as int)],
{
    proof {
        reveal_strlit("0");
        reveal_strlit("1");
        reveal_strlit("2");
        reveal_strlit("3");
        reveal_strlit("4");
        reveal_strlit("5");
        reveal_strlit("6");
        reveal_strlit("7");
        reveal_strlit("8");
        reveal_strlit("9");
    }
    if d == 0 {
        "0"
    } else if d == 1 {
        "1"
    } else if d == 2 {
        "2"
    } else if d == 3 {
        "3"
    } else if d == 4 {
        "4"
    } else if d == 5 {
        "5"
    } else if d == 6 {
        "6"
    } else if d == 7 {
        "7"
    } else if d == 8 {
        "8"
    } else {
        "9"
    }
}

/// Append the decimal digits of `n`.
fn push_dec_digits(n: u128, out: &mut String)
    ensures
        final (out)@ == old(out)@ + dec_digits(n as nat),
    decreases n,
{
    if n >= 10 {
        proof {
            vstd::arithmetic::div_mod::lemma_div_is_strictly_smaller(n as int, 10);
        }
        push_dec_digits(n / 10, out);
        let ghost mid = out@;
        out.append(digit_str(n % 10));
        proof {
            assert(out@ =~= old(out)@ + dec_digits(n as nat));
        }
    } else {
        out.append(digit_str(n));
        proof {
            assert(out@ =~= old(out)@ + dec_digits(n as nat));
        }
    }
}

/// Append exactly `p` zero-padded low decimal digits of `n`.
fn push_dec_frac(n: u128, p: usize, out: &mut String)
    ensures
        final (out)@ == old(out)@ + dec_frac(n as nat, p as nat),
    decreases p,
{
    if p == 0 {
        proof {
            assert(out@ =~= old(out)@ + dec_frac(n as nat, 0));
        }
        return ;
    }
    push_dec_frac(n / 10, p - 1, out);
    out.append(digit_str(n % 10));
    proof {
        assert(out@ =~= old(out)@ + dec_frac(n as nat, p as nat));
    }
}

/// `10^p` as an integer, for precisions up to 18.
fn pow10_exec(p: usize) -> (r: u128)
    requires
        p <= 18,
    ensures
        r == pow10(p as nat),
        r <= 1_000_000_000_000_000_000,
{
    let mut acc: u128 = 1;
    let mut i: usize = 0;
    proof {
        lemma_pow10_bound(p as nat);
    }
    while i < p
        invariant
            0 <= i <= p <= 18,
            acc == pow10(i as nat),
            pow10(p as nat) <= 1_000_000_000_000_000_000,
        decreases p - i,
    {
        proof {
            lemma_pow10_monotonic(i as nat + 1, p as nat);
        }
        acc = acc * 10;
        i = i + 1;
    }
    acc
}

proof fn lemma_pow10_bound(p: nat)
    requires
        p <= 18,
    ensures
        pow10(p) <= 1_000_000_000_000_000_000,
    decreases p,
{
    if p > 0 {
        lemma_pow10_bound((p - 1) as nat);
        lemma_pow10_exact(p);
    }
}

proof fn lemma_pow10_exact(p: nat)
    requires
        p <= 18,
    ensures
        pow10(p) <= pow10(18),
        pow10(18) == 1_000_000_000_000_000_000,
{
    lemma_pow10_monotonic(p, 18);
    assert(pow10(18) == 1_000_000_000_000_000_000) by {
        reveal_with_fuel(pow10, 19);
    }
}

proof fn lemma_pow10_monotonic(a: nat, b: nat)
    requires
        a <= b,
    ensures
        pow10(a) <= pow10(b),
        pow10(a) >= 1,
    decreases b,
{
    if a == b {
        lemma_pow10_positive(a);
    } else {
        lemma_pow10_monotonic(a, (b - 1) as nat);
        lemma_pow10_positive((b - 1) as nat);
    }
}

proof fn lemma_pow10_positive(p: nat)
    ensures
        pow10(p) >= 1,
    decreases p,
{
    if p > 0 {
        lemma_pow10_positive((p - 1) as nat);
    }
}

/// Render a rational in decimal at the given precision (fractional
/// digits), rounded toward zero.
pub fn render(value: &Rational, precision: usize) -> (r: String)
    requires
        value.valid(),
        precision <= 18,
    ensures
        r@ == render_spec(value.v(), precision as nat),
{
    let num = value.numerator();
    let den = value.denominator();
    let neg: bool = num < 0;
    let mag: u64 = if neg {
        (-num) as u64
    } else {
        num as u64
    };
    let pw: u128 = pow10_exec(precision);
    proof {
        assert((mag as int) * (pw as int) < 0x1_0000_0000_0000_0000_0000_0000_0000_0000int)
            by (nonlinear_arith)
            requires
                0 <= (mag as int) && (mag as int) < 0x1_0000_0000_0000_0000,
                pw <= 1_000_000_000_000_000_000,
        ;
    }
    let scaled: u128 = (mag as u128) * pw / (den as u128);
    proof {
        lemma_pow10_positive(precision as nat);
        vstd::arithmetic::div_mod::lemma_div_is_ordered_by_denominator(
            ((mag as u128) * pw) as int,
            1,
            den as int,
        );
    }
    let q: u128 = scaled / pw;
    let f: u128 = scaled % pw;
    let mut out = String::new();
    if neg {
        proof {
            reveal_strlit("-");
        }
        out.append("-");
    }
    push_dec_digits(q, &mut out);
    if precision > 0 {
        proof {
            reveal_strlit(".");
        }
        out.append(".");
        push_dec_frac(f, precision, &mut out);
        proof {
            assert(out@ =~= render_spec(value.v(), precision as nat));
        }
    } else {
        proof {
            assert(out@ =~= render_spec(value.v(), precision as nat));
        }
    }
    out
}

/// The rendering of the predictor side: plain `x`, or `(x + a)` when an
/// additive offset applies.
pub open spec fn additive_x_spec(pa: Option<Rational>, p: nat) -> Seq<char> {
    match pa {
        None => "x"@,
        Some(a) => "(x + "@ + render_spec(a.v(), p) + ")"@,
    }
}

/// The rendering of the outcome offset: nothing, or ` - a`.
pub open spec fn outcome_suffix_spec(oa: Option<Rational>, p: nat) -> Seq<char> {
    match oa {
        None => Seq::empty(),
        Some(a) => " - "@ + render_spec(a.v(), p),
    }
}

/// `kx + m`.
pub open spec fn linear_equation_spec(k: (int, int), m: (int, int), p: nat) -> Seq<char> {
    render_spec(k, p) + "x + "@ + render_spec(m, p)
}

/// `k * x^e`, with the offsets where they apply.
pub open spec fn power_equation_spec(pc: PowerCoefficients, p: nat) -> Seq<char> {
    render_spec(pc.k.v(), p) + " * "@ + additive_x_spec(pc.predictor_additive, p) + "^"@
        + render_spec(pc.e.v(), p) + outcome_suffix_spec(pc.outcome_additive, p)
}

/// `k * b^x`, with the offsets where they apply.
pub open spec fn exponential_equation_spec(ec: ExponentialCoefficients, p: nat) -> Seq<char> {
    render_spec(ec.k.v(), p) + " * "@ + render_spec(ec.b.v(), p) + "^"@ + additive_x_spec(
        ec.predictor_additive,
        p,
    ) + outcome_suffix_spec(ec.outcome_additive, p)
}

/// One polynomial term `c`, `cx` or `cx^d`.
pub open spec fn poly_term_spec(v: (int, int), d: nat, p: nat) -> Seq<char> {
    render_spec(v, p) + (if d == 0 {
        Seq::<char>::empty()
    } else if d == 1 {
        "x"@
    } else {
        "x^"@ + dec_digits(d)
    })
}

/// A continuation term with its sign written as a separator.
pub open spec fn poly_sep_term_spec(v: (int, int), d: nat, p: nat) -> Seq<char> {
    if v.0 >= 0 {
        " + "@ + poly_term_spec(v, d, p)
    } else {
        " - "@ + poly_term_spec(rat_neg(v), d, p)
    }
}

/// The terms of degrees `j - 1` down to zero, each with its separator.
pub open spec fn poly_rest_spec(c: Seq<(int, int)>, j: int, p: nat) -> Seq<char>
    decreases j,
{
    if j <= 0 {
        Seq::empty()
    } else {
        poly_sep_term_spec(c[j - 1], (j - 1) as nat, p) + poly_rest_spec(c, j - 1, p)
    }
}

/// The whole polynomial, highest degree first; the leading term carries
/// its own sign, every later one a ` + ` or ` - ` separator.
pub open spec fn poly_equation_spec(c: Seq<(int, int)>, p: nat) -> Seq<char> {
    if c.len() == 0 {
        Seq::empty()
    } else {
        poly_term_spec(c.last(), (c.len() - 1) as nat, p) + poly_rest_spec(c, c.len() - 1, p)
    }
}

/// Append one term `v`, `vx` or `vx^d`.
fn push_term(v: &Rational, d: usize, precision: usize, out: &mut String)
    requires
        v.valid(),
        precision <= 18,
    ensures
        final (out)@ == old(out)@ + poly_term_spec(v.v(), d as nat, precision as nat),
{
    let rendered = render(v, precision);
    out.append(rendered.as_str());
    if d == 1 {
        proof {
            reveal_strlit("x");
        }
        out.append("x");
        proof {
            assert(out@ =~= old(out)@ + poly_term_spec(v.v(), d as nat, precision as nat));
        }
    } else if d > 1 {
        proof {
            reveal_strlit("x^");
        }
        out.append("x^");
        push_dec_digits(d as u128, out);
        proof {
            assert(out@ =~= old(out)@ + poly_term_spec(v.v(), d as nat, precision as nat));
        }
    } else {
        proof {
            assert(out@ =~= old(out)@ + poly_term_spec(v.v(), d as nat, precision as nat));
        }
    }
}

impl LinearCoefficients {
    /// The equation `kx + m`, with both coefficients in decimal at the
    /// given precision.
    pub fn equation(&self, precision: usize) -> (r: String)
        requires
            self.wf(),
            precision <= 18,
        ensures
            r@ == linear_equation_spec(self.k.v(), self.m.v(), precision as nat),
    {
        let mut out = render(&self.k, precision);
        proof {
            reveal_strlit("x + ");
        }
        out.append("x + ");
        let m = render(&self.m, precision);
        out.append(m.as_str());
        proof {
            assert(out@ =~= linear_equation_spec(self.k.v(), self.m.v(), precision as nat));
        }
        out
    }
}

/// Append the predictor side: `x`, or `(x + a)`.
fn push_additive_x(pa: &Option<Rational>, precision: usize, out: &mut String)
    requires
        crate::regression::derived::option_valid(*pa),
        precision <= 18,
    ensures
        final (out)@ == old(out)@ + additive_x_spec(*pa, precision as nat),
{
    match pa {
        None => {
            proof {
                reveal_strlit("x");
            }
            out.append("x");
            proof {
                assert(out@ =~= old(out)@ + additive_x_spec(*pa, precision as nat));
            }
        },
        Some(a) => {
            proof {
                reveal_strlit("(x + ");
                reveal_strlit(")");
            }
            out.append("(x + ");
            let rendered = render(a, precision);
            out.append(rendered.as_str());
            out.append(")");
            proof {
                assert(out@ =~= old(out)@ + additive_x_spec(*pa, precision as nat));
            }
        },
    }
}

/// Append the outcome offset: nothing, or ` - a`.
fn push_outcome_suffix(oa: &Option<Rational>, precision: usize, out: &mut String)
    requires
        crate::regression::derived::option_valid(*oa),
        precision <= 18,
    ensures
        final (out)@ == old(out)@ + outcome_suffix_spec(*oa, precision as nat),
{
    match oa {
        None => {
            proof {
                assert(out@ =~= old(out)@ + outcome_suffix_spec(*oa, precision as nat));
            }
        },
        Some(a) => {
            proof {
                reveal_strlit(" - ");
            }
            out.append(" - ");
            let rendered = render(a, precision);
            out.append(rendered.as_str());
            proof {
                assert(out@ =~= old(out)@ + outcome_suffix_spec(*oa, precision as nat));
            }
        },
    }
}

impl PowerCoefficients {
    /// The equation `k * x^e`, offsets included where they apply.
    pub fn equation(&self, precision: usize) -> (r: String)
        requires
            self.wf(),
            precision <= 18,
        ensures
            r@ == power_equation_spec(*self, precision as nat),
    {
        let mut out = render(&self.k, precision);
        proof {
            reveal_strlit(" * ");
            reveal_strlit("^");
        }
        out.append(" * ");
        push_additive_x(&self.predictor_additive, precision, &mut out);
        out.append("^");
        let e = render(&self.e, precision);
        out.append(e.as_str());
        push_outcome_suffix(&self.outcome_additive, precision, &mut out);
        proof {
            assert(out@ =~= power_equation_spec(*self, precision as nat));
        }
        out
    }
}

impl ExponentialCoefficients {
    /// The equation `k * b^x`, offsets included where they apply.
    pub fn equation(&self, precision: usize) -> (r: String)
        requires
            self.wf(),
            precision <= 18,
        ensures
            r@ == exponential_equation_spec(*self, precision as nat),
    {
        let mut out = render(&self.k, precision);
        proof {
            reveal_strlit(" * ");
            reveal_strlit("^");
        }
        out.append(" * ");
        let b = render(&self.b, precision);
        out.append(b.as_str());
        out.append("^");
        push_additive_x(&self.predictor_additive, precision, &mut out);
        push_outcome_suffix(&self.outcome_additive, precision, &mut out);
        proof {
            assert(out@ =~= exponential_equation_spec(*self, precision as nat));
        }
        out
    }
}

impl PolynomialCoefficients {
    /// The equation, highest degree first: `ax^2 + bx + c` and the like,
    /// each coefficient in decimal at the given precision.
    pub fn equation(&self, precision: usize) -> (r: String)
        requires
            self.wf(),
            self.coeffs().len() >= 1,
            precision <= 18,
        ensures
            r@ == poly_equation_spec(crate::regression::views_of(self.coeffs()), precision as nat),
    {
        let ghost cv = crate::regression::views_of(self.coeffs());
        let n = self.len();
        let mut out = String::new();
        let top = self.coefficient(n - 1);
        push_term(&top, n - 1, precision, &mut out);
        proof {
            assert(cv.last() == top.v());
            assert(out@ + poly_rest_spec(cv, n - 1, precision as nat) =~= poly_equation_spec(
                cv,
                precision as nat,
            ));
        }
        let mut j: usize = n - 1;
        while j > 0
            invariant
                self.wf(),
                precision <= 18,
                cv == crate::regression::views_of(self.coeffs()),
                cv.len() == self.coeffs().len(),
                n == self.coeffs().len(),
                0 <= j <= n - 1,
                out@ + poly_rest_spec(cv, j as int, precision as nat) == poly_equation_spec(
                    cv,
                    precision as nat,
                ),
            decreases j,
        {
            let v = self.coefficient(j - 1);
            let ghost before = out@;
            if v.numerator() >= 0 {
                proof {
                    reveal_strlit(" + ");
                }
                out.append(" + ");
                push_term(&v, j - 1, precision, &mut out);
                proof {
                    assert(out@ =~= before + poly_sep_term_spec(
                        cv[j as int - 1],
                        (j - 1) as nat,
                        precision as nat,
                    ));
                }
            } else {
                proof {
                    reveal_strlit(" - ");
                }
                out.append(" - ");
                let nv = v.neg();
                push_term(&nv, j - 1, precision, &mut out);
                proof {
                    assert(out@ =~= before + poly_sep_term_spec(
                        cv[j as int - 1],
                        (j - 1) as nat,
                        precision as nat,
                    ));
                }
            }
            proof {
                assert((before + poly_sep_term_spec(
                    cv[j as int - 1],
                    (j - 1) as nat,
                    precision as nat,
                )) + poly_rest_spec(cv, j as int - 1, precision as nat) =~= before + (
                poly_sep_term_spec(cv[j as int - 1], (j - 1) as nat, precision as nat)
                    + poly_rest_spec(cv, j as int - 1, precision as nat)));
            }
            j = j - 1;
        }
        proof {
            assert(out@ + poly_rest_spec(cv, 0, precision as nat) =~= out@);
        }
        out
    }
}

/// What `DynModel::equation` renders for each model shape.
pub open spec fn dyn_equation_spec(m: DynModel, p: nat) -> Seq<char> {
    match m {
        DynModel::Linear(lc) => linear_equation_spec(lc.k.v(), lc.m.v(), p),
        DynModel::TheilSenLinear(lc) => linear_equation_spec(lc.k.v(), lc.m.v(), p),
        DynModel::Polynomial(pc) => poly_equation_spec(
            crate::regression::views_of(pc.coeffs()),
            p,
        ),
        DynModel::Power(pc) => power_equation_spec(pc, p),
        DynModel::Exponential(ec) => exponential_equation_spec(ec, p),
    }
}

impl DynModel {
    /// The fitted equation, rendered in decimal at the given precision.
    pub fn equation(&self, precision: usize) -> (r: String)
        requires
            self.wf(),
            precision <= 18,
            self matches DynModel::Polynomial(pc) ==> pc.coeffs().len() >= 1,
        ensures
            r@ == dyn_equation_spec(*self, precision as nat),
    {
        match self {
            DynModel::Linear(lc) => lc.equation(precision),
            DynModel::TheilSenLinear(lc) => lc.equation(precision),
            DynModel::Polynomial(pc) => pc.equation(precision),
            DynModel::Power(pc) => pc.equation(precision),
            DynModel::Exponential(ec) => ec.equation(precision),
        }
    }
}

} // verus!
