//! Ordinary least squares: polynomial fitting by the normal equations.
//!
//! The design matrix `X` has one row per sample whose column `j` holds the
//! predictor raised to the power `j`.  The coefficients solve
//! `(X^t X) c = X^t y`.  The solver runs Gaussian elimination in exact
//! rational arithmetic and then checks, in verified code, that its
//! candidate satisfies the normal equations; only a checked solution is
//! returned, so the contract does not rest on the elimination itself.

use vstd::prelude::*;

use crate::percentile::rationals_valid;
use crate::rational::{
    lemma_pos_mul, lemma_rat_add_congruence, lemma_rat_eq_trans, lemma_rat_mul_comm,
    lemma_rat_mul_congruence, lemma_representable_congruence, rat_add, rat_div, rat_eq, rat_mul,
    rat_wf, representable, Rational,
};
use crate::regression::{
    determination_of, pointwise_eq, views_of, LinearCoefficients, LinearEstimator,
    RegressionError,
};

verus! {

/// `x` raised to the power `e`, as a rational.
pub open spec fn pow_rat(x: (int, int), e: nat) -> (int, int)
    decreases e,
{
    if e == 0 {
        (1int, 1int)
    } else {
        rat_mul(x, pow_rat(x, (e - 1) as nat))
    }
}

/// The sum over the samples of `x^e`.
pub open spec fn sum_pow(xs: Seq<(int, int)>, e: nat) -> (int, int)
    decreases xs.len(),
{
    if xs.len() == 0 {
        (0int, 1int)
    } else {
        rat_add(sum_pow(xs.drop_last(), e), pow_rat(xs.last(), e))
    }
}

/// The sum over the samples of `x^e * y`.
pub open spec fn sum_pow_y(xs: Seq<(int, int)>, ys: Seq<(int, int)>, e: nat) -> (int, int)
    decreases xs.len(),
{
    if xs.len() == 0 {
        (0int, 1int)
    } else {
        rat_add(
            sum_pow_y(xs.drop_last(), ys.drop_last(), e),
            rat_mul(pow_rat(xs.last(), e), ys.last()),
        )
    }
}

/// The dot product of two equally long rational vectors.
pub open spec fn dot_spec(a: Seq<(int, int)>, b: Seq<(int, int)>) -> (int, int)
    decreases a.len(),
{
    if a.len() == 0 {
        (0int, 1int)
    } else {
        rat_add(dot_spec(a.drop_last(), b.drop_last()), rat_mul(a.last(), b.last()))
    }
}

/// Row `i` of the normal-equations matrix `X^t X` for the given degree:
/// entry `j` is the sum of `x^(i+j)`.
pub open spec fn xtx_row(xs: Seq<(int, int)>, degree: nat, i: int) -> Seq<(int, int)> {
    Seq::new(degree + 1, |j: int| sum_pow(xs, (i + j) as nat))
}

/// The coefficients `c` solve the normal equations of the
/// least-squares problem of the given degree.
pub open spec fn normal_solution(
    xs: Seq<(int, int)>,
    ys: Seq<(int, int)>,
    degree: nat,
    c: Seq<(int, int)>,
) -> bool {
    &&& c.len() == degree + 1
    &&& forall|i: int|
        0 <= i <= degree ==> rat_eq(
            #[trigger] dot_spec(xtx_row(xs, degree, i), c),
            sum_pow_y(xs, ys, i as nat),
        )
}

proof fn lemma_pow_rat_wf(x: (int, int), e: nat)
    requires
        x.1 >= 1,
    ensures
        rat_wf(pow_rat(x, e)),
    decreases e,
{
    if e > 0 {
        lemma_pow_rat_wf(x, (e - 1) as nat);
        lemma_pos_mul(x.1, pow_rat(x, (e - 1) as nat).1);
    }
}

proof fn lemma_sum_pow_wf(xs: Seq<(int, int)>, e: nat)
    requires
        crate::regression::pairs_wf(xs),
    ensures
        rat_wf(sum_pow(xs, e)),
    decreases xs.len(),
{
    if xs.len() > 0 {
        assert(crate::regression::pairs_wf(xs.drop_last())) by {
            assert(forall|i: int|
                0 <= i < xs.drop_last().len() ==> xs.drop_last()[i] == #[trigger] xs[i]);
        }
        lemma_sum_pow_wf(xs.drop_last(), e);
        lemma_pow_rat_wf(xs.last(), e);
        lemma_pos_mul(sum_pow(xs.drop_last(), e).1, pow_rat(xs.last(), e).1);
    }
}

proof fn lemma_sum_pow_y_wf(xs: Seq<(int, int)>, ys: Seq<(int, int)>, e: nat)
    requires
        crate::regression::pairs_wf(xs),
        crate::regression::pairs_wf(ys),
        xs.len() == ys.len(),
    ensures
        rat_wf(sum_pow_y(xs, ys, e)),
    decreases xs.len(),
{
    if xs.len() > 0 {
        assert(crate::regression::pairs_wf(xs.drop_last()) && crate::regression::pairs_wf(
            ys.drop_last(),
        )) by {
            assert(forall|i: int|
                0 <= i < xs.drop_last().len() ==> xs.drop_last()[i] == #[trigger] xs[i]);
            assert(forall|i: int|
                0 <= i < ys.drop_last().len() ==> ys.drop_last()[i] == #[trigger] ys[i]);
        }
        lemma_sum_pow_y_wf(xs.drop_last(), ys.drop_last(), e);
        lemma_pow_rat_wf(xs.last(), e);
        lemma_pos_mul(pow_rat(xs.last(), e).1, ys.last().1);
        lemma_pos_mul(sum_pow_y(xs.drop_last(), ys.drop_last(), e).1, rat_mul(
            pow_rat(xs.last(), e),
            ys.last(),
        ).1);
    }
}

proof fn lemma_dot_wf(a: Seq<(int, int)>, b: Seq<(int, int)>)
    requires
        crate::regression::pairs_wf(a),
        crate::regression::pairs_wf(b),
        a.len() == b.len(),
    ensures
        rat_wf(dot_spec(a, b)),
    decreases a.len(),
{
    if a.len() > 0 {
        assert(crate::regression::pairs_wf(a.drop_last()) && crate::regression::pairs_wf(
            b.drop_last(),
        )) by {
            assert(forall|i: int|
                0 <= i < a.drop_last().len() ==> a.drop_last()[i] == #[trigger] a[i]);
            assert(forall|i: int|
                0 <= i < b.drop_last().len() ==> b.drop_last()[i] == #[trigger] b[i]);
        }
        lemma_dot_wf(a.drop_last(), b.drop_last());
        lemma_pos_mul(a.last().1, b.last().1);
        lemma_pos_mul(dot_spec(a.drop_last(), b.drop_last()).1, rat_mul(a.last(), b.last()).1);
    }
}

/// The dot product only depends on the values of its left operand.
proof fn lemma_dot_congruence_left(a: Seq<(int, int)>, a2: Seq<(int, int)>, b: Seq<(int, int)>)
    requires
        crate::regression::pairs_wf(a),
        crate::regression::pairs_wf(a2),
        crate::regression::pairs_wf(b),
        a.len() == a2.len() == b.len(),
        forall|i: int| 0 <= i < a.len() ==> rat_eq(#[trigger] a[i], a2[i]),
    ensures
        rat_eq(dot_spec(a, b), dot_spec(a2, b)),
    decreases a.len(),
{
    if a.len() > 0 {
        assert(crate::regression::pairs_wf(a.drop_last()) && crate::regression::pairs_wf(
            a2.drop_last(),
        ) && crate::regression::pairs_wf(b.drop_last())) by {
            assert(forall|i: int|
                0 <= i < a.drop_last().len() ==> a.drop_last()[i] == #[trigger] a[i]);
            assert(forall|i: int|
                0 <= i < a2.drop_last().len() ==> a2.drop_last()[i] == #[trigger] a2[i]);
            assert(forall|i: int|
                0 <= i < b.drop_last().len() ==> b.drop_last()[i] == #[trigger] b[i]);
        }
        assert(forall|i: int|
            0 <= i < a.drop_last().len() ==> rat_eq(#[trigger] a.drop_last()[i], a2.drop_last()[i]));
        lemma_dot_congruence_left(a.drop_last(), a2.drop_last(), b.drop_last());
        lemma_dot_wf(a.drop_last(), b.drop_last());
        lemma_dot_wf(a2.drop_last(), b.drop_last());
        assert(rat_eq(a.last(), a2.last()));
        lemma_rat_mul_congruence(a.last(), a2.last(), b.last(), b.last());
        lemma_pos_mul(a.last().1, b.last().1);
        lemma_pos_mul(a2.last().1, b.last().1);
        lemma_rat_add_congruence(
            dot_spec(a.drop_last(), b.drop_last()),
            dot_spec(a2.drop_last(), b.drop_last()),
            rat_mul(a.last(), b.last()),
            rat_mul(a2.last(), b.last()),
        );
    }
}

/// `x^e`, exactly; `None` only when some intermediate power has no
/// 64-bit representative.
pub fn pow_rat_exec(x: &Rational, e: usize) -> (r: Option<Rational>)
    requires
        x.valid(),
    ensures
        r matches Some(q) ==> q.valid() && rat_eq(q.v(), pow_rat(x.v(), e as nat)),
        r is None ==> exists|e2: int|
            1 <= e2 <= e && !representable(#[trigger] pow_rat(x.v(), e2 as nat)),
{
    let mut acc = Rational::one();
    let mut i: usize = 0;
    while i < e
        invariant
            x.valid(),
            0 <= i <= e,
            acc.valid(),
            rat_eq(acc.v(), pow_rat(x.v(), i as nat)),
        decreases e - i,
    {
        let next = match acc.try_mul(x) {
            Some(next) => next,
            None => {
                proof {
                    lemma_pow_rat_wf(x.v(), i as nat);
                    lemma_rat_mul_comm(acc.v(), x.v());
                    lemma_pos_mul(acc.v().1, x.v().1);
                    lemma_pos_mul(x.v().1, acc.v().1);
                    lemma_rat_mul_congruence(x.v(), x.v(), acc.v(), pow_rat(x.v(), i as nat));
                    lemma_pos_mul(x.v().1, pow_rat(x.v(), i as nat).1);
                    crate::rational::lemma_rat_eq_trans(
                        rat_mul(acc.v(), x.v()),
                        rat_mul(x.v(), acc.v()),
                        rat_mul(x.v(), pow_rat(x.v(), i as nat)),
                    );
                    lemma_representable_congruence(
                        rat_mul(acc.v(), x.v()),
                        pow_rat(x.v(), i as nat + 1),
                    );
                    assert(!representable(pow_rat(x.v(), (i + 1) as nat)));
                }
                return None;
            },
        };
        proof {
            lemma_pow_rat_wf(x.v(), i as nat);
            lemma_rat_mul_comm(acc.v(), x.v());
            lemma_pos_mul(acc.v().1, x.v().1);
            lemma_pos_mul(x.v().1, acc.v().1);
            lemma_rat_eq_trans(next.v(), rat_mul(acc.v(), x.v()), rat_mul(x.v(), acc.v()));
            lemma_rat_mul_congruence(x.v(), x.v(), acc.v(), pow_rat(x.v(), i as nat));
            lemma_pos_mul(x.v().1, pow_rat(x.v(), i as nat).1);
            lemma_rat_eq_trans(
                next.v(),
                rat_mul(x.v(), acc.v()),
                rat_mul(x.v(), pow_rat(x.v(), i as nat)),
            );
        }
        acc = next;
        i = i + 1;
    }
    Some(acc)
}

/// The sum over the samples of `x^e`; `None` only on unrepresentable
/// intermediates.
fn sum_pow_exec(xs: &Vec<Rational>, e: usize) -> (r: Option<Rational>)
    requires
        rationals_valid(xs@),
    ensures
        r matches Some(q) ==> q.valid() && rat_eq(q.v(), sum_pow(views_of(xs@), e as nat)),
{
    let ghost vs = views_of(xs@);
    let mut acc = Rational::zero();
    let mut i: usize = 0;
    proof {
        assert(vs.take(0) =~= Seq::<(int, int)>::empty());
    }
    while i < xs.len()
        invariant
            rationals_valid(xs@),
            vs == views_of(xs@),
            0 <= i <= xs@.len(),
            vs.len() == xs@.len(),
            acc.valid(),
            rat_eq(acc.v(), sum_pow(vs.take(i as int), e as nat)),
        decreases xs@.len() - i,
    {
        let p = match pow_rat_exec(&xs[i], e) {
            Some(p) => p,
            None => {
                return None;
            },
        };
        let next = match acc.try_add(&p) {
            Some(next) => next,
            None => {
                return None;
            },
        };
        proof {
            let prefix = vs.take(i as int);
            let prefix1 = vs.take(i as int + 1);
            assert(prefix1.drop_last() =~= prefix);
            assert(prefix1.last() == vs[i as int]);
            assert(crate::regression::pairs_wf(prefix)) by {
                assert(forall|j: int| 0 <= j < prefix.len() ==> prefix[j] == #[trigger] vs[j]);
            }
            lemma_sum_pow_wf(prefix, e as nat);
            lemma_pow_rat_wf(vs[i as int], e as nat);
            lemma_rat_add_congruence(
                acc.v(),
                sum_pow(prefix, e as nat),
                p.v(),
                pow_rat(vs[i as int], e as nat),
            );
            lemma_pos_mul(acc.v().1, p.v().1);
            lemma_rat_eq_trans(
                next.v(),
                rat_add(acc.v(), p.v()),
                sum_pow(prefix1, e as nat),
            );
        }
        acc = next;
        i = i + 1;
    }
    proof {
        assert(vs.take(vs.len() as int) =~= vs);
    }
    Some(acc)
}

/// The sum over the samples of `x^e * y`; `None` only on unrepresentable
/// intermediates.
fn sum_pow_y_exec(xs: &Vec<Rational>, ys: &Vec<Rational>, e: usize) -> (r: Option<Rational>)
    requires
        rationals_valid(xs@),
        rationals_valid(ys@),
        xs@.len() == ys@.len(),
    ensures
        r matches Some(q) ==> q.valid() && rat_eq(
            q.v(),
            sum_pow_y(views_of(xs@), views_of(ys@), e as nat),
        ),
{
    let ghost vx = views_of(xs@);
    let ghost vy = views_of(ys@);
    let mut acc = Rational::zero();
    let mut i: usize = 0;
    proof {
        assert(vx.take(0) =~= Seq::<(int, int)>::empty());
        assert(vy.take(0) =~= Seq::<(int, int)>::empty());
    }
    while i < xs.len()
        invariant
            rationals_valid(xs@),
            rationals_valid(ys@),
            vx == views_of(xs@),
            vy == views_of(ys@),
            xs@.len() == ys@.len(),
            0 <= i <= xs@.len(),
            vx.len() == xs@.len(),
            vy.len() == ys@.len(),
            acc.valid(),
            rat_eq(acc.v(), sum_pow_y(vx.take(i as int), vy.take(i as int), e as nat)),
        decreases xs@.len() - i,
    {
        let p = match pow_rat_exec(&xs[i], e) {
            Some(p) => p,
            None => {
                return None;
            },
        };
        let t = match p.try_mul(&ys[i]) {
            Some(t) => t,
            None => {
                return None;
            },
        };
        let next = match acc.try_add(&t) {
            Some(next) => next,
            None => {
                return None;
            },
        };
        proof {
            let px = vx.take(i as int);
            let px1 = vx.take(i as int + 1);
            let py = vy.take(i as int);
            let py1 = vy.take(i as int + 1);
            assert(px1.drop_last() =~= px);
            assert(py1.drop_last() =~= py);
            assert(px1.last() == vx[i as int]);
            assert(py1.last() == vy[i as int]);
            assert(crate::regression::pairs_wf(px) && crate::regression::pairs_wf(py)) by {
                assert(forall|j: int| 0 <= j < px.len() ==> px[j] == #[trigger] vx[j]);
                assert(forall|j: int| 0 <= j < py.len() ==> py[j] == #[trigger] vy[j]);
            }
            lemma_sum_pow_y_wf(px, py, e as nat);
            lemma_pow_rat_wf(vx[i as int], e as nat);
            let pw = pow_rat(vx[i as int], e as nat);
            lemma_rat_mul_congruence(p.v(), pw, vy[i as int], vy[i as int]);
            lemma_pos_mul(p.v().1, vy[i as int].1);
            lemma_pos_mul(pw.1, vy[i as int].1);
            lemma_rat_eq_trans(t.v(), rat_mul(p.v(), vy[i as int]), rat_mul(pw, vy[i as int]));
            lemma_rat_add_congruence(
                acc.v(),
                sum_pow_y(px, py, e as nat),
                t.v(),
                rat_mul(pw, vy[i as int]),
            );
            lemma_pos_mul(acc.v().1, t.v().1);
            lemma_rat_eq_trans(
                next.v(),
                rat_add(acc.v(), t.v()),
                sum_pow_y(px1, py1, e as nat),
            );
        }
        acc = next;
        i = i + 1;
    }
    proof {
        assert(vx.take(vx.len() as int) =~= vx);
        assert(vy.take(vy.len() as int) =~= vy);
    }
    Some(acc)
}

/// The exact dot product; `None` only on unrepresentable intermediates.
fn dot_exec(a: &Vec<Rational>, b: &Vec<Rational>) -> (r: Option<Rational>)
    requires
        rationals_valid(a@),
        rationals_valid(b@),
        a@.len() == b@.len(),
    ensures
        r matches Some(q) ==> q.valid() && rat_eq(q.v(), dot_spec(views_of(a@), views_of(b@))),
{
    let ghost va = views_of(a@);
    let ghost vb = views_of(b@);
    let mut acc = Rational::zero();
    let mut i: usize = 0;
    proof {
        assert(va.take(0) =~= Seq::<(int, int)>::empty());
        assert(vb.take(0) =~= Seq::<(int, int)>::empty());
    }
    while i < a.len()
        invariant
            rationals_valid(a@),
            rationals_valid(b@),
            va == views_of(a@),
            vb == views_of(b@),
            a@.len() == b@.len(),
            0 <= i <= a@.len(),
            va.len() == a@.len(),
            vb.len() == b@.len(),
            acc.valid(),
            rat_eq(acc.v(), dot_spec(va.take(i as int), vb.take(i as int))),
        decreases a@.len() - i,
    {
        let t = match a[i].try_mul(&b[i]) {
            Some(t) => t,
            None => {
                return None;
            },
        };
        let next = match acc.try_add(&t) {
            Some(next) => next,
            None => {
                return None;
            },
        };
        proof {
            let pa = va.take(i as int);
            let pa1 = va.take(i as int + 1);
            let pb = vb.take(i as int);
            let pb1 = vb.take(i as int + 1);
            assert(pa1.drop_last() =~= pa);
            assert(pb1.drop_last() =~= pb);
            assert(pa1.last() == va[i as int]);
            assert(pb1.last() == vb[i as int]);
            assert(crate::regression::pairs_wf(pa) && crate::regression::pairs_wf(pb)) by {
                assert(forall|j: int| 0 <= j < pa.len() ==> pa[j] == #[trigger] va[j]);
                assert(forall|j: int| 0 <= j < pb.len() ==> pb[j] == #[trigger] vb[j]);
            }
            lemma_dot_wf(pa, pb);
            lemma_pos_mul(va[i as int].1, vb[i as int].1);
            lemma_rat_add_congruence(
                acc.v(),
                dot_spec(pa, pb),
                t.v(),
                rat_mul(va[i as int], vb[i as int]),
            );
            lemma_pos_mul(acc.v().1, t.v().1);
            lemma_rat_eq_trans(next.v(), rat_add(acc.v(), t.v()), dot_spec(pa1, pb1));
        }
        acc = next;
        i = i + 1;
    }
    proof {
        assert(va.take(va.len() as int) =~= va);
        assert(vb.take(vb.len() as int) =~= vb);
    }
    Some(acc)
}

/// The value of the polynomial with coefficients `c` (index = power) at
/// `x`, by Horner's rule.
pub open spec fn poly_eval(c: Seq<(int, int)>, x: (int, int)) -> (int, int)
    decreases c.len(),
{
    if c.len() == 0 {
        (0int, 1int)
    } else {
        rat_add(c.first(), rat_mul(x, poly_eval(c.drop_first(), x)))
    }
}

proof fn lemma_poly_eval_wf(c: Seq<(int, int)>, x: (int, int))
    requires
        crate::regression::pairs_wf(c),
        x.1 >= 1,
    ensures
        rat_wf(poly_eval(c, x)),
    decreases c.len(),
{
    if c.len() > 0 {
        assert(crate::regression::pairs_wf(c.drop_first())) by {
            assert(forall|i: int|
                0 <= i < c.drop_first().len() ==> c.drop_first()[i] == #[trigger] c[i + 1]);
        }
        lemma_poly_eval_wf(c.drop_first(), x);
        lemma_pos_mul(x.1, poly_eval(c.drop_first(), x).1);
        lemma_pos_mul(c.first().1, rat_mul(x, poly_eval(c.drop_first(), x)).1);
    }
}

/// The reason a Horner evaluation can fail: some scaled tail or partial
/// evaluation has no 64-bit representative.
pub open spec fn poly_eval_failure(c: Seq<(int, int)>, x: (int, int)) -> bool {
    exists|i: int|
        #![trigger c.skip(i)]
        0 <= i < c.len() && {
            ||| !representable(rat_mul(x, poly_eval(c.skip(i + 1), x)))
            ||| !representable(poly_eval(c.skip(i), x))
        }
}

/// Introduce `poly_eval_failure` from one failing stage.
proof fn lemma_poly_eval_failure_intro(c: Seq<(int, int)>, x: (int, int), j: int)
    requires
        0 <= j < c.len(),
        !representable(rat_mul(x, poly_eval(c.skip(j + 1), x))) || !representable(
            poly_eval(c.skip(j), x),
        ),
    ensures
        poly_eval_failure(c, x),
{
    assert(c.skip(j) == c.skip(j));
}

/// Coefficients of a fitted polynomial.  The coefficient at index `i`
/// multiplies the `i`-th power of the predictor: `[0, 2, 1]` denotes
/// `x^2 + 2x + 0`.
#[derive(Debug)]
pub struct PolynomialCoefficients {
    coefficients: Vec<Rational>,
}

impl PolynomialCoefficients {
    /// The coefficients, lowest power first.
    pub closed spec fn coeffs(self) -> Seq<Rational> {
        self.coefficients@
    }

    pub open spec fn wf(self) -> bool {
        rationals_valid(self.coeffs())
    }

    /// The value the polynomial takes at `x`.
    pub open spec fn predict_spec(self, x: (int, int)) -> (int, int) {
        poly_eval(views_of(self.coeffs()), x)
    }

    /// How many coefficients the polynomial has (degree plus one).
    pub fn len(&self) -> (n: usize)
        ensures
            n == self.coeffs().len(),
    {
        self.coefficients.len()
    }

    /// The coefficient of the `i`-th power.
    pub fn coefficient(&self, i: usize) -> (r: Rational)
        requires
            i < self.coeffs().len(),
        ensures
            r == self.coeffs()[i as int],
    {
        self.coefficients[i]
    }

    /// The predicted outcome: the polynomial evaluated at `predictor` by
    /// Horner's rule; `None` only when an exact value does not fit the
    /// representation.
    pub fn predict_outcome(&self, predictor: &Rational) -> (r: Option<Rational>)
        requires
            self.wf(),
            predictor.valid(),
        ensures
            r matches Some(q) ==> q.valid() && rat_eq(q.v(), self.predict_spec(predictor.v())),
            r is None ==> poly_eval_failure(views_of(self.coeffs()), predictor.v()),
    {
        let ghost cv = views_of(self.coeffs());
        let mut acc = Rational::zero();
        let mut i: usize = self.coefficients.len();
        proof {
            assert(cv.skip(i as int) =~= Seq::<(int, int)>::empty());
        }
        while i > 0
            invariant
                self.wf(),
                predictor.valid(),
                cv == views_of(self.coeffs()),
                cv.len() == self.coeffs().len(),
                0 <= i <= self.coeffs().len(),
                acc.valid(),
                rat_eq(acc.v(), poly_eval(cv.skip(i as int), predictor.v())),
            decreases i,
        {
            let scaled = match predictor.try_mul(&acc) {
                Some(scaled) => scaled,
                None => {
                    proof {
                        let rest = cv.skip(i as int);
                        assert(crate::regression::pairs_wf(rest)) by {
                            assert(forall|j: int|
                                0 <= j < rest.len() ==> rest[j] == #[trigger] cv[j + i as int]);
                        }
                        lemma_poly_eval_wf(rest, predictor.v());
                        lemma_rat_mul_congruence(
                            predictor.v(),
                            predictor.v(),
                            acc.v(),
                            poly_eval(rest, predictor.v()),
                        );
                        lemma_pos_mul(predictor.v().1, acc.v().1);
                        lemma_pos_mul(predictor.v().1, poly_eval(rest, predictor.v()).1);
                        lemma_representable_congruence(
                            rat_mul(predictor.v(), acc.v()),
                            rat_mul(predictor.v(), poly_eval(rest, predictor.v())),
                        );
                        assert(cv.skip(i as int - 1 + 1) == rest);
                        assert(!representable(
                            rat_mul(predictor.v(), poly_eval(cv.skip(i as int - 1 + 1), predictor.v())),
                        ));
                        lemma_poly_eval_failure_intro(cv, predictor.v(), i as int - 1);
                    }
                    return None;
                },
            };
            let next = match self.coefficients[i - 1].try_add(&scaled) {
                Some(next) => next,
                None => {
                    proof {
                        let rest = cv.skip(i as int);
                        let whole = cv.skip(i as int - 1);
                        assert(whole.first() == cv[i as int - 1]);
                        assert(whole.drop_first() =~= rest);
                        assert(crate::regression::pairs_wf(rest)) by {
                            assert(forall|j: int|
                                0 <= j < rest.len() ==> rest[j] == #[trigger] cv[j + i as int]);
                        }
                        lemma_poly_eval_wf(rest, predictor.v());
                        lemma_rat_mul_congruence(
                            predictor.v(),
                            predictor.v(),
                            acc.v(),
                            poly_eval(rest, predictor.v()),
                        );
                        lemma_pos_mul(predictor.v().1, acc.v().1);
                        lemma_pos_mul(predictor.v().1, poly_eval(rest, predictor.v()).1);
                        lemma_rat_eq_trans(
                            scaled.v(),
                            rat_mul(predictor.v(), acc.v()),
                            rat_mul(predictor.v(), poly_eval(rest, predictor.v())),
                        );
                        lemma_rat_add_congruence(
                            cv[i as int - 1],
                            cv[i as int - 1],
                            scaled.v(),
                            rat_mul(predictor.v(), poly_eval(rest, predictor.v())),
                        );
                        lemma_pos_mul(cv[i as int - 1].1, scaled.v().1);
                        lemma_pos_mul(
                            cv[i as int - 1].1,
                            rat_mul(predictor.v(), poly_eval(rest, predictor.v())).1,
                        );
                        lemma_representable_congruence(
                            rat_add(cv[i as int - 1], scaled.v()),
                            poly_eval(whole, predictor.v()),
                        );
                        assert(!representable(poly_eval(cv.skip(i as int - 1), predictor.v())));
                        lemma_poly_eval_failure_intro(cv, predictor.v(), i as int - 1);
                    }
                    return None;
                },
            };
            proof {
                let rest = cv.skip(i as int);
                let whole = cv.skip(i as int - 1);
                assert(whole.first() == cv[i as int - 1]);
                assert(whole.drop_first() =~= rest);
                assert(crate::regression::pairs_wf(rest)) by {
                    assert(forall|j: int|
                        0 <= j < rest.len() ==> rest[j] == #[trigger] cv[j + i as int]);
                }
                lemma_poly_eval_wf(rest, predictor.v());
                lemma_rat_mul_congruence(
                    predictor.v(),
                    predictor.v(),
                    acc.v(),
                    poly_eval(rest, predictor.v()),
                );
                lemma_pos_mul(predictor.v().1, acc.v().1);
                lemma_pos_mul(predictor.v().1, poly_eval(rest, predictor.v()).1);
                lemma_rat_eq_trans(
                    scaled.v(),
                    rat_mul(predictor.v(), acc.v()),
                    rat_mul(predictor.v(), poly_eval(rest, predictor.v())),
                );
                lemma_rat_add_congruence(
                    cv[i as int - 1],
                    cv[i as int - 1],
                    scaled.v(),
                    rat_mul(predictor.v(), poly_eval(rest, predictor.v())),
                );
                lemma_pos_mul(cv[i as int - 1].1, scaled.v().1);
                lemma_rat_eq_trans(
                    next.v(),
                    rat_add(cv[i as int - 1], scaled.v()),
                    poly_eval(whole, predictor.v()),
                );
            }
            acc = next;
            i = i - 1;
        }
        proof {
            assert(cv.skip(0) =~= cv);
        }
        Some(acc)
    }

    /// Predictions of this polynomial on each predictor; `None` only when
    /// evaluating at some predictor fails representability.
    pub fn predictions(&self, predictors: &Vec<Rational>) -> (r: Option<Vec<Rational>>)
        requires
            self.wf(),
            rationals_valid(predictors@),
        ensures
            r is None ==> exists|i: int|
                0 <= i < predictors@.len() && poly_eval_failure(
                    views_of(self.coeffs()),
                    (#[trigger] predictors@[i]).v(),
                ),
            r matches Some(v) ==> {
                &&& v@.len() == predictors@.len()
                &&& rationals_valid(v@)
                &&& forall|i: int|
                    0 <= i < v@.len() ==> rat_eq(
                        (#[trigger] v@[i]).v(),
                        self.predict_spec(predictors@[i].v()),
                    )
            },
    {
        let mut out: Vec<Rational> = Vec::new();
        let mut i: usize = 0;
        while i < predictors.len()
            invariant
                self.wf(),
                rationals_valid(predictors@),
                0 <= i <= predictors@.len(),
                out@.len() == i,
                rationals_valid(out@),
                forall|j: int|
                    0 <= j < out@.len() ==> rat_eq(
                        (#[trigger] out@[j]).v(),
                        self.predict_spec(predictors@[j].v()),
                    ),
            decreases predictors@.len() - i,
        {
            let p = match self.predict_outcome(&predictors[i]) {
                Some(p) => p,
                None => {
                    return None;
                },
            };
            out.push(p);
            i = i + 1;
        }
        Some(out)
    }

    /// The coefficient of determination of this polynomial against
    /// observed samples.  The two slices must have the same positive
    /// length.
    pub fn determination_slice(&self, predictors: &Vec<Rational>, outcomes: &Vec<Rational>) -> (r:
        Result<Rational, RegressionError>)
        requires
            self.wf(),
            rationals_valid(predictors@),
            rationals_valid(outcomes@),
            predictors@.len() == outcomes@.len(),
            outcomes@.len() > 0,
        ensures
            r matches Ok(q) ==> q.valid() && exists|preds: Seq<Rational>|
                #![trigger views_of(preds)]
                {
                    &&& crate::regression::pointwise_eq(preds, poly_predictions(*self, predictors@))
                    &&& rat_eq(
                        q.v(),
                        crate::regression::determination_spec(
                            views_of(preds),
                            views_of(outcomes@),
                        ),
                    )
                },
            r is Err ==> (r == Err::<Rational, RegressionError>(RegressionError::ZeroVariance) || r
                == Err::<Rational, RegressionError>(RegressionError::Unrepresentable)),
            r == Err::<Rational, RegressionError>(RegressionError::ZeroVariance) ==> rat_eq(
                crate::regression::sq_dev_sum(
                    views_of(outcomes@),
                    rat_div(
                        crate::regression::rat_seq_sum(views_of(outcomes@)),
                        (outcomes@.len() as int, 1int),
                    ),
                ),
                (0int, 1int),
            ),
            rat_eq(
                crate::regression::sq_dev_sum(
                    views_of(outcomes@),
                    rat_div(
                        crate::regression::rat_seq_sum(views_of(outcomes@)),
                        (outcomes@.len() as int, 1int),
                    ),
                ),
                (0int, 1int),
            ) ==> r is Err,
    {
        let preds = match self.predictions(predictors) {
            Some(preds) => preds,
            None => {
                return Err(RegressionError::Unrepresentable);
            },
        };
        let r = determination_of(&preds, outcomes);
        match r {
            Ok(q) => {
                proof {
                    assert(crate::regression::pointwise_eq(
                        preds@,
                        poly_predictions(*self, predictors@),
                    ));
                }
                Ok(q)
            },
            Err(e) => Err(e),
        }
    }
}

/// The predicted values of a polynomial at each predictor.
pub open spec fn poly_predictions(p: PolynomialCoefficients, xs: Seq<Rational>) -> Seq<
    (int, int),
> {
    views_of(xs).map_values(|x: (int, int)| p.predict_spec(x))
}

/// Fit a polynomial of the given degree by the normal equations, in exact
/// rational arithmetic.  The result is checked against the normal
/// equations before it is returned, so `Ok` coefficients provably solve
/// them.  Fails with `SingularMatrix` when elimination finds no usable
/// pivot or the candidate fails the check (degenerate predictors), and
/// with `Unrepresentable` when an exact intermediate does not fit the
/// representation; no other error comes out.  `degree` must be below the
/// sample count, and small enough that the matrix indices fit the
/// machine's word.
pub fn polynomial(predictors: &Vec<Rational>, outcomes: &Vec<Rational>, degree: usize) -> (r:
    Result<PolynomialCoefficients, RegressionError>)
    requires
        rationals_valid(predictors@),
        rationals_valid(outcomes@),
        predictors@.len() == outcomes@.len(),
        degree < predictors@.len(),
        degree + degree + 2 <= usize::MAX,
    ensures
        r matches Ok(pc) ==> {
            &&& pc.wf()
            &&& pc.coeffs().len() == degree + 1
            &&& normal_solution(
                views_of(predictors@),
                views_of(outcomes@),
                degree as nat,
                views_of(pc.coeffs()),
            )
        },
        r is Err ==> (r == Err::<PolynomialCoefficients, RegressionError>(
            RegressionError::SingularMatrix,
        ) || r == Err::<PolynomialCoefficients, RegressionError>(
            RegressionError::Unrepresentable,
        )),
{
    let ghost vx = views_of(predictors@);
    let ghost vy = views_of(outcomes@);
    let d1: usize = degree + 1;
    // The pristine normal-equations matrix and right-hand side.
    let mut a_mat: Vec<Vec<Rational>> = Vec::new();
    let mut b_vec: Vec<Rational> = Vec::new();
    let mut i: usize = 0;
    while i < d1
        invariant
            rationals_valid(predictors@),
            rationals_valid(outcomes@),
            predictors@.len() == outcomes@.len(),
            vx == views_of(predictors@),
            vy == views_of(outcomes@),
            d1 == degree + 1,
            degree + degree + 2 <= usize::MAX,
            0 <= i <= d1,
            a_mat@.len() == i,
            b_vec@.len() == i,
            forall|t: int|
                0 <= t < i ==> (#[trigger] a_mat@[t])@.len() == d1 && rationals_valid(a_mat@[t]@)
                    && forall|j: int|
                    0 <= j < d1 ==> rat_eq(
                        (#[trigger] a_mat@[t]@[j]).v(),
                        sum_pow(vx, (t + j) as nat),
                    ),
            forall|t: int|
                0 <= t < i ==> (#[trigger] b_vec@[t]).valid() && rat_eq(
                    b_vec@[t].v(),
                    sum_pow_y(vx, vy, t as nat),
                ),
        decreases d1 - i,
    {
        let mut row: Vec<Rational> = Vec::new();
        let mut j: usize = 0;
        while j < d1
            invariant
                rationals_valid(predictors@),
                vx == views_of(predictors@),
                d1 == degree + 1,
                degree + degree + 2 <= usize::MAX,
                0 <= i < d1,
                0 <= j <= d1,
                row@.len() == j,
                rationals_valid(row@),
                forall|t: int|
                    0 <= t < j ==> rat_eq(
                        (#[trigger] row@[t]).v(),
                        sum_pow(vx, (i + t) as nat),
                    ),
            decreases d1 - j,
        {
            let entry = match sum_pow_exec(predictors, i + j) {
                Some(entry) => entry,
                None => {
                    return Err(RegressionError::Unrepresentable);
                },
            };
            row.push(entry);
            j = j + 1;
        }
        let be = match sum_pow_y_exec(predictors, outcomes, i) {
            Some(be) => be,
            None => {
                return Err(RegressionError::Unrepresentable);
            },
        };
        a_mat.push(row);
        b_vec.push(be);
        i = i + 1;
    }
    // The working copy that elimination destroys: rows of `A` with the
    // right-hand side appended.
    let mut work: Vec<Vec<Rational>> = Vec::new();
    let mut i2: usize = 0;
    while i2 < d1
        invariant
            0 <= i2 <= d1,
            a_mat@.len() == d1,
            b_vec@.len() == d1,
            forall|t: int|
                0 <= t < d1 ==> (#[trigger] a_mat@[t])@.len() == d1 && rationals_valid(
                    a_mat@[t]@,
                ),
            forall|t: int| 0 <= t < d1 ==> (#[trigger] b_vec@[t]).valid(),
            work@.len() == i2,
            forall|t: int|
                0 <= t < i2 ==> (#[trigger] work@[t])@.len() == d1 + 1 && rationals_valid(
                    work@[t]@,
                ),
        decreases d1 - i2,
    {
        let mut row = copy_values_local(&a_mat[i2]);
        row.push(b_vec[i2]);
        work.push(row);
        i2 = i2 + 1;
    }
    // Forward elimination with pivoting by the first nonzero entry.
    let mut col: usize = 0;
    while col < d1
        invariant
            0 <= col <= d1,
            1 <= d1 && d1 + d1 <= usize::MAX,
            work@.len() == d1,
            forall|t: int|
                0 <= t < d1 ==> (#[trigger] work@[t])@.len() == d1 + 1 && rationals_valid(
                    work@[t]@,
                ),
        decreases d1 - col,
    {
        let mut pivot_row: usize = col;
        let mut found: bool = false;
        let mut r: usize = col;
        while r < d1
            invariant
                col <= r <= d1,
                col < d1,
                work@.len() == d1,
                forall|t: int|
                    0 <= t < d1 ==> (#[trigger] work@[t])@.len() == d1 + 1 && rationals_valid(
                        work@[t]@,
                    ),
                found ==> col <= pivot_row < d1,
                !found ==> pivot_row == col,
            ensures
                col <= r <= d1,
                found ==> col <= pivot_row < d1,
                !found ==> pivot_row == col,
            decreases d1 - r,
        {
            if !work[r][col].is_zero() {
                pivot_row = r;
                found = true;
                break ;
            }
            r = r + 1;
        }
        if !found {
            return Err(RegressionError::SingularMatrix);
        }
        if pivot_row != col {
            let row_p = copy_values_local(&work[pivot_row]);
            let row_c = copy_values_local(&work[col]);
            work.set(col, row_p);
            work.set(pivot_row, row_c);
        }
        let mut r2: usize = col + 1;
        while r2 < d1
            invariant
                col < r2 <= d1 || col + 1 == r2,
                col < d1,
                d1 + d1 <= usize::MAX,
                work@.len() == d1,
                forall|t: int|
                    0 <= t < d1 ==> (#[trigger] work@[t])@.len() == d1 + 1 && rationals_valid(
                        work@[t]@,
                    ),
            decreases d1 - r2,
        {
            let pivot = work[col][col];
            if pivot.is_zero() {
                return Err(RegressionError::SingularMatrix);
            }
            let factor = match work[r2][col].try_div(&pivot) {
                Some(factor) => factor,
                None => {
                    return Err(RegressionError::Unrepresentable);
                },
            };
            let mut new_row: Vec<Rational> = Vec::new();
            let mut j2: usize = 0;
            while j2 < d1 + 1
                invariant
                    d1 + d1 <= usize::MAX,
                    0 <= j2 <= d1 + 1,
                    col < d1,
                    r2 < d1,
                    factor.valid(),
                    work@.len() == d1,
                    forall|t: int|
                        0 <= t < d1 ==> (#[trigger] work@[t])@.len() == d1 + 1 && rationals_valid(
                            work@[t]@,
                        ),
                    new_row@.len() == j2,
                    rationals_valid(new_row@),
                decreases d1 + 1 - j2,
            {
                let scaled = match factor.try_mul(&work[col][j2]) {
                    Some(scaled) => scaled,
                    None => {
                        return Err(RegressionError::Unrepresentable);
                    },
                };
                let diff = match work[r2][j2].try_sub(&scaled) {
                    Some(diff) => diff,
                    None => {
                        return Err(RegressionError::Unrepresentable);
                    },
                };
                new_row.push(diff);
                j2 = j2 + 1;
            }
            work.set(r2, new_row);
            r2 = r2 + 1;
        }
        col = col + 1;
    }
    // Back substitution.
    let mut c: Vec<Rational> = Vec::new();
    let mut filled: usize = 0;
    while filled < d1
        invariant
            0 <= filled <= d1,
            c@.len() == filled,
            rationals_valid(c@),
        decreases d1 - filled,
    {
        c.push(Rational::zero());
        filled = filled + 1;
    }
    let mut back: usize = d1;
    while back > 0
        invariant
            0 <= back <= d1,
            work@.len() == d1,
            forall|t: int|
                0 <= t < d1 ==> (#[trigger] work@[t])@.len() == d1 + 1 && rationals_valid(
                    work@[t]@,
                ),
            c@.len() == d1,
            rationals_valid(c@),
        decreases back,
    {
        let i3 = back - 1;
        let mut s = work[i3][d1];
        let mut j3: usize = i3 + 1;
        while j3 < d1
            invariant
                i3 < d1,
                i3 + 1 <= j3 <= d1,
                s.valid(),
                work@.len() == d1,
                forall|t: int|
                    0 <= t < d1 ==> (#[trigger] work@[t])@.len() == d1 + 1 && rationals_valid(
                        work@[t]@,
                    ),
                c@.len() == d1,
                rationals_valid(c@),
            decreases d1 - j3,
        {
            let scaled = match work[i3][j3].try_mul(&c[j3]) {
                Some(scaled) => scaled,
                None => {
                    return Err(RegressionError::Unrepresentable);
                },
            };
            s = match s.try_sub(&scaled) {
                Some(next) => next,
                None => {
                    return Err(RegressionError::Unrepresentable);
                },
            };
            j3 = j3 + 1;
        }
        let pivot = work[i3][i3];
        if pivot.is_zero() {
            return Err(RegressionError::SingularMatrix);
        }
        let ci = match s.try_div(&pivot) {
            Some(ci) => ci,
            None => {
                return Err(RegressionError::Unrepresentable);
            },
        };
        c.set(i3, ci);
        back = back - 1;
    }
    // Verified check: the candidate must satisfy the normal equations.
    let mut chk: usize = 0;
    while chk < d1
        invariant
            rationals_valid(predictors@),
            rationals_valid(outcomes@),
            predictors@.len() == outcomes@.len(),
            vx == views_of(predictors@),
            vy == views_of(outcomes@),
            d1 == degree + 1,
            0 <= chk <= d1,
            a_mat@.len() == d1,
            b_vec@.len() == d1,
            forall|t: int|
                0 <= t < d1 ==> (#[trigger] a_mat@[t])@.len() == d1 && rationals_valid(a_mat@[t]@)
                    && forall|j: int|
                    0 <= j < d1 ==> rat_eq(
                        (#[trigger] a_mat@[t]@[j]).v(),
                        sum_pow(vx, (t + j) as nat),
                    ),
            forall|t: int|
                0 <= t < d1 ==> (#[trigger] b_vec@[t]).valid() && rat_eq(
                    b_vec@[t].v(),
                    sum_pow_y(vx, vy, t as nat),
                ),
            c@.len() == d1,
            rationals_valid(c@),
            forall|t: int|
                0 <= t < chk ==> rat_eq(
                    #[trigger] dot_spec(xtx_row(vx, degree as nat, t), views_of(c@)),
                    sum_pow_y(vx, vy, t as nat),
                ),
        decreases d1 - chk,
    {
        let dotv = match dot_exec(&a_mat[chk], &c) {
            Some(dotv) => dotv,
            None => {
                return Err(RegressionError::Unrepresentable);
            },
        };
        if !dotv.eq_value(&b_vec[chk]) {
            return Err(RegressionError::SingularMatrix);
        }
        proof {
            let t = chk as int;
            let row_views = views_of(a_mat@[t]@);
            let spec_row = xtx_row(vx, degree as nat, t);
            let cvs = views_of(c@);
            assert(crate::regression::pairs_wf(vx));
            assert(crate::regression::pairs_wf(row_views));
            assert(crate::regression::pairs_wf(spec_row)) by {
                assert forall|j: int| 0 <= j < spec_row.len() implies (#[trigger] spec_row[j]).1
                    >= 1 by {
                    lemma_sum_pow_wf(vx, (t + j) as nat);
                }
            }
            assert(crate::regression::pairs_wf(cvs));
            assert(forall|j: int|
                0 <= j < row_views.len() ==> rat_eq(#[trigger] row_views[j], spec_row[j]));
            lemma_dot_congruence_left(row_views, spec_row, cvs);
            lemma_dot_wf(row_views, cvs);
            lemma_dot_wf(spec_row, cvs);
            lemma_sum_pow_y_wf(vx, vy, t as nat);
            lemma_rat_eq_trans(dotv.v(), dot_spec(row_views, cvs), dot_spec(spec_row, cvs));
            // dotv == b entry as values; chain to the specification side.
            assert(rat_eq(dot_spec(spec_row, cvs), b_vec@[t].v())) by (nonlinear_arith)
                requires
                    rat_eq(dotv.v(), dot_spec(spec_row, cvs)),
                    rat_eq(dotv.v(), b_vec@[t].v()),
                    dotv.v().1 >= 1,
                    dot_spec(spec_row, cvs).1 >= 1,
                    b_vec@[t].v().1 >= 1,
            ;
            lemma_rat_eq_trans(dot_spec(spec_row, cvs), b_vec@[t].v(), sum_pow_y(vx, vy, t as nat));
        }
        chk = chk + 1;
    }
    Ok(PolynomialCoefficients { coefficients: c })
}

/// An element-for-element copy of a vector of rationals.
fn copy_values_local(v: &Vec<Rational>) -> (r: Vec<Rational>)
    ensures
        r@ == v@,
{
    crate::regression::copy_values(v)
}

/// What ordinary least squares promises for a line: the pair
/// `(intercept, slope)` solves the degree-one normal equations.
pub open spec fn ols_fits(xs: Seq<Rational>, ys: Seq<Rational>, k: Rational, m: Rational) -> bool {
    normal_solution(views_of(xs), views_of(ys), 1, seq![m.v(), k.v()])
}

/// Linear estimation by ordinary least squares.
pub struct LinearOls;

impl LinearEstimator for LinearOls {
    open spec fn fits(&self, xs: Seq<Rational>, ys: Seq<Rational>, k: Rational, m: Rational) -> bool {
        ols_fits(xs, ys, k, m)
    }

    fn model(&self, predictors: &Vec<Rational>, outcomes: &Vec<Rational>) -> (r: Result<
        LinearCoefficients,
        RegressionError,
    >) {
        let pc = match polynomial(predictors, outcomes, 1) {
            Ok(pc) => pc,
            Err(e) => {
                return Err(e);
            },
        };
        let m = pc.coefficient(0);
        let k = pc.coefficient(1);
        proof {
            assert(views_of(pc.coeffs()) =~= seq![m.v(), k.v()]);
        }
        Ok(LinearCoefficients { k, m })
    }
}

} // verus!
