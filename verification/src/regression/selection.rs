//! The best-fit selector: evaluates candidate models under heuristic
//! guards, scores each by its exact coefficient of determination with
//! multiplicative bumps, and returns the candidate with the strictly
//! highest weighted score.  Candidates are weighed in a fixed order —
//! power, exponential, second-degree, third-degree, linear — and on an
//! exact tie the earlier one wins, because a later candidate replaces the
//! best only by scoring strictly higher.  The linear fit is always
//! evaluated, so a model comes out whenever the linear path itself
//! succeeds.

use vstd::prelude::*;

use crate::percentile::rationals_valid;
use crate::rational::{
    lemma_pos_mul, lemma_rat_eq_trans, lemma_rat_mul_congruence, lemma_representable_congruence,
    rat_div, rat_eq, rat_le, rat_lt, rat_mul, representable, Rational,
};
use crate::regression::derived::{
    min_value, ExponentialCoefficients, PowerCoefficients,
};
use crate::regression::ols::{normal_solution, polynomial, PolynomialCoefficients};
use crate::regression::{
    determination_of, views_of, LinearCoefficients, LinearEstimator, RegressionError,
};

verus! {

/// A fitted model of any supported shape, for callers that pick among
/// them at run time.
#[derive(Debug)]
pub enum DynModel {
    Linear(LinearCoefficients),
    Polynomial(PolynomialCoefficients),
    Power(PowerCoefficients),
    Exponential(ExponentialCoefficients),
    TheilSenLinear(LinearCoefficients),
}

impl DynModel {
    pub open spec fn wf(self) -> bool {
        match self {
            DynModel::Linear(lc) => lc.wf(),
            DynModel::Polynomial(p) => p.wf(),
            DynModel::Power(pc) => pc.wf(),
            DynModel::Exponential(ec) => ec.wf(),
            DynModel::TheilSenLinear(lc) => lc.wf(),
        }
    }

    /// The predicted outcome, for the model shapes whose prediction is
    /// rational (lines and polynomials).  Power and exponential models
    /// predict through `2^x`, which their caller computes: for those the
    /// result is `None`, as it is when an exact value does not fit.
    pub fn predict_outcome(&self, predictor: &Rational) -> (r: Option<Rational>)
        requires
            self.wf(),
            predictor.valid(),
        ensures
            r matches Some(q) ==> q.valid() && match *self {
                DynModel::Linear(lc) => rat_eq(q.v(), lc.predict_spec(predictor.v())),
                DynModel::TheilSenLinear(lc) => rat_eq(q.v(), lc.predict_spec(predictor.v())),
                DynModel::Polynomial(p) => rat_eq(q.v(), p.predict_spec(predictor.v())),
                DynModel::Power(_) => false,
                DynModel::Exponential(_) => false,
            },
            (self matches DynModel::Power(_)) ==> r is None,
            (self matches DynModel::Exponential(_)) ==> r is None,
            r is None ==> match *self {
                DynModel::Linear(lc) => !representable(rat_mul(lc.k.v(), predictor.v()))
                    || !representable(lc.predict_spec(predictor.v())),
                DynModel::TheilSenLinear(lc) => !representable(rat_mul(lc.k.v(), predictor.v()))
                    || !representable(lc.predict_spec(predictor.v())),
                DynModel::Polynomial(p) => crate::regression::ols::poly_eval_failure(
                    views_of(p.coeffs()),
                    predictor.v(),
                ),
                DynModel::Power(_) => true,
                DynModel::Exponential(_) => true,
            },
    {
        match self {
            DynModel::Linear(lc) => lc.predict_outcome(predictor),
            DynModel::TheilSenLinear(lc) => lc.predict_outcome(predictor),
            DynModel::Polynomial(p) => p.predict_outcome(predictor),
            DynModel::Power(_) => None,
            DynModel::Exponential(_) => None,
        }
    }
}

/// A candidate model together with its raw coefficient of determination
/// and its weighted score.
pub struct ScoredCandidate {
    pub model: DynModel,
    pub raw: Rational,
    pub score: Rational,
}

/// The scores of a candidate list.
pub open spec fn scores_of(cands: Seq<ScoredCandidate>) -> Seq<(int, int)> {
    cands.map_values(|c: ScoredCandidate| c.score.v())
}

/// The index of the winning score: a later candidate takes the lead only
/// by scoring strictly higher, so the earlier wins an exact tie.
pub open spec fn winner_index(scores: Seq<(int, int)>) -> int
    decreases scores.len(),
{
    if scores.len() <= 1 {
        0
    } else {
        let w = winner_index(scores.drop_last());
        if rat_lt(scores[w], scores.last()) {
            scores.len() - 1
        } else {
            w
        }
    }
}

/// The winner is in range, beats every earlier candidate strictly, and is
/// at least every later one: no candidate scores strictly higher.
pub proof fn lemma_winner_is_best(scores: Seq<(int, int)>)
    requires
        scores.len() >= 1,
        crate::regression::pairs_wf(scores),
    ensures
        0 <= winner_index(scores) < scores.len(),
        forall|i: int|
            0 <= i < winner_index(scores) ==> rat_lt(#[trigger] scores[i], scores[winner_index(scores)]),
        forall|i: int|
            0 <= i < scores.len() ==> rat_le(#[trigger] scores[i], scores[winner_index(scores)]),
    decreases scores.len(),
{
    if scores.len() == 1 {
        assert(rat_le(scores[0], scores[0]));
    } else {
        let prefix = scores.drop_last();
        assert(crate::regression::pairs_wf(prefix)) by {
            assert(forall|i: int|
                0 <= i < prefix.len() ==> prefix[i] == #[trigger] scores[i]);
        }
        lemma_winner_is_best(prefix);
        let w = winner_index(prefix);
        assert(forall|i: int| 0 <= i < prefix.len() ==> prefix[i] == #[trigger] scores[i]);
        if rat_lt(scores[w], scores.last()) {
            let wl = scores.len() - 1;
            assert(winner_index(scores) == wl);
            assert forall|i: int| 0 <= i < wl implies rat_lt(#[trigger] scores[i], scores[wl]) by {
                if i != w {
                    lemma_le_then_lt(scores[i], scores[w], scores[wl]);
                }
            }
            assert forall|i: int| 0 <= i < scores.len() implies rat_le(
                #[trigger] scores[i],
                scores[wl],
            ) by {
                if i < wl {
                    assert(rat_lt(scores[i], scores[wl]));
                } else {
                    assert(rat_le(scores[wl], scores[wl]));
                }
            }
        } else {
            assert(winner_index(scores) == w);
            assert(rat_le(scores.last(), scores[w])) by (nonlinear_arith)
                requires
                    !rat_lt(scores[w], scores.last()),
                    scores[w].1 >= 1,
                    scores.last().1 >= 1,
            ;
            assert(scores[scores.len() - 1] == scores.last());
        }
    }
}

/// At-most chains through strictly-below.
proof fn lemma_le_then_lt(a: (int, int), b: (int, int), c: (int, int))
    by (nonlinear_arith)
    requires
        rat_le(a, b),
        rat_lt(b, c),
        a.1 >= 1,
        b.1 >= 1,
        c.1 >= 1,
    ensures
        rat_lt(a, c),
{
}

/// Pick the winning candidate: the strictly highest weighted score, the
/// earliest on a tie.
pub fn select_best(cands: &Vec<ScoredCandidate>) -> (w: usize)
    requires
        cands@.len() >= 1,
        forall|i: int| 0 <= i < cands@.len() ==> (#[trigger] cands@[i]).score.valid(),
    ensures
        0 <= w < cands@.len(),
        w as int == winner_index(scores_of(cands@)),
{
    let ghost scores = scores_of(cands@);
    let mut best: usize = 0;
    let mut i: usize = 1;
    proof {
        assert(scores.take(1) =~= seq![scores[0]]);
        assert(winner_index(scores.take(1)) == 0);
    }
    while i < cands.len()
        invariant
            cands@.len() >= 1,
            forall|t: int| 0 <= t < cands@.len() ==> (#[trigger] cands@[t]).score.valid(),
            scores == scores_of(cands@),
            scores.len() == cands@.len(),
            1 <= i <= cands@.len(),
            0 <= best < i,
            best as int == winner_index(scores.take(i as int)),
        decreases cands@.len() - i,
    {
        proof {
            let p1 = scores.take(i as int + 1);
            assert(p1.drop_last() =~= scores.take(i as int));
            assert(p1.last() == scores[i as int]);
        }
        if cands[best].score.lt(&cands[i].score) {
            best = i;
        }
        i = i + 1;
    }
    proof {
        assert(scores.take(scores.len() as int) =~= scores);
    }
    best
}

/// The exponent's fractional part lies within `3/20` of an integer.
pub open spec fn near_integer_exponent(e: (int, int)) -> bool {
    let f = e.0 % e.1;
    20 * f < 3 * e.1 || 20 * f > 17 * e.1
}

/// The weighted score of a power candidate: the raw determination,
/// multiplied by `3/2` for a near-integer exponent, and by `13/10` once
/// past `4/5` and once more past `23/25`.
pub open spec fn power_bump_spec(raw: (int, int), e: (int, int)) -> (int, int) {
    let b1: (int, int) = if near_integer_exponent(e) {
        (3int, 2int)
    } else {
        (1int, 1int)
    };
    let b2: (int, int) = if rat_lt((4int, 5int), raw) {
        (13int, 10int)
    } else {
        (1int, 1int)
    };
    let b3: (int, int) = if rat_lt((23int, 25int), raw) {
        (13int, 10int)
    } else {
        (1int, 1int)
    };
    rat_mul(rat_mul(rat_mul(raw, b1), b2), b3)
}

/// The weighted score of an exponential candidate: the raw
/// determination, multiplied by `13/10` once past `4/5` and once more
/// past `23/25`.
pub open spec fn exponential_bump_spec(raw: (int, int)) -> (int, int) {
    let b2: (int, int) = if rat_lt((4int, 5int), raw) {
        (13int, 10int)
    } else {
        (1int, 1int)
    };
    let b3: (int, int) = if rat_lt((23int, 25int), raw) {
        (13int, 10int)
    } else {
        (1int, 1int)
    };
    rat_mul(rat_mul(raw, b2), b3)
}

/// The weighted score of a third-degree candidate: the raw determination
/// discounted by `47/50` against overfitting.
pub open spec fn third_degree_penalty_spec(raw: (int, int)) -> (int, int) {
    rat_mul(raw, (47int, 50int))
}

/// One multiplicative bump step: multiply `acc` by `num/den` exactly.
fn bump_step(acc: &Rational, num: i64, den: i64) -> (r: Option<Rational>)
    requires
        acc.valid(),
        1 <= den,
        1 <= num,
    ensures
        r matches Some(q) ==> q.valid() && rat_eq(q.v(), rat_mul(acc.v(), (num as int, den as int))),
        r is None ==> !representable(rat_mul(acc.v(), (num as int, den as int))),
{
    let factor = match Rational::new(num, den) {
        Some(factor) => factor,
        None => {
            // Positive 64-bit components always construct.
            proof {
                assert(false);
            }
            return None;
        },
    };
    let out = match acc.try_mul(&factor) {
        Some(out) => out,
        None => {
            proof {
                lemma_rat_mul_congruence(acc.v(), acc.v(), factor.v(), (num as int, den as int));
                lemma_pos_mul(acc.v().1, factor.v().1);
                lemma_pos_mul(acc.v().1, den as int);
                lemma_representable_congruence(
                    rat_mul(acc.v(), factor.v()),
                    rat_mul(acc.v(), (num as int, den as int)),
                );
            }
            return None;
        },
    };
    proof {
        lemma_rat_mul_congruence(acc.v(), acc.v(), factor.v(), (num as int, den as int));
        lemma_pos_mul(acc.v().1, factor.v().1);
        lemma_pos_mul(acc.v().1, den as int);
        lemma_rat_eq_trans(
            out.v(),
            rat_mul(acc.v(), factor.v()),
            rat_mul(acc.v(), (num as int, den as int)),
        );
    }
    Some(out)
}

/// The exact weighted score of a power candidate; `None` only when the
/// exact score does not fit the representation.
pub fn power_bump(raw: &Rational, e: &Rational) -> (r: Option<Rational>)
    requires
        raw.valid(),
        e.valid(),
    ensures
        r matches Some(q) ==> q.valid() && rat_eq(q.v(), power_bump_spec(raw.v(), e.v())),
        r is None ==> {
            let b1: (int, int) = if near_integer_exponent(e.v()) {
                (3int, 2int)
            } else {
                (1int, 1int)
            };
            let b2: (int, int) = if rat_lt((4int, 5int), raw.v()) {
                (13int, 10int)
            } else {
                (1int, 1int)
            };
            ||| !representable(rat_mul(raw.v(), b1))
            ||| !representable(rat_mul(rat_mul(raw.v(), b1), b2))
            ||| !representable(power_bump_spec(raw.v(), e.v()))
        },
{
    let f = e.fract();
    let low = match Rational::new(3, 20) {
        Some(low) => low,
        None => {
            proof {
                assert(false);
            }
            return None;
        },
    };
    let high = match Rational::new(17, 20) {
        Some(high) => high,
        None => {
            proof {
                assert(false);
            }
            return None;
        },
    };
    let near: bool = f.lt(&low) || high.lt(&f);
    proof {
        assert(rat_lt(f.v(), low.v()) == (20 * (e.v().0 % e.v().1) < 3 * e.v().1))
            by (nonlinear_arith)
            requires
                f.v() == (e.v().0 % e.v().1, e.v().1),
                rat_eq(low.v(), (3int, 20int)),
                low.v().1 >= 1,
                e.v().1 >= 1,
        ;
        assert(rat_lt(high.v(), f.v()) == (20 * (e.v().0 % e.v().1) > 17 * e.v().1))
            by (nonlinear_arith)
            requires
                f.v() == (e.v().0 % e.v().1, e.v().1),
                rat_eq(high.v(), (17int, 20int)),
                high.v().1 >= 1,
                e.v().1 >= 1,
        ;
    }
    let ghost b1: (int, int) = if near_integer_exponent(e.v()) {
        (3int, 2int)
    } else {
        (1int, 1int)
    };
    let t1 = if near {
        match bump_step(raw, 3, 2) {
            Some(t1) => t1,
            None => {
                return None;
            },
        }
    } else {
        match bump_step(raw, 1, 1) {
            Some(t1) => t1,
            None => {
                return None;
            },
        }
    };
    let four_fifths = match Rational::new(4, 5) {
        Some(q) => q,
        None => {
            proof {
                assert(false);
            }
            return None;
        },
    };
    let strong = match Rational::new(23, 25) {
        Some(q) => q,
        None => {
            proof {
                assert(false);
            }
            return None;
        },
    };
    proof {
        assert(rat_lt(four_fifths.v(), raw.v()) == rat_lt((4int, 5int), raw.v()))
            by (nonlinear_arith)
            requires
                rat_eq(four_fifths.v(), (4int, 5int)),
                four_fifths.v().1 >= 1,
                raw.v().1 >= 1,
        ;
        assert(rat_lt(strong.v(), raw.v()) == rat_lt((23int, 25int), raw.v())) by (nonlinear_arith)
            requires
                rat_eq(strong.v(), (23int, 25int)),
                strong.v().1 >= 1,
                raw.v().1 >= 1,
        ;
    }
    let ghost b2: (int, int) = if rat_lt((4int, 5int), raw.v()) {
        (13int, 10int)
    } else {
        (1int, 1int)
    };
    let t2 = if four_fifths.lt(raw) {
        match bump_step(&t1, 13, 10) {
            Some(t2) => t2,
            None => {
                proof {
                    lemma_bump_stage_failure(raw.v(), t1.v(), b1, b2);
                }
                return None;
            },
        }
    } else {
        match bump_step(&t1, 1, 1) {
            Some(t2) => t2,
            None => {
                proof {
                    lemma_bump_stage_failure(raw.v(), t1.v(), b1, b2);
                }
                return None;
            },
        }
    };
    let ghost b3: (int, int) = if rat_lt((23int, 25int), raw.v()) {
        (13int, 10int)
    } else {
        (1int, 1int)
    };
    let t3 = if strong.lt(raw) {
        match bump_step(&t2, 13, 10) {
            Some(t3) => t3,
            None => {
                proof {
                    lemma_pos_mul(raw.v().1, b1.1);
                    lemma_rat_mul_congruence(t1.v(), rat_mul(raw.v(), b1), b2, b2);
                    lemma_pos_mul(t1.v().1, b2.1);
                    lemma_pos_mul(rat_mul(raw.v(), b1).1, b2.1);
                    lemma_rat_eq_trans(
                        t2.v(),
                        rat_mul(t1.v(), b2),
                        rat_mul(rat_mul(raw.v(), b1), b2),
                    );
                    lemma_bump_stage_failure(rat_mul(raw.v(), b1), t2.v(), b2, b3);
                }
                return None;
            },
        }
    } else {
        match bump_step(&t2, 1, 1) {
            Some(t3) => t3,
            None => {
                proof {
                    lemma_pos_mul(raw.v().1, b1.1);
                    lemma_rat_mul_congruence(t1.v(), rat_mul(raw.v(), b1), b2, b2);
                    lemma_pos_mul(t1.v().1, b2.1);
                    lemma_pos_mul(rat_mul(raw.v(), b1).1, b2.1);
                    lemma_rat_eq_trans(
                        t2.v(),
                        rat_mul(t1.v(), b2),
                        rat_mul(rat_mul(raw.v(), b1), b2),
                    );
                    lemma_bump_stage_failure(rat_mul(raw.v(), b1), t2.v(), b2, b3);
                }
                return None;
            },
        }
    };
    proof {
        lemma_pos_mul(raw.v().1, b1.1);
        lemma_rat_mul_congruence(t1.v(), rat_mul(raw.v(), b1), (b2.0, b2.1), (b2.0, b2.1));
        lemma_pos_mul(t1.v().1, b2.1);
        lemma_pos_mul(rat_mul(raw.v(), b1).1, b2.1);
        lemma_rat_eq_trans(t2.v(), rat_mul(t1.v(), b2), rat_mul(rat_mul(raw.v(), b1), b2));
        lemma_rat_mul_congruence(
            t2.v(),
            rat_mul(rat_mul(raw.v(), b1), b2),
            (b3.0, b3.1),
            (b3.0, b3.1),
        );
        lemma_pos_mul(t2.v().1, b3.1);
        lemma_pos_mul(rat_mul(rat_mul(raw.v(), b1), b2).1, b3.1);
        lemma_rat_eq_trans(
            t3.v(),
            rat_mul(t2.v(), b3),
            rat_mul(rat_mul(rat_mul(raw.v(), b1), b2), b3),
        );
    }
    Some(t3)
}

/// The exact weighted score of an exponential candidate; `None` only when
/// the exact score does not fit the representation.
pub fn exponential_bump(raw: &Rational) -> (r: Option<Rational>)
    requires
        raw.valid(),
    ensures
        r matches Some(q) ==> q.valid() && rat_eq(q.v(), exponential_bump_spec(raw.v())),
        r is None ==> {
            let b2: (int, int) = if rat_lt((4int, 5int), raw.v()) {
                (13int, 10int)
            } else {
                (1int, 1int)
            };
            ||| !representable(rat_mul(raw.v(), b2))
            ||| !representable(exponential_bump_spec(raw.v()))
        },
{
    let four_fifths = match Rational::new(4, 5) {
        Some(q) => q,
        None => {
            proof {
                assert(false);
            }
            return None;
        },
    };
    let strong = match Rational::new(23, 25) {
        Some(q) => q,
        None => {
            proof {
                assert(false);
            }
            return None;
        },
    };
    proof {
        assert(rat_lt(four_fifths.v(), raw.v()) == rat_lt((4int, 5int), raw.v()))
            by (nonlinear_arith)
            requires
                rat_eq(four_fifths.v(), (4int, 5int)),
                four_fifths.v().1 >= 1,
                raw.v().1 >= 1,
        ;
        assert(rat_lt(strong.v(), raw.v()) == rat_lt((23int, 25int), raw.v())) by (nonlinear_arith)
            requires
                rat_eq(strong.v(), (23int, 25int)),
                strong.v().1 >= 1,
                raw.v().1 >= 1,
        ;
    }
    let ghost b2: (int, int) = if rat_lt((4int, 5int), raw.v()) {
        (13int, 10int)
    } else {
        (1int, 1int)
    };
    let t2 = if four_fifths.lt(raw) {
        match bump_step(raw, 13, 10) {
            Some(t2) => t2,
            None => {
                return None;
            },
        }
    } else {
        match bump_step(raw, 1, 1) {
            Some(t2) => t2,
            None => {
                return None;
            },
        }
    };
    let ghost b3: (int, int) = if rat_lt((23int, 25int), raw.v()) {
        (13int, 10int)
    } else {
        (1int, 1int)
    };
    let t3 = if strong.lt(raw) {
        match bump_step(&t2, 13, 10) {
            Some(t3) => t3,
            None => {
                proof {
                    lemma_bump_stage_failure(raw.v(), t2.v(), b2, b3);
                }
                return None;
            },
        }
    } else {
        match bump_step(&t2, 1, 1) {
            Some(t3) => t3,
            None => {
                proof {
                    lemma_bump_stage_failure(raw.v(), t2.v(), b2, b3);
                }
                return None;
            },
        }
    };
    proof {
        lemma_rat_mul_congruence(t2.v(), rat_mul(raw.v(), b2), (b3.0, b3.1), (b3.0, b3.1));
        lemma_pos_mul(t2.v().1, b3.1);
        lemma_pos_mul(rat_mul(raw.v(), b2).1, b3.1);
        lemma_rat_eq_trans(t3.v(), rat_mul(t2.v(), b3), rat_mul(rat_mul(raw.v(), b2), b3));
    }
    Some(t3)
}

/// If the exact product `cur * b_next` is unrepresentable and `cur`
/// equals `base * b_prev`, then `(base * b_prev) * b_next` is
/// unrepresentable too.
proof fn lemma_bump_stage_failure(base: (int, int), cur: (int, int), b_prev: (int, int), b_next: (int, int))
    requires
        base.1 >= 1,
        cur.1 >= 1,
        b_prev.1 >= 1,
        b_next.1 >= 1,
        rat_eq(cur, rat_mul(base, b_prev)),
        !representable(rat_mul(cur, b_next)),
    ensures
        !representable(rat_mul(rat_mul(base, b_prev), b_next)),
{
    lemma_pos_mul(base.1, b_prev.1);
    lemma_rat_mul_congruence(cur, rat_mul(base, b_prev), b_next, b_next);
    lemma_pos_mul(cur.1, b_next.1);
    lemma_pos_mul(rat_mul(base, b_prev).1, b_next.1);
    lemma_representable_congruence(rat_mul(cur, b_next), rat_mul(rat_mul(base, b_prev), b_next));
}

/// A power candidate as its caller evaluated it: the finished
/// coefficients and the model's prediction at every predictor (the
/// caller computes the `x^e` part).
pub struct PowerEvaluation {
    pub coefficients: PowerCoefficients,
    pub predictions: Vec<Rational>,
}

/// An exponential candidate as its caller evaluated it.
pub struct ExponentialEvaluation {
    pub coefficients: ExponentialCoefficients,
    pub predictions: Vec<Rational>,
}

/// A full description of one scored candidate: what its model satisfies,
/// what its raw determination measures, and how its weighted score was
/// derived from the raw one.
pub open spec fn scored_candidate_sound<E: LinearEstimator>(
    c: ScoredCandidate,
    xs: Seq<Rational>,
    ys: Seq<Rational>,
    est: E,
    pe: Option<PowerEvaluation>,
    ee: Option<ExponentialEvaluation>,
) -> bool {
    &&& c.raw.valid()
    &&& c.score.valid()
    &&& match c.model {
        DynModel::Linear(lc) => {
            &&& est.fits(xs, ys, lc.k, lc.m)
            &&& c.score == c.raw
            &&& exists|preds: Seq<Rational>|
                #![trigger views_of(preds)]
                {
                    &&& crate::regression::pointwise_eq(
                        preds,
                        crate::regression::line_predictions(lc, xs),
                    )
                    &&& rat_eq(
                        c.raw.v(),
                        crate::regression::determination_spec(views_of(preds), views_of(ys)),
                    )
                }
        },
        DynModel::Polynomial(p) => {
            &&& (xs.len() > 15 && p.coeffs().len() == 3 && c.score == c.raw) || (xs.len() > 50
                && p.coeffs().len() == 4 && rat_eq(
                c.score.v(),
                third_degree_penalty_spec(c.raw.v()),
            ))
            &&& normal_solution(
                views_of(xs),
                views_of(ys),
                (p.coeffs().len() - 1) as nat,
                views_of(p.coeffs()),
            )
            &&& exists|preds: Seq<Rational>|
                #![trigger views_of(preds)]
                {
                    &&& crate::regression::pointwise_eq(
                        preds,
                        crate::regression::ols::poly_predictions(p, xs),
                    )
                    &&& rat_eq(
                        c.raw.v(),
                        crate::regression::determination_spec(views_of(preds), views_of(ys)),
                    )
                }
        },
        DynModel::Power(pc) => {
            &&& pe matches Some(p) && p.coefficients == pc && rat_eq(
                c.raw.v(),
                crate::regression::determination_spec(views_of(p.predictions@), views_of(ys)),
            )
            &&& rat_eq(c.score.v(), power_bump_spec(c.raw.v(), pc.e.v()))
            &&& forall|i: int| 0 <= i < xs.len() ==> rat_le((1int, 1int), (#[trigger] xs[i]).v())
            &&& forall|i: int| 0 <= i < ys.len() ==> rat_le((1int, 1int), (#[trigger] ys[i]).v())
        },
        DynModel::Exponential(ec) => {
            &&& ee matches Some(e) && e.coefficients == ec && rat_eq(
                c.raw.v(),
                crate::regression::determination_spec(views_of(e.predictions@), views_of(ys)),
            )
            &&& rat_eq(c.score.v(), exponential_bump_spec(c.raw.v()))
            &&& forall|i: int| 0 <= i < xs.len() ==> rat_le((1int, 1int), (#[trigger] xs[i]).v())
            &&& forall|i: int| 0 <= i < ys.len() ==> rat_le((1int, 1int), (#[trigger] ys[i]).v())
        },
        DynModel::TheilSenLinear(_) => false,
    }
}

/// What the chosen model is promised to be: a linear fit satisfying the
/// estimator's relation, a checked polynomial solution of the admitted
/// degree, or exactly the supplied power/exponential candidate.
pub open spec fn candidate_model_sound<E: LinearEstimator>(
    model: DynModel,
    xs: Seq<Rational>,
    ys: Seq<Rational>,
    est: E,
    pe: Option<PowerCoefficients>,
    ee: Option<ExponentialCoefficients>,
) -> bool {
    match model {
        DynModel::Linear(lc) => est.fits(xs, ys, lc.k, lc.m),
        DynModel::Polynomial(p) => {
            &&& (xs.len() > 15 && p.coeffs().len() == 3) || (xs.len() > 50 && p.coeffs().len()
                == 4)
            &&& normal_solution(
                views_of(xs),
                views_of(ys),
                (p.coeffs().len() - 1) as nat,
                views_of(p.coeffs()),
            )
        },
        DynModel::Power(pc) => pe == Some(pc),
        DynModel::Exponential(ec) => ee == Some(ec),
        DynModel::TheilSenLinear(_) => false,
    }
}

/// Find the model best fit to the input data, by heuristics and scoring.
///
/// Power and exponential candidates predict through `2^x`, so the caller
/// fits and evaluates them (see `power_from_log2` and
/// `exponential_from_log2`) and passes the results in; they are weighed
/// only when every predictor and outcome is at least one, the guard the
/// heuristic demands, which is re-checked here.  Second- and third-degree
/// polynomials are considered from 16 and 51 samples on.  A candidate
/// whose exact score cannot be computed is not considered; the linear
/// fit is mandatory, and its failure is the failure of the whole call.
/// Returns the winning model and its raw (unweighted) coefficient of
/// determination.
pub fn best_fit<E: LinearEstimator>(
    predictors: &Vec<Rational>,
    outcomes: &Vec<Rational>,
    linear_estimator: &E,
    power_eval: Option<PowerEvaluation>,
    exponential_eval: Option<ExponentialEvaluation>,
) -> (r: Result<(DynModel, Rational), RegressionError>)
    requires
        rationals_valid(predictors@),
        rationals_valid(outcomes@),
        predictors@.len() == outcomes@.len(),
        predictors@.len() > 2,
        power_eval matches Some(pe) ==> pe.coefficients.wf() && rationals_valid(pe.predictions@)
            && pe.predictions@.len() == predictors@.len(),
        exponential_eval matches Some(ee) ==> ee.coefficients.wf() && rationals_valid(
            ee.predictions@,
        ) && ee.predictions@.len() == predictors@.len(),
    ensures
        r matches Ok((model, raw)) ==> {
            &&& model.wf()
            &&& raw.valid()
            &&& candidate_model_sound(
                model,
                predictors@,
                outcomes@,
                *linear_estimator,
                match power_eval {
                    Some(pe) => Some(pe.coefficients),
                    None => None,
                },
                match exponential_eval {
                    Some(ee) => Some(ee.coefficients),
                    None => None,
                },
            )
        },
        r matches Ok((model, raw)) ==> exists|cands: Seq<ScoredCandidate>, w: int|
            #![trigger scores_of(cands), cands[w]]
            {
                &&& 1 <= cands.len()
                &&& forall|i: int|
                    0 <= i < cands.len() ==> scored_candidate_sound(
                        #[trigger] cands[i],
                        predictors@,
                        outcomes@,
                        *linear_estimator,
                        power_eval,
                        exponential_eval,
                    )
                &&& cands[cands.len() - 1].model is Linear
                &&& w == winner_index(scores_of(cands))
                &&& 0 <= w < cands.len()
                &&& model == cands[w].model
                &&& raw == cands[w].raw
            },
        r == Err::<(DynModel, Rational), RegressionError>(RegressionError::ZeroVariance) ==> rat_eq(
            crate::regression::sq_dev_sum(
                views_of(outcomes@),
                rat_div(
                    crate::regression::rat_seq_sum(views_of(outcomes@)),
                    (outcomes@.len() as int, 1int),
                ),
            ),
            (0int, 1int),
        ),
        rat_eq(
            crate::regression::sq_dev_sum(
                views_of(outcomes@),
                rat_div(
                    crate::regression::rat_seq_sum(views_of(outcomes@)),
                    (outcomes@.len() as int, 1int),
                ),
            ),
            (0int, 1int),
        ) ==> r is Err,
{
    let ghost pe_spec: Option<PowerCoefficients> = match &power_eval {
        Some(pe) => Some(pe.coefficients),
        None => None,
    };
    let ghost ee_spec: Option<ExponentialCoefficients> = match &exponential_eval {
        Some(ee) => Some(ee.coefficients),
        None => None,
    };
    let one = Rational::one();
    let min_x = match min_value(predictors) {
        Some(m) => m,
        None => {
            // More than two samples were required, so a least one exists.
            proof {
                assert(false);
            }
            return Err(RegressionError::Unrepresentable);
        },
    };
    let min_y = match min_value(outcomes) {
        Some(m) => m,
        None => {
            proof {
                assert(false);
            }
            return Err(RegressionError::Unrepresentable);
        },
    };
    // The heuristic guard: logarithmic candidates only when no sample is
    // below one.
    let allow_log_models: bool = !min_x.lt(&one) && !min_y.lt(&one);
    let mut cands: Vec<ScoredCandidate> = Vec::new();
    if allow_log_models {
        proof {
            assert forall|i: int| 0 <= i < predictors@.len() implies rat_le(
                (1int, 1int),
                (#[trigger] predictors@[i]).v(),
            ) by {
                crate::rational::lemma_rat_le_trans(
                    (1int, 1int),
                    min_x.v(),
                    predictors@[i].v(),
                );
            }
            assert forall|i: int| 0 <= i < outcomes@.len() implies rat_le(
                (1int, 1int),
                (#[trigger] outcomes@[i]).v(),
            ) by {
                crate::rational::lemma_rat_le_trans((1int, 1int), min_y.v(), outcomes@[i].v());
            }
        }
        match power_eval {
            Some(pe) => {
                match determination_of(&pe.predictions, outcomes) {
                    Ok(raw) => {
                        match power_bump(&raw, &pe.coefficients.e) {
                            Some(score) => {
                                cands.push(
                                    ScoredCandidate {
                                        model: DynModel::Power(pe.coefficients),
                                        raw,
                                        score,
                                    },
                                );
                            },
                            None => {},
                        }
                    },
                    Err(_) => {},
                }
            },
            None => {},
        }
        match exponential_eval {
            Some(ee) => {
                match determination_of(&ee.predictions, outcomes) {
                    Ok(raw) => {
                        match exponential_bump(&raw) {
                            Some(score) => {
                                cands.push(
                                    ScoredCandidate {
                                        model: DynModel::Exponential(ee.coefficients),
                                        raw,
                                        score,
                                    },
                                );
                            },
                            None => {},
                        }
                    },
                    Err(_) => {},
                }
            },
            None => {},
        }
    }
    if predictors.len() > 15 {
        match polynomial(predictors, outcomes, 2) {
            Ok(pc) => {
                match pc.determination_slice(predictors, outcomes) {
                    Ok(raw) => {
                        cands.push(
                            ScoredCandidate { model: DynModel::Polynomial(pc), raw, score: raw },
                        );
                    },
                    Err(_) => {},
                }
            },
            Err(_) => {},
        }
    }
    if predictors.len() > 50 {
        match polynomial(predictors, outcomes, 3) {
            Ok(pc) => {
                match pc.determination_slice(predictors, outcomes) {
                    Ok(raw) => {
                        match bump_step(&raw, 47, 50) {
                            Some(score) => {
                                cands.push(
                                    ScoredCandidate { model: DynModel::Polynomial(pc), raw, score },
                                );
                            },
                            None => {},
                        }
                    },
                    Err(_) => {},
                }
            },
            Err(_) => {},
        }
    }
    let lc = match linear_estimator.model(predictors, outcomes) {
        Ok(lc) => lc,
        Err(e) => {
            return Err(e);
        },
    };
    let raw_linear = match lc.determination_slice(predictors, outcomes) {
        Ok(raw) => raw,
        Err(e) => {
            return Err(e);
        },
    };
    cands.push(ScoredCandidate { model: DynModel::Linear(lc), raw: raw_linear, score: raw_linear });
    proof {
        assert forall|i: int| 0 <= i < cands@.len() implies scored_candidate_sound(
            #[trigger] cands@[i],
            predictors@,
            outcomes@,
            *linear_estimator,
            power_eval,
            exponential_eval,
        ) by {}
    }
    let w = select_best(&cands);
    let ghost cs = cands@;
    let winner = cands.remove(w);
    proof {
        assert(scores_of(cs).len() == cs.len());
        assert(cs[cs.len() - 1].model is Linear);
        assert(winner == cs[w as int]);
    }
    Ok((winner.model, winner.raw))
}

/// Convenience form of `best_fit` using ordinary least squares as the
/// linear estimator and no power or exponential candidates: it carries
/// `best_fit`'s whole selection contract, instantiated accordingly.
pub fn best_fit_ols(predictors: &Vec<Rational>, outcomes: &Vec<Rational>) -> (r: Result<
    (DynModel, Rational),
    RegressionError,
>)
    requires
        rationals_valid(predictors@),
        rationals_valid(outcomes@),
        predictors@.len() == outcomes@.len(),
        predictors@.len() > 2,
    ensures
        r matches Ok((model, raw)) ==> {
            &&& model.wf()
            &&& raw.valid()
            &&& candidate_model_sound(
                model,
                predictors@,
                outcomes@,
                crate::regression::ols::LinearOls,
                None::<PowerCoefficients>,
                None::<ExponentialCoefficients>,
            )
        },
        r matches Ok((model, raw)) ==> exists|cands: Seq<ScoredCandidate>, w: int|
            #![trigger scores_of(cands), cands[w]]
            {
                &&& 1 <= cands.len()
                &&& forall|i: int|
                    0 <= i < cands.len() ==> scored_candidate_sound(
                        #[trigger] cands[i],
                        predictors@,
                        outcomes@,
                        crate::regression::ols::LinearOls,
                        None::<PowerEvaluation>,
                        None::<ExponentialEvaluation>,
                    )
                &&& cands[cands.len() - 1].model is Linear
                &&& w == winner_index(scores_of(cands))
                &&& 0 <= w < cands.len()
                &&& model == cands[w].model
                &&& raw == cands[w].raw
            },
        r == Err::<(DynModel, Rational), RegressionError>(RegressionError::ZeroVariance) ==> rat_eq(
            crate::regression::sq_dev_sum(
                views_of(outcomes@),
                rat_div(
                    crate::regression::rat_seq_sum(views_of(outcomes@)),
                    (outcomes@.len() as int, 1int),
                ),
            ),
            (0int, 1int),
        ),
        rat_eq(
            crate::regression::sq_dev_sum(
                views_of(outcomes@),
                rat_div(
                    crate::regression::rat_seq_sum(views_of(outcomes@)),
                    (outcomes@.len() as int, 1int),
                ),
            ),
            (0int, 1int),
        ) ==> r is Err,
{
    let estimator = crate::regression::ols::LinearOls;
    best_fit(predictors, outcomes, &estimator, None, None)
}

} // verus!
