//! Exact rational numbers: the numeric model of this library.
//!
//! Every sample value, coefficient and score in this crate is an exact
//! rational held as a signed 64-bit numerator over a positive 64-bit
//! denominator.  All arithmetic is exact; an operation whose reduced result
//! does not fit the representation reports `None` instead of rounding.
//!
//! Specifications speak about a rational as a pair `(int, int)` of a
//! numerator and a positive denominator, compared by cross multiplication
//! (`rat_eq`), so contracts pin results down as mathematical rationals,
//! independently of the representative chosen.

use vstd::prelude::*;

verus! {

/// A numerator/denominator pair is well formed when its denominator is
/// positive.
pub open spec fn rat_wf(a: (int, int)) -> bool {
    a.1 >= 1
}

/// Two numerator/denominator pairs denote the same rational.
pub open spec fn rat_eq(a: (int, int), b: (int, int)) -> bool {
    a.0 * b.1 == b.0 * a.1
}

/// `a <= b` as rationals (meaningful when both denominators are positive).
pub open spec fn rat_le(a: (int, int), b: (int, int)) -> bool {
    a.0 * b.1 <= b.0 * a.1
}

/// `a < b` as rationals (meaningful when both denominators are positive).
pub open spec fn rat_lt(a: (int, int), b: (int, int)) -> bool {
    a.0 * b.1 < b.0 * a.1
}

pub open spec fn rat_add(a: (int, int), b: (int, int)) -> (int, int) {
    (a.0 * b.1 + b.0 * a.1, a.1 * b.1)
}

pub open spec fn rat_sub(a: (int, int), b: (int, int)) -> (int, int) {
    (a.0 * b.1 - b.0 * a.1, a.1 * b.1)
}

pub open spec fn rat_mul(a: (int, int), b: (int, int)) -> (int, int) {
    (a.0 * b.0, a.1 * b.1)
}

/// The reciprocal, with the sign moved into the numerator so the
/// denominator stays positive.  Meaningful only when `b.0 != 0`.
pub open spec fn rat_inv(b: (int, int)) -> (int, int) {
    if b.0 >= 0 {
        (b.1, b.0)
    } else {
        (-b.1, -b.0)
    }
}

pub open spec fn rat_div(a: (int, int), b: (int, int)) -> (int, int) {
    rat_mul(a, rat_inv(b))
}

pub open spec fn rat_neg(a: (int, int)) -> (int, int) {
    (-a.0, a.1)
}

/// `d` divides `x` over the integers.
pub open spec fn divides(d: int, x: int) -> bool {
    exists|k: int| x == #[trigger] (d * k)
}

/// The rational denoted by `v` has a representative that fits this
/// library's 64-bit form: a numerator and positive denominator both at
/// most `mag_bound` in magnitude.
pub open spec fn representable(v: (int, int)) -> bool {
    exists|n: int, d: int|
        {
            &&& 1 <= d <= mag_bound()
            &&& -mag_bound() <= n <= mag_bound()
            &&& #[trigger] rat_eq((n, d), v)
        }
}

/// An exact rational number: `num / den` with `den >= 1`.
#[derive(Clone, Copy, Debug, PartialEq, Eq, Structural)]
pub struct Rational {
    num: i64,
    den: i64,
}

/// Magnitudes of both components of a well-formed `Rational` stay at or
/// below this bound, so cross products of two of them fit in an `i128`
/// with room to spare for one addition.
pub open spec fn mag_bound() -> int {
    0x7fff_ffff_ffff_ffff
}

proof fn lemma_cross_product_bound(a: int, b: int)
    by (nonlinear_arith)
    requires
        -mag_bound() <= a <= mag_bound(),
        -mag_bound() <= b <= mag_bound(),
    ensures
        -mag_bound() * mag_bound() <= a * b <= mag_bound() * mag_bound(),
{
}

proof fn lemma_pos_product_bound(a: int, b: int)
    by (nonlinear_arith)
    requires
        1 <= a <= mag_bound(),
        1 <= b <= mag_bound(),
    ensures
        1 <= a * b <= mag_bound() * mag_bound(),
{
}

impl Rational {
    /// The mathematical value, as a numerator/denominator pair.
    pub closed spec fn v(self) -> (int, int) {
        (self.num as int, self.den as int)
    }

    /// Representation invariant: positive denominator, both components
    /// bounded in magnitude, so the numerator can be negated.
    pub open spec fn valid(self) -> bool {
        &&& 1 <= self.v().1 <= mag_bound()
        &&& -mag_bound() <= self.v().0 <= mag_bound()
    }

    /// The stored numerator.
    pub fn numerator(&self) -> (n: i64)
        ensures
            n == self.v().0,
    {
        self.num
    }

    /// The stored denominator.
    pub fn denominator(&self) -> (d: i64)
        ensures
            d == self.v().1,
    {
        self.den
    }
}

/// Greatest common divisor by Euclid's algorithm, together with the
/// facts that make it the greatest: it divides both arguments, and it is
/// an integer combination of them (so every common divisor divides it).
fn gcd_u128(a: u128, b: u128) -> (g: u128)
    ensures
        a >= 1 || b >= 1 ==> g >= 1,
        divides(g as int, a as int),
        divides(g as int, b as int),
        exists|u: int, v: int| g as int == #[trigger] (u * (a as int) + v * (b as int)),
    decreases b,
{
    if b == 0 {
        proof {
            assert(a as int == (a as int) * 1);
            assert(0int == (a as int) * 0);
            assert(a as int == 1 * (a as int) + 0 * (b as int)) by (nonlinear_arith);
        }
        a
    } else {
        let r: u128 = a % b;
        let g = gcd_u128(b, r);
        proof {
            vstd::arithmetic::div_mod::lemma_fundamental_div_mod(a as int, b as int);
            let q = a as int / b as int;
            let kb = choose|k: int| b as int == #[trigger] ((g as int) * k);
            let kr = choose|k: int| r as int == #[trigger] ((g as int) * k);
            assert(a as int == (g as int) * (kb * q + kr)) by (nonlinear_arith)
                requires
                    a as int == q * (b as int) + (r as int),
                    b as int == (g as int) * kb,
                    r as int == (g as int) * kr,
            ;
            let (u0, v0): (int, int) = choose|u: int, v: int|
                g as int == #[trigger] (u * (b as int) + v * (r as int));
            assert(g as int == v0 * (a as int) + (u0 - v0 * q) * (b as int)) by (nonlinear_arith)
                requires
                    g as int == u0 * (b as int) + v0 * (r as int),
                    a as int == q * (b as int) + (r as int),
            ;
        }
        g
    }
}

/// Reduce a wide numerator/denominator pair to the 64-bit representation,
/// preserving the rational value exactly.  `None` exactly when the
/// denoted rational has no 64-bit representative at all: the fully
/// reduced form is the smallest one, so if it does not fit, nothing
/// equal to it does.
fn reduce_wide(n: i128, d: i128) -> (r: Option<Rational>)
    requires
        1 <= d,
        -0x7fff_ffff_ffff_ffff_ffff_ffff_ffff_ffff <= n,
    ensures
        r matches Some(q) ==> q.valid() && rat_eq(q.v(), (n as int, d as int)),
        r is None ==> !representable((n as int, d as int)),
        -mag_bound() <= n <= mag_bound() && d <= mag_bound() ==> r is Some,
{
    let neg: bool = n < 0;
    let nm: u128 = if neg {
        (-n) as u128
    } else {
        n as u128
    };
    let dm: u128 = d as u128;
    let g: u128 = gcd_u128(nm, dm);
    proof {
        let kn = choose|k: int| nm as int == #[trigger] ((g as int) * k);
        let kd = choose|k: int| dm as int == #[trigger] ((g as int) * k);
        vstd::arithmetic::div_mod::lemma_div_multiples_vanish(kn, g as int);
        vstd::arithmetic::div_mod::lemma_div_multiples_vanish(kd, g as int);
        assert(0 <= kn <= nm as int && 1 <= kd <= dm as int) by (nonlinear_arith)
            requires
                nm as int == (g as int) * kn,
                dm as int == (g as int) * kd,
                g >= 1,
                dm >= 1,
                nm >= 0,
        ;
    }
    let qn: u128 = nm / g;
    let qd: u128 = dm / g;
    if qn > 0x7fff_ffff_ffff_ffff || qd > 0x7fff_ffff_ffff_ffff {
        proof {
            lemma_reduced_form_is_minimal(
                n as int,
                d as int,
                nm as int,
                dm as int,
                g as int,
                qn as int,
                qd as int,
            );
        }
        return None;
    }
    let num: i64 = if neg {
        -(qn as i64)
    } else {
        qn as i64
    };
    let den: i64 = qd as i64;
    proof {
        assert(num as int * d == n * (den as int)) by (nonlinear_arith)
            requires
                nm as int == (g as int) * (qn as int),
                dm as int == (g as int) * (qd as int),
                g >= 1,
                dm as int == d,
                (if neg {
                    nm as int == -n && num as int == -(qn as int)
                } else {
                    nm as int == n && num as int == qn as int
                }),
                den as int == qd as int,
        ;
    }
    Some(Rational { num, den })
}

/// If even the gcd-reduced form `(qn, qd)` of a pair exceeds the 64-bit
/// magnitude bound, then no equal pair fits it: by Bezout, every equal
/// pair is a positive integer multiple of the reduced form.
proof fn lemma_reduced_form_is_minimal(
    n: int,
    d: int,
    nm: int,
    dm: int,
    g: int,
    qn: int,
    qd: int,
)
    requires
        1 <= d,
        d == dm,
        (n >= 0 ==> nm == n) && (n < 0 ==> nm == -n),
        g >= 1,
        nm == g * qn,
        dm == g * qd,
        qn >= 0,
        qd >= 1,
        qn > mag_bound() || qd > mag_bound(),
        exists|u: int, v: int| g == #[trigger] (u * nm + v * dm),
    ensures
        !representable((n, d)),
{
    if representable((n, d)) {
        let (n0, d0): (int, int) = choose|n0: int, d0: int|
            {
                &&& 1 <= d0 <= mag_bound()
                &&& -mag_bound() <= n0 <= mag_bound()
                &&& #[trigger] rat_eq((n0, d0), (n, d))
            };
        let (u, v): (int, int) = choose|u: int, v: int| g == #[trigger] (u * nm + v * dm);
        // A combination of nm and dm is g times a combination of qn and qd.
        assert(1 == u * qn + v * qd) by (nonlinear_arith)
            requires
                g == u * nm + v * dm,
                nm == g * qn,
                dm == g * qd,
                g >= 1,
        ;
        // Move to magnitudes: m0 / d0 equals nm / dm with m0 at most the bound.
        let m0 = if n >= 0 {
            n0
        } else {
            -n0
        };
        assert(m0 * dm == nm * d0 && 0 <= m0 <= mag_bound()) by (nonlinear_arith)
            requires
                n0 * d == n * d0,
                d == dm,
                (n >= 0 ==> nm == n && m0 == n0) && (n < 0 ==> nm == -n && m0 == -n0),
                dm >= 1,
                d0 >= 1,
                nm >= 0,
                -mag_bound() <= n0 <= mag_bound(),
        ;
        // Cancel the gcd.
        assert(m0 * qd == qn * d0) by (nonlinear_arith)
            requires
                m0 * dm == nm * d0,
                nm == g * qn,
                dm == g * qd,
                g >= 1,
        ;
        // Both components of (n0, d0) are the same positive multiple of
        // the reduced components.
        let t = u * m0 + v * d0;
        assert(d0 == qd * t && m0 == qn * t) by (nonlinear_arith)
            requires
                1 == u * qn + v * qd,
                m0 * qd == qn * d0,
                t == u * m0 + v * d0,
        ;
        assert(t >= 1) by (nonlinear_arith)
            requires
                d0 == qd * t,
                d0 >= 1,
                qd >= 1,
        ;
        if qd > mag_bound() {
            assert(false) by (nonlinear_arith)
                requires
                    d0 == qd * t,
                    t >= 1,
                    qd > mag_bound(),
                    d0 <= mag_bound(),
            ;
        } else {
            assert(false) by (nonlinear_arith)
                requires
                    m0 == qn * t,
                    t >= 1,
                    qn > mag_bound(),
                    m0 <= mag_bound(),
            ;
        }
    }
}

/// Two equal rationals are representable or not together.
pub proof fn lemma_representable_congruence(x: (int, int), y: (int, int))
    requires
        rat_eq(x, y),
        x.1 >= 1,
        y.1 >= 1,
    ensures
        representable(x) <==> representable(y),
{
    if representable(x) {
        let (n0, d0): (int, int) = choose|n0: int, d0: int|
            {
                &&& 1 <= d0 <= mag_bound()
                &&& -mag_bound() <= n0 <= mag_bound()
                &&& #[trigger] rat_eq((n0, d0), x)
            };
        lemma_rat_eq_trans((n0, d0), x, y);
        assert(rat_eq((n0, d0), y));
    }
    if representable(y) {
        let (n0, d0): (int, int) = choose|n0: int, d0: int|
            {
                &&& 1 <= d0 <= mag_bound()
                &&& -mag_bound() <= n0 <= mag_bound()
                &&& #[trigger] rat_eq((n0, d0), y)
            };
        assert(rat_eq(y, x)) by (nonlinear_arith)
            requires
                rat_eq(x, y),
        ;
        lemma_rat_eq_trans((n0, d0), y, x);
        assert(rat_eq((n0, d0), x));
    }
}

impl Rational {
    /// Build `num / den`; `None` exactly when `den` is zero or the value
    /// has no 64-bit representative (possible only in the corner where a
    /// component is `i64::MIN`).  A negative denominator is folded into
    /// the numerator.
    pub fn new(num: i64, den: i64) -> (r: Option<Rational>)
        ensures
            den == 0 ==> r is None,
            den != 0 && num != i64::MIN && den != i64::MIN ==> r is Some,
            r matches Some(q) ==> q.valid() && rat_eq(q.v(), (num as int, den as int)),
            den != 0 && r is None ==> !representable((num as int, den as int)),
    {
        if den == 0 {
            return None;
        }
        let wide_n: i128 = if den < 0 {
            -(num as i128)
        } else {
            num as i128
        };
        let wide_d: i128 = if den < 0 {
            -(den as i128)
        } else {
            den as i128
        };
        let reduced = reduce_wide(wide_n, wide_d);
        proof {
            if reduced is None && representable((num as int, den as int)) {
                // A representative of num/den also represents the
                // sign-normalized wide pair, contradicting minimality.
                let (n0, d0): (int, int) = choose|n0: int, d0: int|
                    {
                        &&& 1 <= d0 <= mag_bound()
                        &&& -mag_bound() <= n0 <= mag_bound()
                        &&& #[trigger] rat_eq((n0, d0), (num as int, den as int))
                    };
                assert(rat_eq((n0, d0), (wide_n as int, wide_d as int))) by (nonlinear_arith)
                    requires
                        rat_eq((n0, d0), (num as int, den as int)),
                        (if den < 0 {
                            wide_n == -(num as int) && wide_d == -(den as int)
                        } else {
                            wide_n == num as int && wide_d == den as int
                        }),
                ;
                assert(representable((wide_n as int, wide_d as int)));
                assert(false);
            }
            if let Some(q) = reduced {
                assert(rat_eq(q.v(), (num as int, den as int))) by (nonlinear_arith)
                    requires
                        rat_eq(q.v(), (wide_n as int, wide_d as int)),
                        (if den < 0 {
                            wide_n == -(num as int) && wide_d == -(den as int)
                        } else {
                            wide_n == num as int && wide_d == den as int
                        }),
                        q.v().1 >= 1,
                        wide_d >= 1,
                ;
            }
        }
        reduced
    }

    /// The rational with value `n`.
    pub fn from_int(n: i64) -> (r: Rational)
        requires
            n != i64::MIN,
        ensures
            r.valid(),
            r.v() == (n as int, 1int),
    {
        Rational { num: n, den: 1 }
    }

    /// Exact zero.
    pub fn zero() -> (r: Rational)
        ensures
            r.valid(),
            r.v() == (0int, 1int),
    {
        Rational { num: 0, den: 1 }
    }

    /// Exact one.
    pub fn one() -> (r: Rational)
        ensures
            r.valid(),
            r.v() == (1int, 1int),
    {
        Rational { num: 1, den: 1 }
    }

    /// Exact sum; `None` exactly when the sum has no 64-bit
    /// representative.
    pub fn try_add(&self, other: &Rational) -> (r: Option<Rational>)
        requires
            self.valid(),
            other.valid(),
        ensures
            r matches Some(q) ==> q.valid() && rat_eq(q.v(), rat_add(self.v(), other.v())),
            r is None ==> !representable(rat_add(self.v(), other.v())),
    {
        proof {
            lemma_cross_product_bound(self.num as int, other.den as int);
            lemma_cross_product_bound(other.num as int, self.den as int);
            lemma_pos_product_bound(self.den as int, other.den as int);
        }
        let n: i128 = self.num as i128 * other.den as i128 + other.num as i128 * self.den as i128;
        let d: i128 = self.den as i128 * other.den as i128;
        reduce_wide(n, d)
    }

    /// Exact difference; `None` exactly when the difference has no 64-bit
    /// representative.
    pub fn try_sub(&self, other: &Rational) -> (r: Option<Rational>)
        requires
            self.valid(),
            other.valid(),
        ensures
            r matches Some(q) ==> q.valid() && rat_eq(q.v(), rat_sub(self.v(), other.v())),
            r is None ==> !representable(rat_sub(self.v(), other.v())),
    {
        proof {
            lemma_cross_product_bound(self.num as int, other.den as int);
            lemma_cross_product_bound(other.num as int, self.den as int);
            lemma_pos_product_bound(self.den as int, other.den as int);
        }
        let n: i128 = self.num as i128 * other.den as i128 - other.num as i128 * self.den as i128;
        let d: i128 = self.den as i128 * other.den as i128;
        reduce_wide(n, d)
    }

    /// Exact product; `None` exactly when the product has no 64-bit
    /// representative.
    pub fn try_mul(&self, other: &Rational) -> (r: Option<Rational>)
        requires
            self.valid(),
            other.valid(),
        ensures
            r matches Some(q) ==> q.valid() && rat_eq(q.v(), rat_mul(self.v(), other.v())),
            r is None ==> !representable(rat_mul(self.v(), other.v())),
    {
        proof {
            lemma_cross_product_bound(self.num as int, other.num as int);
            lemma_pos_product_bound(self.den as int, other.den as int);
        }
        let n: i128 = self.num as i128 * other.num as i128;
        let d: i128 = self.den as i128 * other.den as i128;
        reduce_wide(n, d)
    }

    /// Exact quotient; `None` exactly when the divisor is zero or the
    /// quotient has no 64-bit representative.
    pub fn try_div(&self, other: &Rational) -> (r: Option<Rational>)
        requires
            self.valid(),
            other.valid(),
        ensures
            other.v().0 == 0 ==> r is None,
            r matches Some(q) ==> q.valid() && rat_eq(q.v(), rat_div(self.v(), other.v())),
            other.v().0 != 0 && r is None ==> !representable(rat_div(self.v(), other.v())),
    {
        if other.num == 0 {
            return None;
        }
        let inv_n: i64 = if other.num >= 0 {
            other.den
        } else {
            -other.den
        };
        let inv_d: i64 = if other.num >= 0 {
            other.num
        } else {
            -other.num
        };
        proof {
            lemma_cross_product_bound(self.num as int, inv_n as int);
            lemma_pos_product_bound(self.den as int, inv_d as int);
        }
        let n: i128 = self.num as i128 * inv_n as i128;
        let d: i128 = self.den as i128 * inv_d as i128;
        reduce_wide(n, d)
    }

    /// The exact midpoint of two rationals; `None` exactly when the
    /// midpoint has no 64-bit representative.
    pub fn mean_with(&self, other: &Rational) -> (r: Option<Rational>)
        requires
            self.valid(),
            other.valid(),
        ensures
            r matches Some(q) ==> q.valid() && rat_eq(
                q.v(),
                rat_div(rat_add(self.v(), other.v()), (2int, 1int)),
            ),
            r is None ==> !representable(rat_div(rat_add(self.v(), other.v()), (2int, 1int))),
    {
        proof {
            lemma_cross_product_bound(self.num as int, other.den as int);
            lemma_cross_product_bound(other.num as int, self.den as int);
            lemma_pos_product_bound(self.den as int, other.den as int);
        }
        let n: i128 = self.num as i128 * other.den as i128 + other.num as i128 * self.den as i128;
        let d: i128 = 2 * (self.den as i128 * other.den as i128);
        reduce_wide(n, d)
    }

    /// Exact negation; total on valid rationals.
    pub fn neg(&self) -> (r: Rational)
        requires
            self.valid(),
        ensures
            r.valid(),
            r.v() == rat_neg(self.v()),
    {
        Rational { num: -self.num, den: self.den }
    }

    /// Exact comparison `self <= other`.
    pub fn le(&self, other: &Rational) -> (r: bool)
        requires
            self.valid(),
            other.valid(),
        ensures
            r == rat_le(self.v(), other.v()),
    {
        proof {
            lemma_cross_product_bound(self.num as int, other.den as int);
            lemma_cross_product_bound(other.num as int, self.den as int);
        }
        self.num as i128 * other.den as i128 <= other.num as i128 * self.den as i128
    }

    /// Exact comparison `self < other`.
    pub fn lt(&self, other: &Rational) -> (r: bool)
        requires
            self.valid(),
            other.valid(),
        ensures
            r == rat_lt(self.v(), other.v()),
    {
        proof {
            lemma_cross_product_bound(self.num as int, other.den as int);
            lemma_cross_product_bound(other.num as int, self.den as int);
        }
        let lhs: i128 = self.num as i128 * other.den as i128;
        let rhs: i128 = other.num as i128 * self.den as i128;
        lhs < rhs
    }

    /// Exact value equality (`1/2` equals `2/4`; representation equality
    /// is the derived `==`).
    pub fn eq_value(&self, other: &Rational) -> (r: bool)
        requires
            self.valid(),
            other.valid(),
        ensures
            r == rat_eq(self.v(), other.v()),
    {
        proof {
            lemma_cross_product_bound(self.num as int, other.den as int);
            lemma_cross_product_bound(other.num as int, self.den as int);
        }
        self.num as i128 * other.den as i128 == other.num as i128 * self.den as i128
    }

    /// Whether the value is exactly zero.
    pub fn is_zero(&self) -> (r: bool)
        ensures
            r == (self.v().0 == 0),
    {
        self.num == 0
    }
}

/// Equality of rationals is transitive (through a well-formed middle).
pub proof fn lemma_rat_eq_trans(a: (int, int), b: (int, int), c: (int, int))
    by (nonlinear_arith)
    requires
        rat_eq(a, b),
        rat_eq(b, c),
        b.1 >= 1,
    ensures
        rat_eq(a, c),
{
}

/// Order respects equality on both sides.
pub proof fn lemma_rat_le_respects_eq(a: (int, int), a2: (int, int), b: (int, int), b2: (int, int))
    by (nonlinear_arith)
    requires
        rat_eq(a, a2),
        rat_eq(b, b2),
        rat_le(a, b),
        a.1 >= 1,
        a2.1 >= 1,
        b.1 >= 1,
        b2.1 >= 1,
    ensures
        rat_le(a2, b2),
{
}

/// The order is transitive.
pub proof fn lemma_rat_le_trans(a: (int, int), b: (int, int), c: (int, int))
    by (nonlinear_arith)
    requires
        rat_le(a, b),
        rat_le(b, c),
        a.1 >= 1,
        b.1 >= 1,
        c.1 >= 1,
    ensures
        rat_le(a, c),
{
}

/// Strictly-below chains through at-most.
pub proof fn lemma_rat_lt_le_trans(a: (int, int), b: (int, int), c: (int, int))
    by (nonlinear_arith)
    requires
        rat_lt(a, b),
        rat_le(b, c),
        a.1 >= 1,
        b.1 >= 1,
        c.1 >= 1,
    ensures
        rat_lt(a, c),
{
}

/// A product of positive factors is positive.
pub proof fn lemma_pos_mul(a: int, b: int)
    by (nonlinear_arith)
    requires
        a >= 1,
        b >= 1,
    ensures
        a * b >= 1,
{
}

/// Replacing the left operand of a sum by an equal rational keeps the sum
/// equal.
proof fn lemma_rat_add_congruence_left(a: (int, int), a2: (int, int), b: (int, int))
    by (nonlinear_arith)
    requires
        rat_eq(a, a2),
        a.1 >= 1,
        a2.1 >= 1,
        b.1 >= 1,
    ensures
        rat_eq(rat_add(a, b), rat_add(a2, b)),
{
}

/// Replacing the right operand of a sum by an equal rational keeps the sum
/// equal.
proof fn lemma_rat_add_congruence_right(a: (int, int), b: (int, int), b2: (int, int))
    by (nonlinear_arith)
    requires
        rat_eq(b, b2),
        a.1 >= 1,
        b.1 >= 1,
        b2.1 >= 1,
    ensures
        rat_eq(rat_add(a, b), rat_add(a, b2)),
{
}

/// Sums of equal rationals are equal.
pub proof fn lemma_rat_add_congruence(a: (int, int), a2: (int, int), b: (int, int), b2: (int, int))
    requires
        rat_eq(a, a2),
        rat_eq(b, b2),
        a.1 >= 1,
        a2.1 >= 1,
        b.1 >= 1,
        b2.1 >= 1,
    ensures
        rat_eq(rat_add(a, b), rat_add(a2, b2)),
{
    lemma_rat_add_congruence_left(a, a2, b);
    lemma_rat_add_congruence_right(a2, b, b2);
    lemma_pos_mul(a2.1, b.1);
    lemma_rat_eq_trans(rat_add(a, b), rat_add(a2, b), rat_add(a2, b2));
}

/// Negations of equal rationals are equal.
pub proof fn lemma_rat_neg_congruence(a: (int, int), a2: (int, int))
    by (nonlinear_arith)
    ensures
        rat_eq(a, a2) ==> rat_eq(rat_neg(a), rat_neg(a2)),
{
}

/// Differences of equal rationals are equal.
pub proof fn lemma_rat_sub_congruence(a: (int, int), a2: (int, int), b: (int, int), b2: (int, int))
    requires
        rat_eq(a, a2),
        rat_eq(b, b2),
        a.1 >= 1,
        a2.1 >= 1,
        b.1 >= 1,
        b2.1 >= 1,
    ensures
        rat_eq(rat_sub(a, b), rat_sub(a2, b2)),
{
    lemma_rat_neg_congruence(b, b2);
    lemma_rat_add_congruence(a, a2, rat_neg(b), rat_neg(b2));
    assert(rat_add(a, rat_neg(b)) == rat_sub(a, b)) by (nonlinear_arith);
    assert(rat_add(a2, rat_neg(b2)) == rat_sub(a2, b2)) by (nonlinear_arith);
}

/// Multiplication of rationals is commutative (up to value equality).
pub proof fn lemma_rat_mul_comm(a: (int, int), b: (int, int))
    by (nonlinear_arith)
    ensures
        rat_eq(rat_mul(a, b), rat_mul(b, a)),
{
}

/// Products of equal rationals are equal.
pub proof fn lemma_rat_mul_congruence(a: (int, int), a2: (int, int), b: (int, int), b2: (int, int))
    by (nonlinear_arith)
    requires
        rat_eq(a, a2),
        rat_eq(b, b2),
        a.1 >= 1,
        a2.1 >= 1,
        b.1 >= 1,
        b2.1 >= 1,
    ensures
        rat_eq(rat_mul(a, b), rat_mul(a2, b2)),
{
}

/// Equal rationals have the same sign of numerator.
pub proof fn lemma_rat_eq_same_sign(b: (int, int), b2: (int, int))
    by (nonlinear_arith)
    requires
        rat_eq(b, b2),
        b.1 >= 1,
        b2.1 >= 1,
    ensures
        b.0 >= 0 <==> b2.0 >= 0,
        b.0 == 0 <==> b2.0 == 0,
{
}

/// Reciprocals of equal rationals are equal.
pub proof fn lemma_rat_inv_congruence(b: (int, int), b2: (int, int))
    requires
        rat_eq(b, b2),
        b.1 >= 1,
        b2.1 >= 1,
    ensures
        rat_eq(rat_inv(b), rat_inv(b2)),
{
    lemma_rat_eq_same_sign(b, b2);
    assert(rat_eq(rat_inv(b), rat_inv(b2))) by (nonlinear_arith)
        requires
            rat_eq(b, b2),
            b.1 >= 1,
            b2.1 >= 1,
            (b.0 >= 0 <==> b2.0 >= 0),
    ;
}

/// Quotients of equal rationals are equal.
pub proof fn lemma_rat_div_congruence(a: (int, int), a2: (int, int), b: (int, int), b2: (int, int))
    requires
        rat_eq(a, a2),
        rat_eq(b, b2),
        b.0 != 0,
        a.1 >= 1,
        a2.1 >= 1,
        b.1 >= 1,
        b2.1 >= 1,
    ensures
        rat_eq(rat_div(a, b), rat_div(a2, b2)),
{
    lemma_rat_eq_same_sign(b, b2);
    lemma_rat_inv_congruence(b, b2);
    if b.0 >= 0 {
        lemma_rat_mul_congruence(a, a2, (b.1, b.0), (b2.1, b2.0));
    } else {
        lemma_rat_mul_congruence(a, a2, (-b.1, -b.0), (-b2.1, -b2.0));
    }
}

/// The denominator of every square root this library reports: roots are
/// given as `s / SQRT_SCALE` with `s` integral.
pub const SQRT_SCALE: i64 = 1_000_000_000;

/// Integer square root by binary search: the largest `r` with `r * r <= x`.
fn isqrt_u128(x: u128) -> (r: u128)
    ensures
        r * r <= x,
        (r + 1) * (r + 1) > x,
        r < 0x1_0000_0000_0000_0000,
{
    let mut lo: u128 = 0;
    let mut hi: u128 = 0x1_0000_0000_0000_0000;
    proof {
        assert((0x1_0000_0000_0000_0000 as int) * (0x1_0000_0000_0000_0000 as int) > x as int)
            by (nonlinear_arith)
            requires
                x < 0x1_0000_0000_0000_0000_0000_0000_0000_0000,
        ;
    }
    while lo + 1 < hi
        invariant
            0 <= lo < hi <= 0x1_0000_0000_0000_0000,
            (lo as int) * (lo as int) <= x as int,
            (hi as int) * (hi as int) > x as int,
        decreases hi - lo,
    {
        let mid: u128 = lo + (hi - lo) / 2;
        proof {
            assert((mid as int) * (mid as int) < 0x1_0000_0000_0000_0000_0000_0000_0000_0000int)
                by (nonlinear_arith)
                requires
                    0 <= mid < 0x1_0000_0000_0000_0000,
            ;
        }
        if mid * mid <= x {
            lo = mid;
        } else {
            hi = mid;
        }
    }
    lo
}

impl Rational {
    /// The rational with the value of a count; `None` only when the count
    /// exceeds the numerator range.
    pub fn from_count(n: usize) -> (r: Option<Rational>)
        ensures
            r matches Some(q) ==> q.valid() && q.v() == (n as int, 1int),
            n <= 0x7fff_ffff_ffff_ffff ==> r is Some,
    {
        if n as u64 > 0x7fff_ffff_ffff_ffffu64 {
            None
        } else {
            Some(Rational { num: n as i64, den: 1 })
        }
    }

    /// The fractional part `self - floor(self)`: the Euclidean remainder
    /// of the numerator over the denominator, in `[0, 1)`.
    pub fn fract(&self) -> (r: Rational)
        requires
            self.valid(),
        ensures
            r.valid(),
            r.v().1 == self.v().1,
            r.v().0 == self.v().0 % self.v().1,
            0 <= r.v().0 < r.v().1,
    {
        let num = self.num;
        let den = self.den;
        let rem: u64 = if num >= 0 {
            (num as u64) % (den as u64)
        } else {
            let m: u64 = ((-num) as u64) % (den as u64);
            if m == 0 {
                0
            } else {
                (den as u64) - m
            }
        };
        proof {
            if num < 0 {
                let nm = -(num as int);
                vstd::arithmetic::div_mod::lemma_fundamental_div_mod(nm, den as int);
                vstd::arithmetic::div_mod::lemma_mod_division_less_than_divisor(nm, den as int);
                let q0 = nm / (den as int);
                let m0 = nm % (den as int);
                if m0 == 0 {
                    assert(num as int == (-q0) * (den as int) + 0) by (nonlinear_arith)
                        requires
                            nm == (den as int) * q0 + m0,
                            m0 == 0,
                            nm == -(num as int),
                    ;
                    vstd::arithmetic::div_mod::lemma_fundamental_div_mod_converse(
                        num as int,
                        den as int,
                        -q0,
                        0,
                    );
                } else {
                    assert(num as int == (-q0 - 1) * (den as int) + ((den as int) - m0))
                        by (nonlinear_arith)
                        requires
                            nm == (den as int) * q0 + m0,
                            nm == -(num as int),
                    ;
                    vstd::arithmetic::div_mod::lemma_fundamental_div_mod_converse(
                        num as int,
                        den as int,
                        -q0 - 1,
                        (den as int) - m0,
                    );
                }
            }
        }
        Rational { num: rem as i64, den }
    }

    /// The square root, rounded down to a multiple of `1 / SQRT_SCALE`:
    /// the result `r` satisfies `r * r <= self < (r + 1/SQRT_SCALE)^2`.
    pub fn sqrt_floor(&self) -> (r: Rational)
        requires
            self.valid(),
            self.v().0 >= 0,
        ensures
            r.valid(),
            r.v().0 >= 0,
            r.v().1 == SQRT_SCALE,
            rat_le(rat_mul(r.v(), r.v()), self.v()),
            rat_lt(
                self.v(),
                ((r.v().0 + 1) * (r.v().0 + 1), (SQRT_SCALE as int) * (SQRT_SCALE as int)),
            ),
    {
        let scale2: u128 = (SQRT_SCALE as u128) * (SQRT_SCALE as u128);
        proof {
            assert((self.num as int) * (scale2 as int)
                < 0x1_0000_0000_0000_0000_0000_0000_0000_0000int) by (nonlinear_arith)
                requires
                    0 <= self.num as int <= mag_bound(),
                    scale2 == 1_000_000_000_000_000_000,
            ;
        }
        let wide: u128 = (self.num as u128) * scale2;
        let q: u128 = wide / (self.den as u128);
        let s: u128 = isqrt_u128(q);
        proof {
            vstd::arithmetic::div_mod::lemma_fundamental_div_mod(wide as int, self.den as int);
            vstd::arithmetic::div_mod::lemma_mod_division_less_than_divisor(
                wide as int,
                self.den as int,
            );
            assert((q as int) * (self.den as int) <= (wide as int) < (q as int + 1) * (
            self.den as int)) by (nonlinear_arith)
                requires
                    wide as int == (self.den as int) * (q as int) + ((wide as int) % (
                    self.den as int)),
                    0 <= (wide as int) % (self.den as int) < self.den as int,
                    self.den as int >= 1,
            ;
            assert(s < 3_100_000_000_000_000_000) by (nonlinear_arith)
                requires
                    (s as int) * (s as int) <= q,
                    (q as int) * (self.den as int) <= (wide as int),
                    self.den as int >= 1,
                    0 <= q,
                    0 <= s,
                    wide as int == (self.num as int) * (scale2 as int),
                    0 <= self.num as int <= mag_bound(),
                    scale2 == 1_000_000_000_000_000_000,
            ;
        }
        let r = Rational { num: s as i64, den: SQRT_SCALE };
        proof {
            let sv = self.v();
            let d = self.den as int;
            let qq = q as int;
            let ss = s as int;
            assert(rat_le(rat_mul(r.v(), r.v()), sv)) by (nonlinear_arith)
                requires
                    ss * ss <= qq,
                    qq * d <= (wide as int) < (qq + 1) * d,
                    wide as int == sv.0 * (scale2 as int),
                    scale2 as int == (SQRT_SCALE as int) * (SQRT_SCALE as int),
                    r.v() == (ss, SQRT_SCALE as int),
                    d == sv.1,
                    d >= 1,
                    0 <= qq,
                    0 <= ss,
            ;
            assert(rat_lt(sv, ((ss + 1) * (ss + 1), (SQRT_SCALE as int) * (SQRT_SCALE as int))))
                by (nonlinear_arith)
                requires
                    (ss + 1) * (ss + 1) > qq,
                    qq * d <= (wide as int) < (qq + 1) * d,
                    wide as int == sv.0 * (scale2 as int),
                    scale2 as int == (SQRT_SCALE as int) * (SQRT_SCALE as int),
                    d == sv.1,
                    d >= 1,
            ;
        }
        r
    }
}

/// Strict order respects equality on both sides.
pub proof fn lemma_rat_lt_respects_eq(a: (int, int), a2: (int, int), b: (int, int), b2: (int, int))
    by (nonlinear_arith)
    requires
        rat_eq(a, a2),
        rat_eq(b, b2),
        rat_lt(a, b),
        a.1 >= 1,
        a2.1 >= 1,
        b.1 >= 1,
        b2.1 >= 1,
    ensures
        rat_lt(a2, b2),
{
}

} // verus!
