//! Weighted percentiles and medians over sorted cluster lists.
//!
//! A percentile is identified by a `Fraction` (the median is 1/2).  Over a
//! list sorted ascending by value, the percentile of total weight `len` at
//! fraction `num/den` looks at the weighted position `t = len * num / den`
//! (integer division).  When the division is exact and positions `t - 1`
//! and `t` fall in different clusters, the result is the pair of both
//! boundary values, to be averaged; otherwise it is the single value at
//! position `t`.  When the division is exact at `t == 0` there is no
//! position `t - 1`; the first value alone is returned, a documented
//! policy choice.

use vstd::multiset::Multiset;
use vstd::prelude::*;

use crate::cluster::{
    counts_positive, lemma_weight_positive, lemma_weight_take_all, lemma_weight_take_monotonic,
    lemma_weight_take_step, sorted_by_value, weight_of, Cluster, ClusterList, OwnedClusterList,
};
use crate::rational::{
    lemma_rat_lt_le_trans, rat_add, rat_div, rat_eq, rat_le, rat_lt, representable, Rational,
};

verus! {

/// Identifies a percentile: the median is `1/2`, the quartiles `1/4` and
/// `3/4`.
#[derive(Clone, Copy, Debug, PartialEq, Eq, Structural)]
pub struct Fraction {
    numerator: u64,
    denominator: u64,
}

impl Fraction {
    pub closed spec fn num(self) -> int {
        self.numerator as int
    }

    pub closed spec fn den(self) -> int {
        self.denominator as int
    }

    /// A usable percentile lies in the half-open unit interval.
    pub open spec fn wf(self) -> bool {
        1 <= self.den() && 0 <= self.num() < self.den()
    }

    /// The fraction `numerator / denominator`; callers keep it strictly
    /// below one.
    pub fn new(numerator: u64, denominator: u64) -> (r: Fraction)
        requires
            1 <= denominator,
            numerator < denominator,
        ensures
            r.wf(),
            r.num() == numerator,
            r.den() == denominator,
    {
        Fraction { numerator, denominator }
    }

    /// One half: the median.
    pub fn half() -> (r: Fraction)
        ensures
            r.wf(),
            r.num() == 1,
            r.den() == 2,
    {
        Fraction { numerator: 1, denominator: 2 }
    }
}

/// A percentile outcome: either one value, or the two values whose
/// arithmetic mean the percentile is.
#[derive(Clone, Copy, Debug, PartialEq, Eq, Structural)]
pub enum MeanValue {
    Single(Rational),
    Mean(Rational, Rational),
}

/// Every value carried satisfies the rational representation invariant.
pub open spec fn mean_value_valid(mv: MeanValue) -> bool {
    match mv {
        MeanValue::Single(v) => v.valid(),
        MeanValue::Mean(a, b) => a.valid() && b.valid(),
    }
}

impl MeanValue {
    /// The rational this outcome denotes.
    pub open spec fn resolve_spec(self) -> (int, int) {
        match self {
            MeanValue::Single(v) => v.v(),
            MeanValue::Mean(a, b) => rat_div(rat_add(a.v(), b.v()), (2int, 1int)),
        }
    }

    /// Collapse to one rational, averaging a boundary pair; `None`
    /// exactly when the denoted value has no 64-bit representative.
    pub fn resolve(self) -> (r: Option<Rational>)
        requires
            mean_value_valid(self),
        ensures
            r matches Some(q) ==> q.valid() && rat_eq(q.v(), self.resolve_spec()),
            self matches MeanValue::Single(v) ==> r == Some(v),
            r is None ==> !representable(self.resolve_spec()),
    {
        match self {
            MeanValue::Single(v) => Some(v),
            MeanValue::Mean(a, b) => a.mean_with(&b),
        }
    }
}

/// The value at weighted position `k` (0-based over the flattened,
/// count-expanded list).
pub open spec fn value_at(s: Seq<Cluster>, k: int) -> Rational
    decreases s.len(),
{
    if s.len() == 0 {
        vstd::pervasive::arbitrary()
    } else if k < s[0].1 {
        s[0].0
    } else {
        value_at(s.drop_first(), k - s[0].1)
    }
}

/// The index of the cluster holding weighted position `k`.
pub open spec fn cluster_of(s: Seq<Cluster>, k: int) -> int
    decreases s.len(),
{
    if s.len() == 0 {
        0
    } else if k < s[0].1 {
        0
    } else {
        1 + cluster_of(s.drop_first(), k - s[0].1)
    }
}

/// What `percentile` returns on a sorted list: the value at weighted
/// position `len * num / den`, or the pair straddling it when the
/// division is exact at a cluster boundary.
pub open spec fn percentile_spec(s: Seq<Cluster>, num: int, den: int) -> MeanValue {
    let len = weight_of(s);
    let t = len * num / den;
    if len * num % den == 0 && t >= 1 && cluster_of(s, t - 1) != cluster_of(s, t) {
        MeanValue::Mean(value_at(s, t - 1), value_at(s, t))
    } else {
        MeanValue::Single(value_at(s, t))
    }
}

/// Weighted position `k` falling inside cluster `i` pins down both the
/// cluster index and the value there.
proof fn lemma_value_at_cluster(s: Seq<Cluster>, i: int, k: int)
    requires
        0 <= i < s.len(),
        counts_positive(s),
        weight_of(s.take(i)) <= k < weight_of(s.take(i)) + s[i].1,
    ensures
        cluster_of(s, k) == i,
        value_at(s, k) == s[i].0,
    decreases i,
{
    assert(weight_of(s.take(0)) == 0) by {
        assert(s.take(0) =~= Seq::<Cluster>::empty());
    }
    if i == 0 {
        assert(0 <= k < s[0].1);
    } else {
        lemma_weight_take_step(s, 0);
        lemma_weight_take_monotonic(s, 1, i);
        assert(k >= s[0].1);
        let rest = s.drop_first();
        assert(counts_positive(rest)) by {
            assert(forall|j: int| 0 <= j < rest.len() ==> rest[j] == s[j + 1]);
        }
        assert(rest.take(i - 1) =~= s.take(i).drop_first());
        assert(weight_of(s.take(i)) == s[0].1 + weight_of(rest.take(i - 1))) by {
            lemma_weight_drop_first(s.take(i));
        }
        assert(rest[i - 1] == s[i]);
        lemma_value_at_cluster(rest, i - 1, k - s[0].1);
    }
}

/// Splitting the weight of a non-empty list at its first cluster.
proof fn lemma_weight_drop_first(s: Seq<Cluster>)
    requires
        s.len() > 0,
    ensures
        weight_of(s) == s[0].1 + weight_of(s.drop_first()),
    decreases s.len(),
{
    if s.len() == 1 {
        assert(s.drop_first() =~= Seq::<Cluster>::empty());
        assert(s.drop_last() =~= Seq::<Cluster>::empty());
    } else {
        lemma_weight_drop_first(s.drop_last());
        assert(s.drop_last()[0] == s[0]);
        assert(s.drop_first().drop_last() =~= s.drop_last().drop_first());
        assert(s.drop_first().last() == s.last());
    }
}

/// The percentile of a sorted, weighted, non-empty cluster list at the
/// fraction `f`.  O(number of clusters).
pub fn percentile(list: &ClusterList, f: &Fraction) -> (r: MeanValue)
    requires
        list.wf(),
        sorted_by_value(list.clusters()),
        list.clusters().len() > 0,
        f.wf(),
    ensures
        r == percentile_spec(list.clusters(), f.num(), f.den()),
        mean_value_valid(r),
{
    let ghost s = list.clusters();
    let len: usize = list.len();
    let m: usize = list.cluster_count();
    proof {
        lemma_weight_positive(s);
        assert((len as int) * (f.numerator as int) < 0x1_0000_0000_0000_0000_0000_0000_0000_0000int)
            by (nonlinear_arith)
            requires
                0 <= len <= 0xffff_ffff_ffff_ffff,
                0 <= f.numerator <= 0xffff_ffff_ffff_ffff,
        ;
    }
    let prod: u128 = (len as u128) * (f.numerator as u128);
    let den128: u128 = f.denominator as u128;
    let t_wide: u128 = prod / den128;
    let exact: bool = prod % den128 == 0;
    proof {
        assert((prod as int) < (den128 as int) * (len as int)) by (nonlinear_arith)
            requires
                prod as int == (len as int) * (f.num()),
                den128 as int == f.den(),
                0 <= f.num() < f.den(),
                1 <= len,
        ;
        vstd::arithmetic::div_mod::lemma_multiply_divide_lt(
            prod as int,
            den128 as int,
            len as int,
        );
    }
    let t: usize = t_wide as usize;
    let ghost tg = t as int;
    let mut i: usize = 0;
    let mut acc: usize = 0;
    proof {
        assert(weight_of(s.take(0)) == 0) by {
            assert(s.take(0) =~= Seq::<Cluster>::empty());
        }
    }
    loop
        invariant
            list.wf(),
            s == list.clusters(),
            s.len() > 0,
            0 <= i <= s.len(),
            acc as int == weight_of(s.take(i as int)),
            s.len() == m,
            acc <= t,
            tg == t,
            t < len,
            len as int == weight_of(s),
            0 <= f.num() < f.den(),
            tg == weight_of(s) * f.num() / f.den(),
            exact == (weight_of(s) * f.num() % f.den() == 0),
        decreases s.len() - i,
    {
        proof {
            if i as int == s.len() {
                lemma_weight_take_all(s);
                assert(false);
            }
        }
        let c = list.cluster_at(i);
        let count: usize = c.1;
        proof {
            lemma_weight_take_step(s, i as int);
            lemma_weight_take_monotonic(s, i as int + 1, s.len() as int);
            lemma_weight_take_all(s);
        }
        if t - acc < count {
            proof {
                lemma_value_at_cluster(s, i as int, tg);
            }
            if exact && acc == t && t > 0 {
                proof {
                    if i == 0 {
                        assert(weight_of(s.take(0)) == 0) by {
                            assert(s.take(0) =~= Seq::<Cluster>::empty());
                        }
                        assert(false);
                    }
                    lemma_weight_take_step(s, i as int - 1);
                    lemma_value_at_cluster(s, i as int - 1, tg - 1);
                }
                let prev = list.cluster_at(i - 1);
                return MeanValue::Mean(prev.0, c.0);
            } else {
                proof {
                    if exact && tg >= 1 && acc < t {
                        lemma_value_at_cluster(s, i as int, tg - 1);
                    }
                }
                return MeanValue::Single(c.0);
            }
        } else {
            acc = acc + count;
            i = i + 1;
        }
    }
}

/// The median: the percentile at one half.
pub fn median(list: &ClusterList) -> (r: MeanValue)
    requires
        list.wf(),
        sorted_by_value(list.clusters()),
        list.clusters().len() > 0,
    ensures
        r == percentile_spec(list.clusters(), 1, 2),
        mean_value_valid(r),
{
    let f = Fraction::half();
    percentile(list, &f)
}

/// The percentile of an owned list.  The pivot strategy of a selection
/// algorithm has no bearing on the result of a percentile over an already
/// sorted list, so this returns exactly what `percentile` does and leaves
/// the list untouched.
pub fn percentile_rand(values: &mut OwnedClusterList, f: &Fraction) -> (r: MeanValue)
    requires
        old(values).wf(),
        sorted_by_value(old(values).clusters()),
        old(values).clusters().len() > 0,
        f.wf(),
    ensures
        *final (values) == *old(values),
        r == percentile_spec(old(values).clusters(), f.num(), f.den()),
        mean_value_valid(r),
{
    let list = values.borrow();
    percentile(&list, f)
}

/// An odd total weight has a one-value median: the value at the middle
/// weighted position.
pub proof fn lemma_median_odd(s: Seq<Cluster>)
    requires
        weight_of(s) % 2 == 1,
    ensures
        percentile_spec(s, 1, 2) == MeanValue::Single(value_at(s, weight_of(s) / 2)),
{
}

/// An even total weight split across two clusters at the middle has the
/// two boundary values as its median, to be averaged.
pub proof fn lemma_median_even_boundary(s: Seq<Cluster>)
    requires
        weight_of(s) % 2 == 0,
        weight_of(s) >= 2,
        cluster_of(s, weight_of(s) / 2 - 1) != cluster_of(s, weight_of(s) / 2),
    ensures
        percentile_spec(s, 1, 2) == MeanValue::Mean(
            value_at(s, weight_of(s) / 2 - 1),
            value_at(s, weight_of(s) / 2),
        ),
{
}

/// Every rational in the sequence satisfies the representation invariant.
pub open spec fn rationals_valid(s: Seq<Rational>) -> bool {
    forall|i: int| 0 <= i < s.len() ==> (#[trigger] s[i]).valid()
}

/// Sorted ascending as rationals.
pub open spec fn sorted_values(s: Seq<Rational>) -> bool {
    forall|i: int, j: int| 0 <= i < j < s.len() ==> rat_le(s[i].v(), s[j].v())
}

/// Sort a vector of rationals ascending by value, keeping exactly the same
/// elements (as a multiset).  Insertion sort: O(n^2).
pub fn sort_values(v: &mut Vec<Rational>)
    requires
        rationals_valid(old(v)@),
    ensures
        sorted_values(final (v)@),
        final (v)@.to_multiset() == old(v)@.to_multiset(),
        final (v)@.len() == old(v)@.len(),
        rationals_valid(final (v)@),
{
    let ghost orig = v@;
    let mut out: Vec<Rational> = Vec::new();
    let mut i: usize = 0;
    proof {
        assert(orig.take(0) =~= out@);
    }
    while i < v.len()
        invariant
            0 <= i <= orig.len(),
            v@ == orig,
            rationals_valid(orig),
            sorted_values(out@),
            rationals_valid(out@),
            out@.len() == i,
            out@.to_multiset() == orig.take(i as int).to_multiset(),
        decreases orig.len() - i,
    {
        let x = v[i];
        let mut pos: usize = 0;
        while pos < out.len()
            invariant
                0 <= pos <= out@.len(),
                rationals_valid(out@),
                x.valid(),
                forall|j: int| 0 <= j < pos ==> rat_le((#[trigger] out@[j]).v(), x.v()),
            ensures
                0 <= pos <= out@.len(),
                forall|j: int| 0 <= j < pos ==> rat_le((#[trigger] out@[j]).v(), x.v()),
                pos < out@.len() ==> rat_lt(x.v(), out@[pos as int].v()),
            decreases out@.len() - pos,
        {
            if x.lt(&out[pos]) {
                break ;
            }
            pos = pos + 1;
        }
        let ghost before = out@;
        let ghost p = pos as int;
        out.insert(pos, x);
        proof {
            lemma_sorted_insert(before, p, x);
            vstd::seq_lib::to_multiset_insert(before, p, x);
            assert(orig.take(i as int + 1) =~= orig.take(i as int).push(orig[i as int]));
            vstd::seq_lib::to_multiset_build(orig.take(i as int), orig[i as int]);
        }
        i = i + 1;
    }
    proof {
        assert(orig.take(orig.len() as int) =~= orig);
    }
    *v = out;
}

/// A step used around the insertion point: at-most chains through
/// strictly-below.
proof fn lemma_le_from_le_lt(a: (int, int), b: (int, int), c: (int, int))
    by (nonlinear_arith)
    requires
        rat_le(a, b),
        rat_lt(b, c),
        a.1 >= 1,
        b.1 >= 1,
        c.1 >= 1,
    ensures
        rat_le(a, c),
{
}

/// Inserting `x` where everything before is at most `x` and everything
/// from the point on is strictly above keeps the sequence sorted.
proof fn lemma_sorted_insert(before: Seq<Rational>, p: int, x: Rational)
    requires
        sorted_values(before),
        rationals_valid(before),
        x.valid(),
        0 <= p <= before.len(),
        forall|j: int| 0 <= j < p ==> rat_le((#[trigger] before[j]).v(), x.v()),
        p < before.len() ==> rat_lt(x.v(), before[p].v()),
    ensures
        sorted_values(before.insert(p, x)),
{
    before.insert_ensures(p, x);
    let t = before.insert(p, x);
    assert forall|a: int, b: int| 0 <= a < b < t.len() implies rat_le(t[a].v(), t[b].v()) by {
        if b < p {
        } else if a < p && b == p {
            assert(t[a] == before[a]);
        } else if a < p && b > p {
            assert(t[a] == before[a]);
            assert(t[b] == before[b - 1]);
            lemma_le_from_le_lt(before[a].v(), x.v(), before[p].v());
            if b - 1 > p {
                crate::rational::lemma_rat_le_trans(
                    before[a].v(),
                    before[p].v(),
                    before[b - 1].v(),
                );
            }
        } else if a == p {
            assert(t[b] == before[b - 1]);
            if b - 1 > p {
                lemma_rat_lt_le_trans(x.v(), before[p].v(), before[b - 1].v());
            }
        } else {
            assert(t[a] == before[a - 1]);
            assert(t[b] == before[b - 1]);
        }
    }
}

/// The median of a sorted flat sequence: the middle element for an odd
/// length, the two middle elements (to be averaged) for an even length.
pub open spec fn flat_median_spec(s: Seq<Rational>) -> MeanValue {
    let t = s.len() as int / 2;
    if s.len() % 2 == 0 && t >= 1 {
        MeanValue::Mean(s[t - 1], s[t])
    } else {
        MeanValue::Single(s[t])
    }
}

/// Sort the values and take their median, treating each entry as one
/// observation.  The vector is left sorted.
pub fn median_values(v: &mut Vec<Rational>) -> (r: MeanValue)
    requires
        rationals_valid(old(v)@),
        old(v)@.len() > 0,
    ensures
        sorted_values(final (v)@),
        final (v)@.to_multiset() == old(v)@.to_multiset(),
        final (v)@.len() == old(v)@.len(),
        rationals_valid(final (v)@),
        r == flat_median_spec(final (v)@),
        mean_value_valid(r),
{
    sort_values(v);
    let t: usize = v.len() / 2;
    if v.len() % 2 == 0 {
        MeanValue::Mean(v[t - 1], v[t])
    } else {
        MeanValue::Single(v[t])
    }
}

} // verus!
