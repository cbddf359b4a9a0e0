//! Clustered samples: a value together with how many times it occurs.
//!
//! A cluster list is the foundation of all weighted statistics here.  The
//! statistic-computing calls require the list to be sorted ascending by
//! value and every count to be at least one; callers own that contract,
//! the engine does not sort on its own.  Deduplication merges clusters
//! whose values have the same representation; rationals are held reduced,
//! so for values built by this crate that is exactly value equality.

use vstd::prelude::*;

use crate::rational::{lemma_rat_le_trans, lemma_rat_lt_le_trans, rat_le, rat_lt, Rational};
use vstd::multiset::Multiset;

verus! {

/// One value and the number of times it was observed.
pub type Cluster = (Rational, usize);

/// Total weight: the sum of all counts.
pub open spec fn weight_of(s: Seq<Cluster>) -> int
    decreases s.len(),
{
    if s.len() == 0 {
        0
    } else {
        weight_of(s.drop_last()) + s.last().1
    }
}

/// Every cluster stands for at least one observation.
pub open spec fn counts_positive(s: Seq<Cluster>) -> bool {
    forall|i: int| 0 <= i < s.len() ==> (#[trigger] s[i]).1 >= 1
}

/// Every value satisfies the rational representation invariant.
pub open spec fn values_valid(s: Seq<Cluster>) -> bool {
    forall|i: int| 0 <= i < s.len() ==> (#[trigger] s[i]).0.valid()
}

/// Sorted ascending by value.
pub open spec fn sorted_by_value(s: Seq<Cluster>) -> bool {
    forall|i: int, j: int| 0 <= i < j < s.len() ==> rat_le(s[i].0.v(), s[j].0.v())
}

/// No two clusters carry the same representation of a value.
pub open spec fn distinct_values(s: Seq<Cluster>) -> bool {
    forall|i: int, j: int| 0 <= i < j < s.len() ==> (#[trigger] s[i]).0 != (#[trigger] s[j]).0
}

/// The combined count of all clusters in `s` holding exactly the value `x`.
pub open spec fn total_count(s: Seq<Cluster>, x: Rational) -> int
    decreases s.len(),
{
    if s.len() == 0 {
        0
    } else {
        total_count(s.drop_last(), x) + if s.last().0 == x {
            s.last().1 as int
        } else {
            0
        }
    }
}

/// Some cluster in `s` holds exactly the value `x`.
pub open spec fn has_value(s: Seq<Cluster>, x: Rational) -> bool {
    exists|i: int| 0 <= i < s.len() && (#[trigger] s[i]).0 == x
}

/// What `optimize_values` promises: `r` is `s` with clusters of identical
/// value representation merged by summing their counts.  An already
/// deduplicated list passes through unchanged, so the operation is
/// idempotent.
pub open spec fn is_optimized_of(r: Seq<Cluster>, s: Seq<Cluster>) -> bool {
    &&& distinct_values(r)
    &&& forall|i: int| 0 <= i < r.len() ==> (#[trigger] r[i]).1 == total_count(s, r[i].0)
    &&& forall|x: Rational| has_value(r, x) <==> has_value(s, x)
    &&& weight_of(r) == weight_of(s)
    &&& (distinct_values(s) ==> r == s)
}

pub proof fn lemma_weight_take_step(s: Seq<Cluster>, i: int)
    requires
        0 <= i < s.len(),
    ensures
        weight_of(s.take(i + 1)) == weight_of(s.take(i)) + s[i].1,
{
    assert(s.take(i + 1).drop_last() =~= s.take(i));
    assert(s.take(i + 1).last() == s[i]);
}

pub proof fn lemma_weight_take_all(s: Seq<Cluster>)
    ensures
        weight_of(s.take(s.len() as int)) == weight_of(s),
{
    assert(s.take(s.len() as int) =~= s);
}

/// Weights of prefixes never decrease as the prefix grows.
pub proof fn lemma_weight_take_monotonic(s: Seq<Cluster>, i: int, j: int)
    requires
        0 <= i <= j <= s.len(),
    ensures
        weight_of(s.take(i)) <= weight_of(s.take(j)),
    decreases j - i,
{
    if i < j {
        lemma_weight_take_monotonic(s, i, j - 1);
        lemma_weight_take_step(s, j - 1);
    }
}

/// A weight is never negative.
pub proof fn lemma_weight_nonnegative(s: Seq<Cluster>)
    ensures
        weight_of(s) >= 0,
    decreases s.len(),
{
    if s.len() > 0 {
        lemma_weight_nonnegative(s.drop_last());
    }
}

proof fn lemma_total_count_take_step(s: Seq<Cluster>, i: int, x: Rational)
    requires
        0 <= i < s.len(),
    ensures
        total_count(s.take(i + 1), x) == total_count(s.take(i), x) + if s[i].0 == x {
            s[i].1 as int
        } else {
            0
        },
{
    assert(s.take(i + 1).drop_last() =~= s.take(i));
    assert(s.take(i + 1).last() == s[i]);
}

/// An owning list of clusters with its total weight cached.
#[derive(Debug)]
pub struct OwnedClusterList {
    list: Vec<Cluster>,
    len: usize,
}

/// A borrowed list of clusters with its total weight cached.
#[derive(Debug)]
pub struct ClusterList<'a> {
    list: &'a [Cluster],
    len: usize,
}

impl OwnedClusterList {
    /// The clusters held.
    pub closed spec fn clusters(self) -> Seq<Cluster> {
        self.list@
    }

    /// The cached weight agrees with the clusters held.
    pub closed spec fn len_cached(self) -> bool {
        self.len as int == weight_of(self.clusters())
    }

    /// Representation invariant: the cached weight is the real one, every
    /// count is positive and every value well formed.
    pub open spec fn wf(self) -> bool {
        &&& self.len_cached()
        &&& counts_positive(self.clusters())
        &&& values_valid(self.clusters())
    }

    /// The rational is the value, the integer its count.
    pub fn new(list: Vec<Cluster>) -> (r: OwnedClusterList)
        requires
            weight_of(list@) <= usize::MAX,
            counts_positive(list@),
            values_valid(list@),
        ensures
            r.wf(),
            r.clusters() == list@,
    {
        let len = ClusterList::size(&list);
        OwnedClusterList { list, len }
    }

    /// Borrow the list without giving up ownership.
    pub fn borrow(&self) -> (r: ClusterList<'_>)
        requires
            self.wf(),
        ensures
            r.wf(),
            r.clusters() == self.clusters(),
    {
        ClusterList { list: self.list.as_slice(), len: self.len }
    }

    /// Sort the clusters ascending by value, keeping exactly the same
    /// clusters (as a multiset) and the same total weight.  Statistics
    /// over the list require this order.  Insertion sort: O(m^2) in the
    /// number of clusters.
    pub fn sort_by_value(&mut self)
        requires
            old(self).wf(),
        ensures
            final (self).wf(),
            sorted_by_value(final (self).clusters()),
            final (self).clusters().to_multiset() == old(self).clusters().to_multiset(),
            weight_of(final (self).clusters()) == weight_of(old(self).clusters()),
            final (self).clusters().len() == old(self).clusters().len(),
    {
        let ghost orig = self.list@;
        let mut out: Vec<Cluster> = Vec::new();
        let mut i: usize = 0;
        proof {
            assert(orig.take(0) =~= out@);
        }
        while i < self.list.len()
            invariant
                0 <= i <= orig.len(),
                self.list@ == orig,
                counts_positive(orig),
                values_valid(orig),
                sorted_by_value(out@),
                counts_positive(out@),
                values_valid(out@),
                out@.len() == i,
                weight_of(out@) == weight_of(orig.take(i as int)),
                out@.to_multiset() == orig.take(i as int).to_multiset(),
            decreases orig.len() - i,
        {
            let c = self.list[i];
            let mut pos: usize = 0;
            while pos < out.len()
                invariant
                    0 <= pos <= out@.len(),
                    values_valid(out@),
                    c.0.valid(),
                    forall|j: int| 0 <= j < pos ==> rat_le((#[trigger] out@[j]).0.v(), c.0.v()),
                ensures
                    0 <= pos <= out@.len(),
                    forall|j: int| 0 <= j < pos ==> rat_le((#[trigger] out@[j]).0.v(), c.0.v()),
                    pos < out@.len() ==> rat_lt(c.0.v(), out@[pos as int].0.v()),
                decreases out@.len() - pos,
            {
                if c.0.lt(&out[pos].0) {
                    break ;
                }
                pos = pos + 1;
            }
            let ghost before = out@;
            let ghost p = pos as int;
            out.insert(pos, c);
            proof {
                lemma_sorted_insert_cluster(before, p, c);
                vstd::seq_lib::to_multiset_insert(before, p, c);
                assert(orig.take(i as int + 1) =~= orig.take(i as int).push(orig[i as int]));
                vstd::seq_lib::to_multiset_build(orig.take(i as int), orig[i as int]);
                lemma_weight_take_step(orig, i as int);
                assert(weight_of(before.insert(p, c)) == weight_of(before) + c.1) by {
                    before.insert_ensures(p, c);
                    assert(before.insert(p, c) =~= before.take(p) + (seq![c] + before.skip(p)));
                    lemma_weight_concat(before.take(p), seq![c] + before.skip(p));
                    lemma_weight_concat(seq![c], before.skip(p));
                    lemma_weight_singleton(c);
                    assert(before =~= before.take(p) + before.skip(p));
                    lemma_weight_concat(before.take(p), before.skip(p));
                }
            }
            i = i + 1;
        }
        proof {
            assert(orig.take(orig.len() as int) =~= orig);
        }
        let total = self.len;
        self.list = out;
        self.len = total;
    }

    /// The clusters as a plain vector, for callers that need to read the
    /// values out.
    pub fn as_vec(&self) -> (r: &Vec<Cluster>)
        ensures
            r@ == self.clusters(),
    {
        &self.list
    }
}

impl<'a> ClusterList<'a> {
    /// The clusters held.
    pub closed spec fn clusters(self) -> Seq<Cluster> {
        self.list@
    }

    /// The cached weight agrees with the clusters held.
    pub closed spec fn len_cached(self) -> bool {
        self.len as int == weight_of(self.clusters())
    }

    /// Representation invariant, as for the owning list.
    pub open spec fn wf(self) -> bool {
        &&& self.len_cached()
        &&& counts_positive(self.clusters())
        &&& values_valid(self.clusters())
    }

    /// The rational is the value, the integer its count.
    pub fn new(list: &'a [Cluster]) -> (r: ClusterList<'a>)
        requires
            weight_of(list@) <= usize::MAX,
            counts_positive(list@),
            values_valid(list@),
        ensures
            r.wf(),
            r.clusters() == list@,
    {
        let len = Self::size(list);
        ClusterList { list, len }
    }

    /// The total weight of a plain cluster slice.
    fn size(list: &[Cluster]) -> (n: usize)
        requires
            weight_of(list@) <= usize::MAX,
        ensures
            n as int == weight_of(list@),
    {
        let mut sum: usize = 0;
        let mut i: usize = 0;
        proof {
            lemma_weight_nonnegative(list@);
        }
        while i < list.len()
            invariant
                0 <= i <= list@.len(),
                sum as int == weight_of(list@.take(i as int)),
                weight_of(list@) <= usize::MAX,
            decreases list@.len() - i,
        {
            proof {
                lemma_weight_take_step(list@, i as int);
                lemma_weight_take_monotonic(list@, i as int + 1, list@.len() as int);
                lemma_weight_take_all(list@);
            }
            sum = sum + list[i].1;
            i = i + 1;
        }
        proof {
            lemma_weight_take_all(list@);
        }
        sum
    }

    /// The total weight: how many observations the list stands for.  O(1).
    pub fn len(&self) -> (n: usize)
        requires
            self.wf(),
        ensures
            n as int == weight_of(self.clusters()),
    {
        self.len
    }

    /// Whether the list holds no clusters at all.  O(1).
    pub fn is_empty(&self) -> (r: bool)
        ensures
            r == (self.clusters().len() == 0),
    {
        self.list.len() == 0
    }

    /// How many clusters the list holds (not the total weight).
    pub fn cluster_count(&self) -> (n: usize)
        ensures
            n == self.clusters().len(),
    {
        self.list.len()
    }

    /// The cluster at position `i`.
    pub fn cluster_at(&self, i: usize) -> (c: Cluster)
        requires
            i < self.clusters().len(),
        ensures
            c == self.clusters()[i as int],
    {
        self.list[i]
    }

    /// The leading sub-list whose total weight is exactly `n`, splitting a
    /// boundary cluster's count proportionally if `n` falls inside it.
    /// Usable as input to a new list.
    pub fn split_start(&self, n: usize) -> (r: OwnedClusterList)
        requires
            self.wf(),
            1 <= n,
            n as int <= weight_of(self.clusters()),
        ensures
            r.wf(),
            r.clusters() == take_weight_front(self.clusters(), n as int),
            weight_of(r.clusters()) == n,
    {
        let ghost sv = self.list@;
        let mut list: Vec<Cluster> = Vec::new();
        let mut sum: usize = 0;
        let mut i: usize = 0;
        proof {
            lemma_weight_take_all(sv);
            assert(sv.skip(0) =~= sv);
        }
        loop
            invariant
                self.wf(),
                sv == self.list@,
                0 <= i <= sv.len(),
                sum as int == weight_of(sv.take(i as int)),
                sum < n,
                n as int <= weight_of(sv),
                weight_of(list@) == sum,
                counts_positive(list@),
                values_valid(list@),
                take_weight_front(sv, n as int) == list@ + take_weight_front(
                    sv.skip(i as int),
                    n - sum,
                ),
            decreases sv.len() - i,
        {
            proof {
                if i as int == sv.len() {
                    lemma_weight_take_all(sv);
                    assert(false);
                }
            }
            let (v, count) = self.list[i];
            let ghost rest = sv.skip(i as int);
            proof {
                assert(rest[0] == sv[i as int]);
                assert(rest.drop_first() =~= sv.skip(i as int + 1));
                lemma_weight_take_step(sv, i as int);
            }
            if count >= n - sum {
                let taken: usize = n - sum;
                let ghost before = list@;
                list.push((v, taken));
                proof {
                    assert(take_weight_front(rest, n - sum) =~= seq![(v, taken)]);
                    assert(list@ =~= before + seq![(v, taken)]);
                    lemma_weight_concat(before, seq![(v, taken)]);
                    lemma_weight_singleton((v, taken));
                    assert(list@ =~= take_weight_front(sv, n as int));
                }
                return OwnedClusterList { list, len: n };
            } else {
                let ghost before = list@;
                list.push((v, count));
                proof {
                    assert(take_weight_front(rest, n - sum) == seq![(v, count)]
                        + take_weight_front(rest.drop_first(), n - sum - count));
                    assert(list@ =~= before + seq![(v, count)]);
                    assert((before + seq![(v, count)]) + take_weight_front(
                        sv.skip(i as int + 1),
                        n - (sum + count),
                    ) =~= before + (seq![(v, count)] + take_weight_front(
                        sv.skip(i as int + 1),
                        n - (sum + count),
                    )));
                    lemma_weight_concat(before, seq![(v, count)]);
                    lemma_weight_singleton((v, count));
                }
                sum = sum + count;
                i = i + 1;
            }
        }
    }

    /// The trailing sub-list whose total weight is exactly `n`, splitting a
    /// boundary cluster's count proportionally if `n` falls inside it.
    /// Usable as input to a new list.
    pub fn split_end(&self, n: usize) -> (r: OwnedClusterList)
        requires
            self.wf(),
            1 <= n,
            n as int <= weight_of(self.clusters()),
        ensures
            r.wf(),
            r.clusters() == take_weight_back(self.clusters(), n as int),
            weight_of(r.clusters()) == n,
    {
        let ghost sv = self.list@;
        let mut list: Vec<Cluster> = Vec::new();
        let mut sum: usize = 0;
        let mut j: usize = self.list.len();
        proof {
            lemma_weight_take_all(sv);
            assert(sv.take(sv.len() as int) =~= sv);
            assert(sv.skip(sv.len() as int) =~= Seq::<Cluster>::empty());
        }
        loop
            invariant
                self.wf(),
                sv == self.list@,
                0 <= j <= sv.len(),
                sum as int == weight_of(sv) - weight_of(sv.take(j as int)),
                sum < n,
                n as int <= weight_of(sv),
                weight_of(list@) == sum,
                counts_positive(list@),
                values_valid(list@),
                take_weight_back(sv, n as int) == take_weight_back(sv.take(j as int), n - sum)
                    + list@,
            decreases j,
        {
            proof {
                if j == 0 {
                    assert(sv.take(0) =~= Seq::<Cluster>::empty());
                    assert(false);
                }
            }
            let (v, count) = self.list[j - 1];
            let ghost front = sv.take(j as int);
            proof {
                assert(front.last() == sv[j as int - 1]);
                assert(front.drop_last() =~= sv.take(j as int - 1));
                lemma_weight_take_step(sv, j as int - 1);
            }
            if count >= n - sum {
                let taken: usize = n - sum;
                let ghost before = list@;
                list.insert(0, (v, taken));
                proof {
                    assert(take_weight_back(front, n - sum) =~= seq![(v, taken)]);
                    assert(list@ =~= seq![(v, taken)] + before);
                    lemma_weight_concat(seq![(v, taken)], before);
                    lemma_weight_singleton((v, taken));
                    assert(list@ =~= take_weight_back(sv, n as int));
                }
                return OwnedClusterList { list, len: n };
            } else {
                let ghost before = list@;
                list.insert(0, (v, count));
                proof {
                    assert(take_weight_back(front, n - sum) == take_weight_back(
                        sv.take(j as int - 1),
                        n - sum - count,
                    ) + seq![(v, count)]);
                    assert(list@ =~= seq![(v, count)] + before);
                    assert(take_weight_back(sv.take(j as int - 1), n - (sum + count)) + (seq![
                        (v, count),
                    ] + before) =~= (take_weight_back(sv.take(j as int - 1), n - (sum + count))
                        + seq![(v, count)]) + before);
                    lemma_weight_concat(seq![(v, count)], before);
                    lemma_weight_singleton((v, count));
                }
                sum = sum + count;
                j = j - 1;
            }
        }
    }

    /// Merge clusters holding the identical value representation by adding
    /// their counts, preserving first-occurrence order and total weight.
    /// An already deduplicated list comes back unchanged, so the operation
    /// is idempotent.  O(m^2) in the number of clusters.
    pub fn optimize_values(self) -> (r: OwnedClusterList)
        requires
            self.wf(),
        ensures
            r.wf(),
            is_optimized_of(r.clusters(), self.clusters()),
    {
        let s = self.list;
        let ghost sv = self.list@;
        let mut out: Vec<Cluster> = Vec::new();
        let mut i: usize = 0;
        proof {
            lemma_weight_nonnegative(sv);
            lemma_weight_take_all(sv);
        }
        while i < s.len()
            invariant
                0 <= i <= sv.len(),
                s@ == sv,
                counts_positive(sv),
                values_valid(sv),
                weight_of(sv) <= usize::MAX,
                distinct_values(out@),
                counts_positive(out@),
                values_valid(out@),
                weight_of(out@) == weight_of(sv.take(i as int)),
                forall|j: int|
                    0 <= j < out@.len() ==> (#[trigger] out@[j]).1 == total_count(
                        sv.take(i as int),
                        out@[j].0,
                    ),
                forall|x: Rational| has_value(out@, x) <==> has_value(sv.take(i as int), x),
                distinct_values(sv) ==> out@ == sv.take(i as int),
            decreases sv.len() - i,
        {
            let (value, count) = s[i];
            let ghost out_before = out@;
            proof {
                lemma_weight_take_step(sv, i as int);
                lemma_weight_take_monotonic(sv, i as int + 1, sv.len() as int);
                lemma_weight_take_all(sv);
                lemma_weight_nonnegative(out_before);
            }
            let mut found: bool = false;
            let mut k: usize = 0;
            while k < out.len()
                invariant
                    0 <= k <= out@.len(),
                    !found ==> forall|j: int| 0 <= j < k ==> (#[trigger] out@[j]).0 != value,
                    found ==> k < out@.len() && out@[k as int].0 == value,
                ensures
                    found ==> k < out@.len() && out@[k as int].0 == value,
                    !found ==> forall|j: int| 0 <= j < out@.len() ==> (#[trigger] out@[j]).0
                        != value,
                decreases out@.len() - k,
            {
                if out[k].0 == value {
                    found = true;
                    break ;
                }
                k = k + 1;
            }
            if found {
                let ghost kk = k as int;
                let old_count = out[k].1;
                proof {
                    lemma_partial_weight_bound(out_before, kk);
                }
                out[k] = (value, old_count + count);
                proof {
                    assert forall|j: int| 0 <= j < out@.len() implies (#[trigger] out@[j]).1
                        == total_count(sv.take(i as int + 1), out@[j].0) by {
                        lemma_total_count_take_step(sv, i as int, out@[j].0);
                        if j != kk {
                            assert(out@[j] == out_before[j]);
                            if j < kk {
                                assert(out_before[j].0 != out_before[kk].0);
                            } else {
                                assert(out_before[kk].0 != out_before[j].0);
                            }
                        }
                    }
                    lemma_weight_update(out_before, kk, (old_count + count) as usize);
                    assert forall|x: Rational| has_value(out@, x) <==> has_value(
                        sv.take(i as int + 1),
                        x,
                    ) by {
                        lemma_has_value_extend(sv, i as int, out_before, out@, kk, value, x);
                    }
                    if distinct_values(sv) {
                        assert(has_value(sv.take(i as int), value)) by {
                            assert(out_before[kk].0 == value);
                        }
                        let w = choose|j: int|
                            0 <= j < i as int && (#[trigger] sv.take(i as int)[j]).0 == value;
                        assert(sv[w].0 == sv[i as int].0);
                        assert(false);
                    }
                }
            } else {
                out.push((value, count));
                proof {
                    let ghost outv = out@;
                    assert(outv == out_before.push((value, count)));
                    assert forall|j: int| 0 <= j < outv.len() implies (#[trigger] outv[j]).1
                        == total_count(sv.take(i as int + 1), outv[j].0) by {
                        lemma_total_count_take_step(sv, i as int, outv[j].0);
                        if j < out_before.len() {
                            assert(outv[j] == out_before[j]);
                            assert(out_before[j].0 != value);
                        } else {
                            assert(outv[j] == (value, count));
                            assert(!has_value(out_before, value));
                            lemma_total_count_absent(sv.take(i as int), value);
                        }
                    }
                    assert(weight_of(outv) == weight_of(out_before) + count) by {
                        assert(outv.drop_last() =~= out_before);
                    }
                    assert forall|x: Rational| has_value(outv, x) <==> has_value(
                        sv.take(i as int + 1),
                        x,
                    ) by {
                        lemma_has_value_push(sv, i as int, out_before, outv, value, count, x);
                    }
                    if distinct_values(sv) {
                        assert(outv =~= sv.take(i as int + 1));
                    }
                }
            }
            i = i + 1;
        }
        proof {
            lemma_weight_take_all(sv);
            assert(sv.take(sv.len() as int) =~= sv);
        }
        OwnedClusterList { len: self.len, list: out }
    }
}

/// The front sub-list of `s` whose total weight is exactly `n`, splitting
/// the boundary cluster's count if `n` falls inside it.
pub open spec fn take_weight_front(s: Seq<Cluster>, n: int) -> Seq<Cluster>
    decreases s.len(),
{
    if s.len() == 0 || n <= 0 {
        Seq::empty()
    } else if n <= s[0].1 {
        seq![(s[0].0, n as usize)]
    } else {
        seq![s[0]] + take_weight_front(s.drop_first(), n - s[0].1)
    }
}

/// The back sub-list of `s` whose total weight is exactly `n`, splitting
/// the boundary cluster's count if `n` falls inside it.
pub open spec fn take_weight_back(s: Seq<Cluster>, n: int) -> Seq<Cluster>
    decreases s.len(),
{
    if s.len() == 0 || n <= 0 {
        Seq::empty()
    } else if n <= s.last().1 {
        seq![(s.last().0, n as usize)]
    } else {
        take_weight_back(s.drop_last(), n - s.last().1) + seq![s.last()]
    }
}

/// A non-empty list of positive counts has positive weight.
pub proof fn lemma_weight_positive(s: Seq<Cluster>)
    requires
        s.len() > 0,
        counts_positive(s),
    ensures
        weight_of(s) >= s[0].1 >= 1,
{
    lemma_weight_take_step(s, 0);
    assert(weight_of(s.take(0)) == 0) by {
        assert(s.take(0) =~= Seq::<Cluster>::empty());
    }
    lemma_weight_take_monotonic(s, 1, s.len() as int);
    lemma_weight_take_all(s);
}

/// The weight of a single cluster is its count.
pub proof fn lemma_weight_singleton(c: Cluster)
    ensures
        weight_of(seq![c]) == c.1,
{
    assert(seq![c].drop_last() =~= Seq::<Cluster>::empty());
    assert(weight_of(Seq::<Cluster>::empty()) == 0);
}

/// Weight adds up over concatenation.
pub proof fn lemma_weight_concat(a: Seq<Cluster>, b: Seq<Cluster>)
    ensures
        weight_of(a + b) == weight_of(a) + weight_of(b),
    decreases b.len(),
{
    if b.len() == 0 {
        assert(a + b =~= a);
    } else {
        lemma_weight_concat(a, b.drop_last());
        assert((a + b).drop_last() =~= a + b.drop_last());
        assert((a + b).last() == b.last());
    }
}

/// In a list with the value `x` absent, its total count is zero.
proof fn lemma_total_count_absent(s: Seq<Cluster>, x: Rational)
    requires
        !has_value(s, x),
    ensures
        total_count(s, x) == 0,
    decreases s.len(),
{
    if s.len() > 0 {
        assert(!has_value(s.drop_last(), x)) by {
            if has_value(s.drop_last(), x) {
                let j = choose|j: int|
                    0 <= j < s.drop_last().len() && (#[trigger] s.drop_last()[j]).0 == x;
                assert(s[j].0 == x);
            }
        }
        lemma_total_count_absent(s.drop_last(), x);
        assert(s.last().0 != x) by {
            assert(s[s.len() - 1].0 == s.last().0);
        }
    }
}

/// Replacing one count shifts the weight by the difference.
proof fn lemma_weight_update(s: Seq<Cluster>, k: int, c: usize)
    requires
        0 <= k < s.len(),
    ensures
        weight_of(s.update(k, (s[k].0, c))) == weight_of(s) - s[k].1 + c,
    decreases s.len(),
{
    let t = s.update(k, (s[k].0, c));
    if k == s.len() - 1 {
        assert(t.drop_last() =~= s.drop_last());
    } else {
        lemma_weight_update(s.drop_last(), k, c);
        assert(t.drop_last() =~= s.drop_last().update(k, (s[k].0, c)));
        assert(t.last() == s.last());
    }
}

/// The weight of any prefix plus one in-range count stays at or below the
/// total weight.
proof fn lemma_partial_weight_bound(s: Seq<Cluster>, k: int)
    requires
        0 <= k < s.len(),
    ensures
        s[k].1 <= weight_of(s),
    decreases s.len(),
{
    lemma_weight_nonnegative(s.drop_last());
    if k == s.len() - 1 {
    } else {
        lemma_partial_weight_bound(s.drop_last(), k);
    }
}

proof fn lemma_has_value_extend(
    sv: Seq<Cluster>,
    i: int,
    before: Seq<Cluster>,
    after: Seq<Cluster>,
    k: int,
    value: Rational,
    x: Rational,
)
    requires
        0 <= i < sv.len(),
        sv[i].0 == value,
        0 <= k < before.len(),
        before[k].0 == value,
        after.len() == before.len(),
        forall|j: int| 0 <= j < after.len() ==> (#[trigger] after[j]).0 == before[j].0,
        has_value(before, x) <==> has_value(sv.take(i), x),
    ensures
        has_value(after, x) <==> has_value(sv.take(i + 1), x),
{
    if has_value(after, x) {
        let j = choose|j: int| 0 <= j < after.len() && (#[trigger] after[j]).0 == x;
        assert(before[j].0 == x);
        assert(has_value(before, x));
        let w = choose|w: int| 0 <= w < sv.take(i).len() && (#[trigger] sv.take(i)[w]).0 == x;
        assert(sv.take(i + 1)[w].0 == x);
        assert(has_value(sv.take(i + 1), x));
    }
    if has_value(sv.take(i + 1), x) {
        let w = choose|w: int| 0 <= w < sv.take(i + 1).len() && (#[trigger] sv.take(i + 1)[w]).0 == x;
        if w < i {
            assert(sv.take(i)[w].0 == x);
            assert(has_value(sv.take(i), x));
            let j = choose|j: int| 0 <= j < before.len() && (#[trigger] before[j]).0 == x;
            assert(after[j].0 == x);
        } else {
            assert(sv.take(i + 1)[i] == sv[i]);
            assert(x == value);
            assert(after[k].0 == x);
        }
        assert(has_value(after, x));
    }
}

proof fn lemma_has_value_push(
    sv: Seq<Cluster>,
    i: int,
    before: Seq<Cluster>,
    after: Seq<Cluster>,
    value: Rational,
    count: usize,
    x: Rational,
)
    requires
        0 <= i < sv.len(),
        sv[i].0 == value,
        after == before.push((value, count)),
        has_value(before, x) <==> has_value(sv.take(i), x),
    ensures
        has_value(after, x) <==> has_value(sv.take(i + 1), x),
{
    if has_value(after, x) {
        let j = choose|j: int| 0 <= j < after.len() && (#[trigger] after[j]).0 == x;
        if j < before.len() {
            assert(before[j].0 == x);
            assert(has_value(before, x));
            let w = choose|w: int| 0 <= w < sv.take(i).len() && (#[trigger] sv.take(i)[w]).0 == x;
            assert(sv.take(i + 1)[w].0 == x);
        } else {
            assert(x == value);
            assert(sv.take(i + 1)[i].0 == x);
        }
        assert(has_value(sv.take(i + 1), x));
    }
    if has_value(sv.take(i + 1), x) {
        let w = choose|w: int| 0 <= w < sv.take(i + 1).len() && (#[trigger] sv.take(i + 1)[w]).0 == x;
        if w < i {
            assert(sv.take(i)[w].0 == x);
            assert(has_value(sv.take(i), x));
            let j = choose|j: int| 0 <= j < before.len() && (#[trigger] before[j]).0 == x;
            assert(after[j].0 == x);
        } else {
            assert(sv.take(i + 1)[i] == sv[i]);
            assert(after[before.len() as int].0 == x);
        }
        assert(has_value(after, x));
    }
}

/// Inserting a cluster where everything before is at most its value and
/// everything from the point on is strictly above keeps the list sorted.
proof fn lemma_sorted_insert_cluster(before: Seq<Cluster>, p: int, c: Cluster)
    requires
        sorted_by_value(before),
        values_valid(before),
        c.0.valid(),
        0 <= p <= before.len(),
        forall|j: int| 0 <= j < p ==> rat_le((#[trigger] before[j]).0.v(), c.0.v()),
        p < before.len() ==> rat_lt(c.0.v(), before[p].0.v()),
    ensures
        sorted_by_value(before.insert(p, c)),
{
    before.insert_ensures(p, c);
    let t = before.insert(p, c);
    assert forall|a: int, b: int| 0 <= a < b < t.len() implies rat_le(t[a].0.v(), t[b].0.v()) by {
        if b < p {
        } else if a < p && b == p {
            assert(t[a] == before[a]);
        } else if a < p && b > p {
            assert(t[a] == before[a]);
            assert(t[b] == before[b - 1]);
            lemma_le_lt_to_le(before[a].0.v(), c.0.v(), before[p].0.v());
            if b - 1 > p {
                lemma_rat_le_trans(before[a].0.v(), before[p].0.v(), before[b - 1].0.v());
            }
        } else if a == p {
            assert(t[b] == before[b - 1]);
            if b - 1 > p {
                lemma_rat_lt_le_trans(c.0.v(), before[p].0.v(), before[b - 1].0.v());
            }
        } else {
            assert(t[a] == before[a - 1]);
            assert(t[b] == before[b - 1]);
        }
    }
}

/// At-most chains through strictly-below.
proof fn lemma_le_lt_to_le(a: (int, int), b: (int, int), c: (int, int))
    by (nonlinear_arith)
    requires
        rat_le(a, b),
        rat_lt(b, c),
        a.1 >= 1,
        b.1 >= 1,
        c.1 >= 1,
    ensures
        rat_le(a, c),
{
}

/// Deduplication is idempotent: a second pass returns its input unchanged,
/// and the total weight still equals that of the list first deduplicated.
pub proof fn lemma_optimize_idempotent(s: Seq<Cluster>, r: Seq<Cluster>, r2: Seq<Cluster>)
    requires
        is_optimized_of(r, s),
        is_optimized_of(r2, r),
    ensures
        r2 == r,
        weight_of(r2) == weight_of(s),
{
}

} // verus!
