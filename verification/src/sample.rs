//! Samples: observations in ascending order.
use vstd::prelude::*;
use vstd::relations::{sorted_by, total_ordering};
use vstd::multiset::{Multiset, lemma_multiset_empty_len};
use vstd::seq_lib::{lemma_multiset_commutative, lemma_sorted_unique, to_multiset_build, to_multiset_contains, to_multiset_len};
use crate::number::{Number, lemma_key_order};

verus! {

/// The order in which a sample is kept: by [`Number::key`].
pub open spec fn by_key() -> spec_fn(Number, Number) -> bool {
    |a: Number, b: Number| a.key() <= b.key()
}

/// The order by key is total: no two distinct patterns tie.
pub proof fn lemma_by_key_total()
    ensures
        total_ordering(by_key()),
{
    assert forall|a: Number, b: Number| #[trigger] by_key()(a, b) && #[trigger] by_key()(b, a) implies a == b by {
        lemma_key_order(a, b);
    }
}

/// A sequence without elements has the multiset without elements.
proof fn lemma_empty_to_multiset(s: Seq<Number>)
    requires
        s.len() == 0,
    ensures
        s.to_multiset() =~= Multiset::empty(),
{
    to_multiset_len(s);
    lemma_multiset_empty_len(s.to_multiset());
}

/// Merges two ascending runs into one.
fn merge(left: &Vec<Number>, right: &Vec<Number>) -> (out: Vec<Number>)
    requires
        sorted_by(left@, by_key()),
        sorted_by(right@, by_key()),
        left.len() + right.len() <= usize::MAX,
    ensures
        sorted_by(out@, by_key()),
        out@.to_multiset() =~= left@.to_multiset().add(right@.to_multiset()),
        out.len() == left.len() + right.len(),
{
    let mut out: Vec<Number> = Vec::with_capacity(left.len() + right.len());
    let mut i: usize = 0;
    let mut j: usize = 0;
    proof {
        lemma_empty_to_multiset(out@);
        lemma_empty_to_multiset(left@.take(0));
        lemma_empty_to_multiset(right@.take(0));
    }
    while i < left.len() || j < right.len()
        invariant
            i <= left.len(),
            j <= right.len(),
            out.len() == i + j,
            sorted_by(left@, by_key()),
            sorted_by(right@, by_key()),
            sorted_by(out@, by_key()),
            forall|k: int| 0 <= k < out.len() && i < left.len() ==> (#[trigger] out[k]).key() <= left[i as int].key(),
            forall|k: int| 0 <= k < out.len() && j < right.len() ==> (#[trigger] out[k]).key() <= right[j as int].key(),
            out@.to_multiset() =~= left@.take(i as int).to_multiset().add(
                right@.take(j as int).to_multiset(),
            ),
        decreases left.len() - i + right.len() - j,
    {
        let from_left = if j >= right.len() {
            true
        } else if i >= left.len() {
            false
        } else {
            left[i].order_key() <= right[j].order_key()
        };
        if from_left {
            let x = left[i];
            proof {
                to_multiset_build(out@, x);
                to_multiset_build(left@.take(i as int), x);
                assert(left@.take(i + 1) =~= left@.take(i as int).push(x));
                if i + 1 < left.len() {
                    assert(by_key()(left[i as int], left[i + 1]));
                }
            }
            out.push(x);
            i += 1;
        } else {
            let x = right[j];
            proof {
                to_multiset_build(out@, x);
                to_multiset_build(right@.take(j as int), x);
                assert(right@.take(j + 1) =~= right@.take(j as int).push(x));
                if j + 1 < right.len() {
                    assert(by_key()(right[j as int], right[j + 1]));
                }
            }
            out.push(x);
            j += 1;
        }
    }
    proof {
        assert(left@.take(i as int) =~= left@);
        assert(right@.take(j as int) =~= right@);
    }
    out
}

/// Sorts the observations `v[lo..hi]` by key.
fn sort_range(v: &Vec<Number>, lo: usize, hi: usize) -> (out: Vec<Number>)
    requires
        lo <= hi <= v.len(),
    ensures
        sorted_by(out@, by_key()),
        out@.to_multiset() =~= v@.subrange(lo as int, hi as int).to_multiset(),
        out.len() == hi - lo,
    decreases hi - lo,
{
    if hi - lo <= 1 {
        let mut out: Vec<Number> = Vec::new();
        if lo < hi {
            out.push(v[lo]);
        }
        proof {
            assert(out@ =~= v@.subrange(lo as int, hi as int));
        }
        out
    } else {
        let mid: usize = lo + (hi - lo) / 2;
        let left = sort_range(v, lo, mid);
        let right = sort_range(v, mid, hi);
        proof {
            let a = v@.subrange(lo as int, mid as int);
            let b = v@.subrange(mid as int, hi as int);
            assert(v@.subrange(lo as int, hi as int) =~= a + b);
            lemma_multiset_commutative(a, b);
        }
        merge(&left, &right)
    }
}

/// Whether the values never decrease along the sequence.
pub open spec fn ascending(s: Seq<Number>) -> bool {
    forall|i: int, j: int| 0 <= i < j < s.len() ==> (#[trigger] s[i]).value() <= (#[trigger] s[j]).value()
}

/// Whether the values increase strictly along the sequence.
pub open spec fn strictly_ascending(s: Seq<Number>) -> bool {
    forall|i: int, j: int| 0 <= i < j < s.len() ==> (#[trigger] s[i]).value() < (#[trigger] s[j]).value()
}

/// How many elements of `s` have a value of at most that of `x`.
pub open spec fn count_at_most(s: Seq<Number>, x: Number) -> nat
    decreases s.len(),
{
    if s.len() == 0 {
        0
    } else {
        count_at_most(s.drop_last(), x) + if s.last().value() <= x.value() {
            1nat
        } else {
            0nat
        }
    }
}

/// The elements of `s` without those whose value repeats that of the element
/// just before them. Of an ascending sequence these are its distinct values,
/// each given by its first occurrence.
pub open spec fn distinct(s: Seq<Number>) -> Seq<Number>
    decreases s.len(),
{
    if s.len() == 0 {
        Seq::empty()
    } else if s.len() >= 2 && s[s.len() - 2].value() == s.last().value() {
        distinct(s.drop_last())
    } else {
        distinct(s.drop_last()).push(s.last())
    }
}

/// A sequence in key order is ascending.
pub proof fn lemma_sorted_ascending(s: Seq<Number>)
    requires
        sorted_by(s, by_key()),
    ensures
        ascending(s),
{
    assert forall|i: int, j: int| 0 <= i < j < s.len() implies (#[trigger] s[i]).value() <= (
    #[trigger] s[j]).value() by {
        assert(by_key()(s[i], s[j]));
        lemma_key_order(s[i], s[j]);
    }
}

/// Where the elements up to position `p` are at most `x` and the others
/// above it, `p` is the count.
pub proof fn lemma_count_at_partition(s: Seq<Number>, x: Number, p: int)
    requires
        0 <= p <= s.len(),
        forall|i: int| 0 <= i < p ==> (#[trigger] s[i]).value() <= x.value(),
        forall|i: int| p <= i < s.len() ==> (#[trigger] s[i]).value() > x.value(),
    ensures
        count_at_most(s, x) == p,
    decreases s.len(),
{
    if s.len() > 0 {
        let rest = s.drop_last();
        if p == s.len() {
            lemma_count_at_partition(rest, x, p - 1);
        } else {
            lemma_count_at_partition(rest, x, p);
        }
    }
}

/// The distinct values of a sequence that is not empty begin with its first
/// element, end with the value of its last, and are no more than its
/// elements.
pub proof fn lemma_distinct_ends(s: Seq<Number>)
    requires
        s.len() > 0,
    ensures
        1 <= distinct(s).len() <= s.len(),
        distinct(s).first() == s.first(),
        distinct(s).last().value() == s.last().value(),
    decreases s.len(),
{
    let rest = s.drop_last();
    if rest.len() > 0 {
        lemma_distinct_ends(rest);
        assert(rest.first() == s.first());
        assert(rest.last() == s[s.len() - 2]);
    } else {
        assert(distinct(rest) =~= Seq::empty());
    }
}

/// The distinct values of an ascending sequence increase strictly.
pub proof fn lemma_distinct_strictly_ascending(s: Seq<Number>)
    requires
        ascending(s),
    ensures
        strictly_ascending(distinct(s)),
    decreases s.len(),
{
    if s.len() > 0 {
        let rest = s.drop_last();
        assert(ascending(rest)) by {
            assert forall|i: int, j: int| 0 <= i < j < rest.len() implies (#[trigger] rest[i]).value() <= (
            #[trigger] rest[j]).value() by {
                assert(rest[i] == s[i]);
                assert(rest[j] == s[j]);
            }
        }
        lemma_distinct_strictly_ascending(rest);
        if rest.len() > 0 {
            lemma_distinct_ends(rest);
            assert(rest.last() == s[s.len() - 2]);
            assert(s[s.len() - 2].value() <= s[s.len() - 1].value());
            let d = distinct(rest);
            assert(forall|i: int| 0 <= i < d.len() - 1 ==> (#[trigger] d[i]).value() < d[d.len() - 1].value());
        }
    }
}

/// The count never exceeds the length.
pub proof fn lemma_count_bounded(s: Seq<Number>, x: Number)
    ensures
        count_at_most(s, x) <= s.len(),
    decreases s.len(),
{
    if s.len() > 0 {
        lemma_count_bounded(s.drop_last(), x);
    }
}

/// Putting a sequence in key order rearranges it: the result is in order,
/// ascending, and holds the same elements as often.
pub proof fn lemma_sort_rearranges(s: Seq<Number>)
    ensures
        sorted_by(s.sort_by(by_key()), by_key()),
        ascending(s.sort_by(by_key())),
        s.sort_by(by_key()).to_multiset() == s.to_multiset(),
        s.sort_by(by_key()).len() == s.len(),
        forall|x: Number| s.contains(x) <==> s.sort_by(by_key()).contains(x),
{
    lemma_by_key_total();
    s.lemma_sort_by_ensures(by_key());
    lemma_sorted_ascending(s.sort_by(by_key()));
    to_multiset_len(s);
    to_multiset_len(s.sort_by(by_key()));
    assert forall|x: Number| s.contains(x) <==> s.sort_by(by_key()).contains(x) by {
        to_multiset_contains(s, x);
        to_multiset_contains(s.sort_by(by_key()), x);
    }
}

/// The observations in ascending order, by key.
pub fn sort(observations: &Vec<Number>) -> (out: Vec<Number>)
    ensures
        out@ == observations@.sort_by(by_key()),
{
    let out = sort_range(observations, 0, observations.len());
    proof {
        assert(observations@.subrange(0, observations.len() as int) =~= observations@);
        lemma_by_key_total();
        observations@.lemma_sort_by_ensures(by_key());
        lemma_sorted_unique(out@, observations@.sort_by(by_key()), by_key());
    }
    out
}

/// A sample: observations kept in ascending order, duplicates included.
#[derive(Debug)]
pub struct Sample {
    values: Vec<Number>,
}

impl View for Sample {
    type V = Seq<Number>;

    /// The observations, in the order in which they are kept.
    closed spec fn view(&self) -> Seq<Number> {
        self.values@
    }
}

impl Sample {
    /// The invariant of a sample: its observations are in key order.
    pub open spec fn wf(&self) -> bool {
        &&& sorted_by(self@, by_key())
        &&& self@.len() <= usize::MAX
    }

    /// The sample of the given observations, which may come in any order.
    pub fn new(observations: &Vec<Number>) -> (s: Sample)
        ensures
            s.wf(),
            s@ == observations@.sort_by(by_key()),
            s@.len() == observations@.len(),
    {
        let values = sort(observations);
        proof {
            lemma_sort_rearranges(observations@);
            assert(values@.len() == observations.len());
        }
        Sample { values }
    }

    /// The number of observations.
    pub fn len(&self) -> (n: usize)
        ensures
            n == self@.len(),
    {
        self.values.len()
    }

    /// Whether there is no observation.
    pub fn is_empty(&self) -> (r: bool)
        ensures
            r == (self@.len() == 0),
    {
        self.values.len() == 0
    }

    /// The observations, in ascending order.
    pub fn values(&self) -> (v: &Vec<Number>)
        ensures
            v@ == self@,
    {
        &self.values
    }

    /// The observation at position `i` of the ascending order.
    pub fn get(&self, i: usize) -> (x: Number)
        requires
            i < self@.len(),
        ensures
            x == self@[i as int],
    {
        self.values[i]
    }

    /// The least observation.
    pub fn minimum(&self) -> (x: Number)
        requires
            self@.len() > 0,
        ensures
            x == self@.first(),
    {
        self.values[0]
    }

    /// The greatest observation.
    pub fn maximum(&self) -> (x: Number)
        requires
            self@.len() > 0,
        ensures
            x == self@.last(),
    {
        self.values[self.values.len() - 1]
    }

    /// How many observations have a value of at most that of `x`.
    pub fn count_at_most(&self, x: Number) -> (k: usize)
        requires
            self.wf(),
        ensures
            k == count_at_most(self@, x),
    {
        let mut lo: usize = 0;
        let mut hi: usize = self.values.len();
        proof {
            lemma_sorted_ascending(self@);
        }
        while lo < hi
            invariant
                lo <= hi <= self.values.len(),
                ascending(self.values@),
                forall|i: int| 0 <= i < lo ==> (#[trigger] self.values[i]).value() <= x.value(),
                forall|i: int| hi <= i < self.values.len() ==> (#[trigger] self.values[i]).value() > x.value(),
            decreases hi - lo,
        {
            let mid: usize = lo + (hi - lo) / 2;
            if self.values[mid].le(&x) {
                lo = mid + 1;
            } else {
                hi = mid;
            }
        }
        proof {
            lemma_count_at_partition(self@, x, lo as int);
        }
        lo
    }

    /// The distinct values in ascending order, each given by its first
    /// occurrence in the sample.
    pub fn distinct_values(&self) -> (d: Vec<Number>)
        ensures
            d@ == distinct(self@),
    {
        let mut d: Vec<Number> = Vec::new();
        let n: usize = self.values.len();
        let mut i: usize = 0;
        while i < n
            invariant
                i <= n,
                n == self.values.len(),
                d@ == distinct(self.values@.take(i as int)),
            decreases n - i,
        {
            proof {
                assert(self.values@.take(i + 1).drop_last() =~= self.values@.take(i as int));
            }
            if i == 0 || !self.values[i - 1].same_value(&self.values[i]) {
                d.push(self.values[i]);
            }
            i += 1;
        }
        proof {
            assert(self.values@.take(n as int) =~= self.values@);
        }
        d
    }
}

} // verus!
