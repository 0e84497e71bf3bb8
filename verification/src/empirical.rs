//! The mean, as the formulas give it.
//!
//! The mean of a quantity on a bounded support is the support's maximum less
//! the integral of its distribution function. For a sample this is a finite
//! sum: with the empirical distribution function in place of the bounds,
//! both formulas of the interval come out as the mean of the observations,
//! exactly. It follows that the interval holds the mean wherever the
//! pointwise bounds hold the observed frequencies between them.
use vstd::prelude::*;
use crate::cdf::{Endpoint, Tail, lemma_count_range};
use crate::error::MeanCiError;
use crate::interval::Term;
use crate::exact::{
    exact_value, lemma_formula_widths, lemma_weighted_sum_first, lemma_weighted_sum_monotone,
    weighted_sum, weights_valid, width,
};
use crate::interval::{MeanCi, is_mean_ci, lower_terms, upper_terms};
use crate::number::Number;
use crate::sample::{
    ascending, by_key, count_at_most, distinct, lemma_distinct_ends,
    lemma_distinct_strictly_ascending, lemma_sort_rearranges,
};
use crate::support::{within_support, lemma_violation_iff_outside};

verus! {

/// The sum of the exact values.
pub open spec fn sum_values(s: Seq<Number>) -> int
    decreases s.len(),
{
    if s.len() == 0 {
        0
    } else {
        sum_values(s.drop_last()) + s.last().value()
    }
}

/// `x`, but no less than zero and no more than `n`.
pub open spec fn clipped(x: int, n: int) -> int {
    if x < 0 {
        0
    } else if x > n {
        n
    } else {
        x
    }
}

/// The empirical distribution function of a sample of `n` as weights, in
/// parts of `n`: at a threshold with `k` observations at or below it, `k`.
/// A lower end there is the quantile of Beta(k, n - k + 1), an upper end
/// that of Beta(k + 1, n - k).
pub open spec fn empirical(n: int) -> spec_fn(Endpoint) -> int {
    |e: Endpoint|
        match e {
            Endpoint::Zero => 0,
            Endpoint::One => n,
            Endpoint::Quantile { a, b, tail: Tail::Lower } => clipped(a as int, n),
            Endpoint::Quantile { a, b, tail: Tail::Upper } => clipped(a - 1, n),
        }
}

/// Whether the weights hold the observed frequencies between them: with `k`
/// of `n` observations at or below a threshold, the lower end there is at
/// most `k / n` and the upper end at least `k / n`.
pub open spec fn weights_bracket_frequency(w: spec_fn(Endpoint) -> int, unit: int) -> bool {
    &&& forall|a: usize, b: usize| #[trigger]
        w(Endpoint::Quantile { a, b, tail: Tail::Lower }) * (a + b - 1) <= a * unit
    &&& forall|a: usize, b: usize| #[trigger]
        w(Endpoint::Quantile { a, b, tail: Tail::Upper }) * (a + b - 1) >= (a - 1) * unit
}

/// The sum, over the steps from each of `d` to the next up to position
/// `hi`, of the step's width times `c` of the position stepped to.
pub open spec fn stepped_sum(d: Seq<Number>, c: spec_fn(int) -> int, hi: int) -> int
    decreases hi,
{
    if hi <= 0 {
        0
    } else {
        stepped_sum(d, c, hi - 1) + (d[hi].value() - d[hi - 1].value()) * c(hi)
    }
}

proof fn lemma_scale(x: int, y: int, z: int)
    by (nonlinear_arith)
    ensures
        x * (y + z) == x * y + x * z,
        x * (y - z) == x * y - x * z,
        (x * y) * z == x * (y * z),
        x * y == y * x,
{
}

proof fn lemma_commute(x: int, y: int)
    by (nonlinear_arith)
    ensures
        x * y == y * x,
{
}

proof fn lemma_one_more(j: int, m: int)
    by (nonlinear_arith)
    ensures
        (j - 1) * m + m == j * m,
{
}

proof fn lemma_take_all(n: int, a: int, b: int)
    by (nonlinear_arith)
    ensures
        n * a - (a - b) * n == n * b,
{
}

proof fn lemma_no_product(x: int, y: int)
    by (nonlinear_arith)
    requires
        x == 0 || y == 0,
    ensures
        x * y == 0,
{
}

/// The stepped sum of a sum of two functions is the sum of their stepped
/// sums.
proof fn lemma_stepped_sum_adds(
    d: Seq<Number>,
    c1: spec_fn(int) -> int,
    c2: spec_fn(int) -> int,
    c3: spec_fn(int) -> int,
    hi: int,
)
    requires
        forall|t: int| 1 <= t <= hi ==> #[trigger] c3(t) == c1(t) + c2(t),
    ensures
        stepped_sum(d, c3, hi) == stepped_sum(d, c1, hi) + stepped_sum(d, c2, hi),
    decreases hi,
{
    if hi > 0 {
        lemma_stepped_sum_adds(d, c1, c2, c3, hi - 1);
        assert(c3(hi) == c1(hi) + c2(hi));
        lemma_scale(d[hi].value() - d[hi - 1].value(), c1(hi), c2(hi));
    }
}

/// The steps that begin at or after position `p` span from there to `hi`.
proof fn lemma_stepped_sum_from(d: Seq<Number>, c: spec_fn(int) -> int, p: int, hi: int)
    requires
        0 <= p,
        forall|t: int| 1 <= t <= hi ==> #[trigger] c(t) == if t > p {
            1int
        } else {
            0int
        },
    ensures
        stepped_sum(d, c, hi) == if hi > p {
            d[hi].value() - d[p].value()
        } else {
            0
        },
    decreases hi,
{
    if hi > 0 {
        lemma_stepped_sum_from(d, c, p, hi - 1);
        assert(c(hi) == if hi > p {
            1int
        } else {
            0int
        });
    }
}

/// Terms that step along `d`, weighted as `c` says, add up to the stepped
/// sum.
proof fn lemma_weighted_sum_stepped(
    terms: Seq<Term>,
    w: spec_fn(Endpoint) -> int,
    d: Seq<Number>,
    c: spec_fn(int) -> int,
)
    requires
        d.len() == terms.len() + 1,
        forall|t: int|
            1 <= t <= terms.len() ==> {
                &&& (#[trigger] terms[t - 1]).from == d[t - 1]
                &&& terms[t - 1].to == d[t]
                &&& w(terms[t - 1].weight) == c(t)
            },
    ensures
        weighted_sum(terms, w) == stepped_sum(d, c, terms.len() as int),
    decreases terms.len(),
{
    if terms.len() > 0 {
        let rest = terms.drop_last();
        let e = d.drop_last();
        assert forall|t: int| 1 <= t <= rest.len() implies {
            &&& (#[trigger] rest[t - 1]).from == e[t - 1]
            &&& rest[t - 1].to == e[t]
            &&& w(rest[t - 1].weight) == c(t)
        } by {
            assert(rest[t - 1] == terms[t - 1]);
        }
        lemma_weighted_sum_stepped(rest, w, e, c);
        lemma_stepped_sum_same(d, e, c, rest.len() as int);
        let hi = terms.len() as int;
        assert(terms.last() == terms[hi - 1]);
    }
}

/// A stepped sum looks no further along the sequence than it steps.
proof fn lemma_stepped_sum_same(d: Seq<Number>, e: Seq<Number>, c: spec_fn(int) -> int, hi: int)
    requires
        hi < e.len() <= d.len(),
        forall|t: int| 0 <= t < e.len() ==> d[t] == e[t],
    ensures
        stepped_sum(d, c, hi) == stepped_sum(e, c, hi),
    decreases hi,
{
    if hi > 0 {
        lemma_stepped_sum_same(d, e, c, hi - 1);
    }
}

/// Every element of an ascending sequence has its value among the distinct
/// values.
proof fn lemma_distinct_covers(s: Seq<Number>, j: int) -> (p: int)
    requires
        0 <= j < s.len(),
    ensures
        0 <= p < distinct(s).len(),
        distinct(s)[p].value() == s[j].value(),
    decreases s.len(),
{
    let rest = s.drop_last();
    if j == s.len() - 1 {
        if s.len() >= 2 && s[s.len() - 2].value() == s.last().value() {
            lemma_distinct_ends(rest);
            assert(rest.last() == s[s.len() - 2]);
            distinct(rest).len() - 1
        } else {
            distinct(rest).len() as int
        }
    } else {
        let p = lemma_distinct_covers(rest, j);
        assert(rest[j] == s[j]);
        p
    }
}

/// For each step between the distinct values of `s`, by the position
/// stepped to: how many of the first `j` observations lie at or below where
/// the step begins.
pub open spec fn counts_below(s: Seq<Number>, j: int) -> spec_fn(int) -> int {
    |t: int| count_at_most(s.take(j), distinct(s)[t - 1]) as int
}

/// Summation by parts over a sample: for the first `j` of the ascending
/// observations `s`, the steps between the distinct values, each counted as
/// often as there are observations at or below where it begins, add up to
/// what the observations fall short of the greatest value.
proof fn lemma_counts_by_parts(s: Seq<Number>, j: int)
    requires
        ascending(s),
        0 <= j <= s.len(),
        s.len() > 0,
    ensures
        stepped_sum(distinct(s), counts_below(s, j), distinct(s).len() - 1) == j
            * s.last().value() - sum_values(s.take(j)),
    decreases j,
{
    let d = distinct(s);
    let hi = d.len() - 1;
    lemma_distinct_ends(s);
    lemma_distinct_strictly_ascending(s);
    let cj = counts_below(s, j);
    if j == 0 {
        assert(s.take(0) =~= Seq::empty());
        let zero = |t: int| 0int;
        assert forall|t: int| 1 <= t <= hi implies #[trigger] cj(t) == zero(t) + zero(t) by {}
        lemma_stepped_sum_adds(d, zero, zero, cj, hi);
        assert forall|t: int| 1 <= t <= hi implies #[trigger] zero(t) == zero(t) + zero(t) by {}
        lemma_stepped_sum_adds(d, zero, zero, zero, hi);
    } else {
        lemma_counts_by_parts(s, j - 1);
        let before = counts_below(s, j - 1);
        let x = s[j - 1];
        let p = lemma_distinct_covers(s, j - 1);
        let step = |t: int|
            if t > p {
                1int
            } else {
                0int
            };
        assert(s.take(j).drop_last() =~= s.take(j - 1));
        assert(s.take(j).last() == x);
        assert forall|t: int| 1 <= t <= hi implies #[trigger] cj(t) == before(t) + step(t) by {
            if t - 1 > p {
                assert(d[p].value() < d[t - 1].value());
            } else if t - 1 < p {
                assert(d[t - 1].value() < d[p].value());
            }
        }
        lemma_stepped_sum_adds(d, before, step, cj, hi);
        lemma_stepped_sum_from(d, step, p, hi);
        assert(sum_values(s.take(j)) == sum_values(s.take(j - 1)) + x.value());
        assert(d[hi].value() == s.last().value());
        lemma_one_more(j, s.last().value());
    }
}

/// With the observed counts for weights, the stretches between the distinct
/// values add up, in either formula, to what the observations fall short of
/// the greatest value.
proof fn lemma_empirical_stretches(s: Seq<Number>, min_support: Number, max_support: Number)
    requires
        ascending(s),
        0 < s.len() <= usize::MAX,
    ensures
        weighted_sum(lower_terms(s, min_support).skip(1), empirical(s.len() as int)) == s.len()
            * s.last().value() - sum_values(s),
        weighted_sum(upper_terms(s, max_support).skip(1), empirical(s.len() as int)) == s.len()
            * s.last().value() - sum_values(s),
{
    let n = s.len() as int;
    let d = distinct(s);
    let w = empirical(n);
    let li = lower_terms(s, min_support).skip(1);
    let ui = upper_terms(s, max_support).skip(1);
    let counts = counts_below(s, n);
    lemma_distinct_ends(s);
    lemma_distinct_strictly_ascending(s);
    lemma_counts_by_parts(s, n);
    assert(s.take(n) =~= s);
    assert forall|t: int| 1 <= t < d.len() implies {
        &&& d[0].value() <= (#[trigger] d[t - 1]).value() < d[d.len() - 1].value()
        &&& 1 <= count_at_most(s, d[t - 1]) < n
    } by {
        if t - 1 > 0 {
            assert(d[0].value() < d[t - 1].value());
        }
        assert(d[t - 1].value() < d[d.len() - 1].value());
        lemma_count_range(s, d[t - 1]);
    }
    assert forall|t: int| 1 <= t <= li.len() implies {
        &&& (#[trigger] li[t - 1]).from == d[t - 1]
        &&& li[t - 1].to == d[t]
        &&& w(li[t - 1].weight) == counts(t)
    } by {
        assert(li[t - 1] == lower_terms(s, min_support)[t]);
        assert(d[0].value() <= d[t - 1].value() < d[d.len() - 1].value());
    }
    assert forall|t: int| 1 <= t <= ui.len() implies {
        &&& (#[trigger] ui[t - 1]).from == d[t - 1]
        &&& ui[t - 1].to == d[t]
        &&& w(ui[t - 1].weight) == counts(t)
    } by {
        assert(ui[t - 1] == upper_terms(s, max_support)[t]);
        assert(d[0].value() <= d[t - 1].value() < d[d.len() - 1].value());
    }
    lemma_weighted_sum_stepped(li, w, d, counts);
    lemma_weighted_sum_stepped(ui, w, d, counts);
}

/// With the empirical distribution function in place of the bounds, both
/// formulas give the sum of the observations, that is, their mean in parts
/// of their number.
pub proof fn lemma_empirical_formulas(s: Seq<Number>, min_support: Number, max_support: Number)
    requires
        ascending(s),
        0 < s.len() <= usize::MAX,
        within_support(s, min_support, max_support),
    ensures
        exact_value(s.last(), lower_terms(s, min_support), empirical(s.len() as int), s.len() as int)
            == sum_values(s),
        exact_value(
            max_support,
            upper_terms(s, max_support),
            empirical(s.len() as int),
            s.len() as int,
        ) == sum_values(s),
{
    let n = s.len() as int;
    let w = empirical(n);
    let lt = lower_terms(s, min_support);
    let ut = upper_terms(s, max_support);
    lemma_distinct_ends(s);
    lemma_empirical_stretches(s, min_support, max_support);
    lemma_weighted_sum_first(lt, w);
    lemma_weighted_sum_first(ut, w);
    assert(s.first() == s[0]);
    assert(s.last() == s[n - 1]);
    assert(min_support.value() <= s[0].value());
    // The stretch below the sample counts for nothing: either it has no
    // width, or no observation lies at or below where it begins.
    lemma_count_range(s, min_support);
    assert(lt.first() == lt[0]);
    assert(width(lt[0]) == 0 || w(lt[0].weight) == 0);
    lemma_no_product(width(lt[0]), w(lt[0].weight));
    // The stretch above the sample counts in full.
    lemma_count_range(s, s.last());
    assert(ut.first() == ut[0]);
    assert(w(ut[0].weight) == n);
    lemma_take_all(n, max_support.value(), s.last().value());
}

/// Weights taken `c` times over give `c` times the sum.
proof fn lemma_weighted_sum_scaled(
    terms: Seq<Term>,
    w: spec_fn(Endpoint) -> int,
    scaled: spec_fn(Endpoint) -> int,
    c: int,
)
    requires
        forall|e: Endpoint| #[trigger] scaled(e) == c * w(e),
    ensures
        weighted_sum(terms, scaled) == c * weighted_sum(terms, w),
    decreases terms.len(),
{
    if terms.len() > 0 {
        lemma_weighted_sum_scaled(terms.drop_last(), w, scaled, c);
        let last = terms.last();
        assert(scaled(last.weight) == c * w(last.weight));
        lemma_scale(c, weighted_sum(terms.drop_last(), w), width(last) * w(last.weight));
        lemma_scale(width(last), c, w(last.weight));
        lemma_scale(c, width(last), w(last.weight));
    } else {
        lemma_scale(c, 0, 0);
    }
}

/// With the empirical distribution function in place of the bounds, both
/// formulas give the mean of the observations: their exact values, in parts
/// of the number of observations, are the sum of the observations.
pub proof fn theorem_empirical_mean(
    ratings: Seq<Number>,
    alpha: Number,
    min_support: Number,
    max_support: Number,
    r: Result<MeanCi, MeanCiError>,
)
    requires
        is_mean_ci(r, ratings, alpha, min_support, max_support),
        r matches Ok(MeanCi::Formulas(_)),
    ensures
        r matches Ok(MeanCi::Formulas(f)) && {
            let n = f.sample@.len() as int;
            &&& f.lower_bound.exact(empirical(n), n) == sum_values(f.sample@)
            &&& f.upper_bound.exact(empirical(n), n) == sum_values(f.sample@)
        },
{
    let s = ratings.sort_by(by_key());
    lemma_sort_rearranges(ratings);
    lemma_violation_iff_outside(s, min_support, max_support);
    lemma_empirical_formulas(s, min_support, max_support);
}

/// The pointwise bounds that the formulas use hold the observed frequencies
/// between them, where all such bounds do: cleared of fractions, each weight
/// of the lower end is at least the empirical one, and each weight of the
/// upper end at most.
proof fn lemma_frequencies_bracketed(
    s: Seq<Number>,
    min_support: Number,
    max_support: Number,
    w: spec_fn(Endpoint) -> int,
    unit: int,
)
    requires
        ascending(s),
        0 < s.len() <= usize::MAX,
        within_support(s, min_support, max_support),
        weights_valid(w, unit),
        weights_bracket_frequency(w, unit),
    ensures
        forall|i: int|
            0 <= i < lower_terms(s, min_support).len() ==> unit * empirical(s.len() as int)(
                (#[trigger] lower_terms(s, min_support)[i]).weight,
            ) <= s.len() * w(lower_terms(s, min_support)[i].weight),
        forall|i: int|
            0 <= i < upper_terms(s, max_support).len() ==> s.len() * w(
                (#[trigger] upper_terms(s, max_support)[i]).weight,
            ) <= unit * empirical(s.len() as int)(upper_terms(s, max_support)[i].weight),
{
    let n = s.len() as int;
    let d = distinct(s);
    let e = empirical(n);
    let lt = lower_terms(s, min_support);
    let ut = upper_terms(s, max_support);
    lemma_distinct_ends(s);
    lemma_distinct_strictly_ascending(s);
    assert(s.first() == s[0]);
    assert(s.last() == s[n - 1]);
    assert forall|i: int| 0 <= i < lt.len() implies unit * e((#[trigger] lt[i]).weight) <= n * w(
        lt[i].weight,
    ) by {
        let x = if i == 0 {
            min_support
        } else {
            d[i - 1]
        };
        lemma_count_range(s, x);
        let k = count_at_most(s, x) as int;
        let q = w(lt[i].weight);
        match lt[i].weight {
            Endpoint::Quantile { a, b, tail } => {
                assert(a == k + 1 && b == n - k && tail == Tail::Upper);
                assert(w(Endpoint::Quantile { a, b, tail: Tail::Upper }) * (a + b - 1) >= (a - 1)
                    * unit);
                assert(e(lt[i].weight) == k);
                assert(q * n >= k * unit);
                lemma_commute(q, n);
                lemma_commute(k, unit);
            },
            Endpoint::One => {
                assert(e(lt[i].weight) == n && q == unit);
                lemma_commute(n, unit);
            },
            Endpoint::Zero => {},
        }
    }
    assert forall|i: int| 0 <= i < ut.len() implies n * w((#[trigger] ut[i]).weight) <= unit * e(
        ut[i].weight,
    ) by {
        let x = if i == 0 {
            s.last()
        } else {
            d[i - 1]
        };
        if i > 1 {
            assert(d[0].value() < d[i - 1].value());
        }
        lemma_count_range(s, x);
        let k = count_at_most(s, x) as int;
        let q = w(ut[i].weight);
        match ut[i].weight {
            Endpoint::Quantile { a, b, tail } => {
                assert(a == k && b == n - k + 1 && tail == Tail::Lower);
                assert(w(Endpoint::Quantile { a, b, tail: Tail::Lower }) * (a + b - 1) <= a * unit);
                assert(e(ut[i].weight) == k);
                assert(q * n <= k * unit);
                lemma_commute(q, n);
                lemma_commute(k, unit);
            },
            _ => {},
        }
    }
}

/// The arithmetic of comparing an end with the mean, both cleared of
/// fractions.
proof fn lemma_clear_fractions(
    n: int,
    unit: int,
    start: int,
    taken: int,
    taken_empirical: int,
    sum: int,
)
    by (nonlinear_arith)
    requires
        n * start - taken_empirical == sum,
    ensures
        n * taken >= unit * taken_empirical ==> n * (unit * start - taken) <= unit * sum,
        n * taken <= unit * taken_empirical ==> n * (unit * start - taken) >= unit * sum,
{
}

/// In exact arithmetic the mean of the ascending observations `s` lies
/// between the two ends, where the pointwise bounds hold the observed
/// frequencies between them.
pub proof fn lemma_mean_between_ends(
    s: Seq<Number>,
    min_support: Number,
    max_support: Number,
    w: spec_fn(Endpoint) -> int,
    unit: int,
)
    requires
        ascending(s),
        0 < s.len() <= usize::MAX,
        within_support(s, min_support, max_support),
        weights_valid(w, unit),
        weights_bracket_frequency(w, unit),
    ensures
        s.len() * exact_value(s.last(), lower_terms(s, min_support), w, unit) <= unit * sum_values(
            s,
        ),
        unit * sum_values(s) <= s.len() * exact_value(
            max_support,
            upper_terms(s, max_support),
            w,
            unit,
        ),
{
    let n = s.len() as int;
    let e = empirical(n);
    let lt = lower_terms(s, min_support);
    let ut = upper_terms(s, max_support);
    lemma_empirical_formulas(s, min_support, max_support);
    lemma_formula_widths(s, min_support, max_support);
    lemma_frequencies_bracketed(s, min_support, max_support, w, unit);
    // Both weightings in parts of `n * unit`.
    let ws = |x: Endpoint| n * w(x);
    let es = |x: Endpoint| unit * e(x);
    lemma_weighted_sum_scaled(lt, w, ws, n);
    lemma_weighted_sum_scaled(ut, w, ws, n);
    lemma_weighted_sum_scaled(lt, e, es, unit);
    lemma_weighted_sum_scaled(ut, e, es, unit);
    assert forall|i: int| 0 <= i < lt.len() implies {
        &&& width(#[trigger] lt[i]) == width(lt[i])
        &&& width(lt[i]) >= 0
        &&& es(lt[i].weight) <= ws(lt[i].weight)
    } by {}
    assert forall|i: int| 0 <= i < ut.len() implies {
        &&& width(#[trigger] ut[i]) == width(ut[i])
        &&& width(ut[i]) >= 0
        &&& ws(ut[i].weight) <= es(ut[i].weight)
    } by {}
    lemma_weighted_sum_monotone(lt, es, lt, ws);
    lemma_weighted_sum_monotone(ut, ws, ut, es);
    lemma_clear_fractions(
        n,
        unit,
        s.last().value(),
        weighted_sum(lt, w),
        weighted_sum(lt, e),
        sum_values(s),
    );
    lemma_clear_fractions(
        n,
        unit,
        max_support.value(),
        weighted_sum(ut, w),
        weighted_sum(ut, e),
        sum_values(s),
    );
}

/// In exact arithmetic the interval holds the mean of the observations,
/// where the pointwise bounds hold the observed frequencies between them.
/// With `n` observations the mean is their sum over `n`, so that the claim,
/// cleared of fractions, compares `n` times each end with the sum.
pub proof fn theorem_mean_within_interval(
    ratings: Seq<Number>,
    alpha: Number,
    min_support: Number,
    max_support: Number,
    r: Result<MeanCi, MeanCiError>,
    w: spec_fn(Endpoint) -> int,
    unit: int,
)
    requires
        is_mean_ci(r, ratings, alpha, min_support, max_support),
        r matches Ok(MeanCi::Formulas(_)),
        weights_valid(w, unit),
        weights_bracket_frequency(w, unit),
    ensures
        r matches Ok(MeanCi::Formulas(f)) && {
            let n = f.sample@.len() as int;
            n * f.lower_bound.exact(w, unit) <= unit * sum_values(f.sample@) <= n
                * f.upper_bound.exact(w, unit)
        },
{
    let s = ratings.sort_by(by_key());
    lemma_sort_rearranges(ratings);
    lemma_violation_iff_outside(s, min_support, max_support);
    lemma_mean_between_ends(s, min_support, max_support, w, unit);
}

} // verus!
