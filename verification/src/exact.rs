//! What the formulas are worth in exact arithmetic.
//!
//! A formula is evaluated by its user in rounded arithmetic, with quantiles
//! from a numerical routine. Stated here is what holds of its exact value,
//! whatever the quantiles are, as long as they are probabilities.
//!
//! Probabilities are taken as whole numbers of parts of `unit`, so that one
//! is `unit` parts, and a weight function gives each endpoint its parts.
//! The exact value of a formula is then a whole number too: the value of the
//! formula, in units of 2^-1074, times `unit`.
//!
//! All of this speaks of real numbers. A pattern that is no real number has
//! a place in the order for its [`Number::value`], not a quantity; of such
//! patterns the statements hold as stated, and say nothing of arithmetic.
use vstd::prelude::*;
use crate::cdf::{Endpoint, Tail, lemma_count_range, lemma_endpoints_proper};
use crate::number::Number;
use crate::error::MeanCiError;
use crate::interval::{
    BoundFormula, ConfidenceInterval, MeanCi, Term, is_mean_ci, lower_terms, upper_terms,
};
use crate::sample::{ascending, by_key, distinct, lemma_distinct_ends, lemma_distinct_strictly_ascending, lemma_sort_rearranges};
use crate::support::{within_support, lemma_within_support_sorted, lemma_violation_iff_outside};

verus! {

/// Whether `w` gives every endpoint a probability, in parts of `unit`: zero
/// to `Zero`, all of `unit` to `One`, and something between to each quantile.
pub open spec fn weights_valid(w: spec_fn(Endpoint) -> int, unit: int) -> bool {
    &&& unit > 0
    &&& w(Endpoint::Zero) == 0
    &&& w(Endpoint::One) == unit
    &&& forall|e: Endpoint| 0 <= #[trigger] w(e) <= unit
}

/// Whether the lower end of each pointwise bound is at most its upper end:
/// with `a` observations at or below a threshold and `b` above it, the
/// lower-tail quantile of Beta(a, b + 1) is at most the upper-tail quantile
/// of Beta(a + 1, b).
pub open spec fn weights_coherent(w: spec_fn(Endpoint) -> int) -> bool {
    forall|a: usize, c: usize|
        1 <= a < usize::MAX && 2 <= c ==> #[trigger] w(
            Endpoint::Quantile { a: a, b: c, tail: Tail::Lower },
        ) <= w(Endpoint::Quantile { a: (a + 1) as usize, b: (c - 1) as usize, tail: Tail::Upper })
}

/// Whether `narrow` stands to `wide` as the quantiles at a larger
/// significance level stand to those at a smaller one: no lower-tail
/// quantile of `wide` exceeds that of `narrow`, and no upper-tail quantile of
/// `wide` falls short of that of `narrow`.
pub open spec fn weights_nested(
    wide: spec_fn(Endpoint) -> int,
    narrow: spec_fn(Endpoint) -> int,
) -> bool {
    &&& forall|a: usize, b: usize| #[trigger]
        wide(Endpoint::Quantile { a, b, tail: Tail::Lower }) <= narrow(
            Endpoint::Quantile { a, b, tail: Tail::Lower },
        )
    &&& forall|a: usize, b: usize| #[trigger]
        wide(Endpoint::Quantile { a, b, tail: Tail::Upper }) >= narrow(
            Endpoint::Quantile { a, b, tail: Tail::Upper },
        )
}

/// The exact width of a term, in units of 2^-1074.
pub open spec fn width(t: Term) -> int {
    t.to.value() - t.from.value()
}

/// The sum of the widths.
pub open spec fn total_width(terms: Seq<Term>) -> int
    decreases terms.len(),
{
    if terms.len() == 0 {
        0
    } else {
        total_width(terms.drop_last()) + width(terms.last())
    }
}

/// The sum of the terms, each its width times its weight.
pub open spec fn weighted_sum(terms: Seq<Term>, w: spec_fn(Endpoint) -> int) -> int
    decreases terms.len(),
{
    if terms.len() == 0 {
        0
    } else {
        weighted_sum(terms.drop_last(), w) + width(terms.last()) * w(terms.last().weight)
    }
}

/// The exact value of the formula that starts at `start` and takes away
/// `terms`, times `unit`.
pub open spec fn exact_value(
    start: Number,
    terms: Seq<Term>,
    w: spec_fn(Endpoint) -> int,
    unit: int,
) -> int {
    unit * start.value() - weighted_sum(terms, w)
}

impl BoundFormula {
    /// The exact value of the formula, times `unit`.
    pub open spec fn exact(&self, w: spec_fn(Endpoint) -> int, unit: int) -> int {
        exact_value(self.start, self.terms@, w, unit)
    }
}

proof fn lemma_product_bounds(d: int, p: int, unit: int)
    by (nonlinear_arith)
    requires
        0 <= d,
        0 <= p <= unit,
    ensures
        0 <= d * p <= unit * d,
{
}

proof fn lemma_product_monotone(d: int, p: int, q: int)
    by (nonlinear_arith)
    requires
        0 <= d,
        p <= q,
    ensures
        d * p <= d * q,
{
}

proof fn lemma_distribute(unit: int, x: int, y: int)
    by (nonlinear_arith)
    ensures
        unit * (x + y) == unit * x + unit * y,
        unit * (x - y) == unit * x - unit * y,
{
}

/// A sum of terms of no negative width lies between nothing and the whole
/// width.
pub proof fn lemma_weighted_sum_bounds(terms: Seq<Term>, w: spec_fn(Endpoint) -> int, unit: int)
    requires
        weights_valid(w, unit),
        forall|i: int| 0 <= i < terms.len() ==> width(#[trigger] terms[i]) >= 0,
    ensures
        0 <= weighted_sum(terms, w) <= unit * total_width(terms),
    decreases terms.len(),
{
    if terms.len() > 0 {
        let rest = terms.drop_last();
        assert forall|i: int| 0 <= i < rest.len() implies width(#[trigger] rest[i]) >= 0 by {
            assert(rest[i] == terms[i]);
        }
        lemma_weighted_sum_bounds(rest, w, unit);
        let last = terms.last();
        assert(last == terms[terms.len() - 1]);
        lemma_product_bounds(width(last), w(last.weight), unit);
        lemma_distribute(unit, total_width(rest), width(last));
    } else {
        assert(unit * 0 == 0);
    }
}

/// Heavier weights on the same widths give the larger sum.
pub proof fn lemma_weighted_sum_monotone(
    light: Seq<Term>,
    wl: spec_fn(Endpoint) -> int,
    heavy: Seq<Term>,
    wh: spec_fn(Endpoint) -> int,
)
    requires
        light.len() == heavy.len(),
        forall|i: int|
            0 <= i < light.len() ==> {
                &&& width(#[trigger] light[i]) == width(heavy[i])
                &&& width(light[i]) >= 0
                &&& wl(light[i].weight) <= wh(heavy[i].weight)
            },
    ensures
        weighted_sum(light, wl) <= weighted_sum(heavy, wh),
    decreases light.len(),
{
    if light.len() > 0 {
        let l = light.drop_last();
        let h = heavy.drop_last();
        assert forall|i: int| 0 <= i < l.len() implies {
            &&& width(#[trigger] l[i]) == width(h[i])
            &&& width(l[i]) >= 0
            &&& wl(l[i].weight) <= wh(h[i].weight)
        } by {
            assert(l[i] == light[i]);
            assert(h[i] == heavy[i]);
        }
        lemma_weighted_sum_monotone(l, wl, h, wh);
        let i = light.len() - 1;
        assert(width(light[i]) == width(heavy[i]));
        lemma_product_monotone(width(light[i]), wl(light[i].weight), wh(heavy[i].weight));
    }
}

/// A sum is its first term plus the sum of the others.
pub proof fn lemma_weighted_sum_first(terms: Seq<Term>, w: spec_fn(Endpoint) -> int)
    requires
        terms.len() > 0,
    ensures
        weighted_sum(terms, w) == width(terms.first()) * w(terms.first().weight) + weighted_sum(
            terms.skip(1),
            w,
        ),
    decreases terms.len(),
{
    if terms.len() == 1 {
        assert(terms.drop_last() =~= Seq::empty());
        assert(terms.skip(1) =~= Seq::empty());
        assert(weighted_sum(terms.drop_last(), w) == 0);
    } else {
        let rest = terms.drop_last();
        lemma_weighted_sum_first(rest, w);
        assert(rest.skip(1) =~= terms.skip(1).drop_last());
        assert(rest.first() == terms.first());
        assert(terms.skip(1).last() == terms.last());
    }
}

/// The whole width is the first width plus that of the others.
pub proof fn lemma_total_width_first(terms: Seq<Term>)
    requires
        terms.len() > 0,
    ensures
        total_width(terms) == width(terms.first()) + total_width(terms.skip(1)),
    decreases terms.len(),
{
    if terms.len() == 1 {
        assert(terms.drop_last() =~= Seq::empty());
        assert(terms.skip(1) =~= Seq::empty());
        assert(total_width(terms.drop_last()) == 0);
    } else {
        let rest = terms.drop_last();
        lemma_total_width_first(rest);
        assert(rest.skip(1) =~= terms.skip(1).drop_last());
        assert(rest.first() == terms.first());
        assert(terms.skip(1).last() == terms.last());
    }
}

/// Terms that run from each of `d` to the next span, together, from the
/// first of `d` to the last.
pub proof fn lemma_chain_width(terms: Seq<Term>, d: Seq<Number>)
    requires
        d.len() == terms.len() + 1,
        forall|i: int|
            0 <= i < terms.len() ==> (#[trigger] terms[i]).from == d[i] && terms[i].to == d[i + 1],
    ensures
        total_width(terms) == d.last().value() - d.first().value(),
    decreases terms.len(),
{
    if terms.len() > 0 {
        let rest = terms.drop_last();
        let e = d.drop_last();
        assert forall|i: int| 0 <= i < rest.len() implies (#[trigger] rest[i]).from == e[i]
            && rest[i].to == e[i + 1] by {
            assert(rest[i] == terms[i]);
        }
        lemma_chain_width(rest, e);
        let i = terms.len() - 1;
        assert(terms.last() == terms[i]);
        assert(e.last() == d[i]);
        assert(e.first() == d.first());
    }
}

/// The shape of the two formulas for the ascending observations `s` that
/// lie within the support: no term has a negative width, and the widths of
/// each formula add up to the way from the support's end to the other end of
/// the sample.
pub proof fn lemma_formula_widths(s: Seq<Number>, min_support: Number, max_support: Number)
    requires
        ascending(s),
        s.len() > 0,
        within_support(s, min_support, max_support),
    ensures
        forall|i: int|
            0 <= i < lower_terms(s, min_support).len() ==> width(
                #[trigger] lower_terms(s, min_support)[i],
            ) >= 0,
        forall|i: int|
            0 <= i < upper_terms(s, max_support).len() ==> width(
                #[trigger] upper_terms(s, max_support)[i],
            ) >= 0,
        total_width(lower_terms(s, min_support)) == s.last().value() - min_support.value(),
        total_width(upper_terms(s, max_support)) == max_support.value() - s.first().value(),
{
    let d = distinct(s);
    let lt = lower_terms(s, min_support);
    let ut = upper_terms(s, max_support);
    lemma_distinct_ends(s);
    lemma_distinct_strictly_ascending(s);
    assert(s.first() == s[0]);
    assert(s.last() == s[s.len() - 1]);
    assert forall|i: int| 0 <= i < lt.len() implies width(#[trigger] lt[i]) >= 0 by {
        if i > 0 {
            assert(d[i - 1].value() < d[i].value());
        }
    }
    assert forall|i: int| 0 <= i < ut.len() implies width(#[trigger] ut[i]) >= 0 by {
        if i > 0 {
            assert(d[i - 1].value() < d[i].value());
        }
    }
    lemma_total_width_first(lt);
    lemma_total_width_first(ut);
    lemma_chain_width(lt.skip(1), d);
    lemma_chain_width(ut.skip(1), d);
}

/// In exact arithmetic the lower end lies between the support's minimum and
/// the greatest observation, and the upper end between the least observation
/// and the support's maximum, whatever probabilities the quantiles are.
pub proof fn lemma_ends_bracket_sample(
    s: Seq<Number>,
    min_support: Number,
    max_support: Number,
    w: spec_fn(Endpoint) -> int,
    unit: int,
)
    requires
        ascending(s),
        s.len() > 0,
        within_support(s, min_support, max_support),
        weights_valid(w, unit),
    ensures
        unit * min_support.value() <= exact_value(s.last(), lower_terms(s, min_support), w, unit)
            <= unit * s.last().value(),
        unit * s.first().value() <= exact_value(
            max_support,
            upper_terms(s, max_support),
            w,
            unit,
        ) <= unit * max_support.value(),
{
    lemma_formula_widths(s, min_support, max_support);
    lemma_weighted_sum_bounds(lower_terms(s, min_support), w, unit);
    lemma_weighted_sum_bounds(upper_terms(s, max_support), w, unit);
    lemma_distribute(unit, s.last().value(), min_support.value());
    lemma_distribute(unit, max_support.value(), s.first().value());
}

/// In exact arithmetic the lower end is at most the upper end, where each
/// pointwise bound has its lower end at most its upper end.
pub proof fn lemma_ends_in_order(
    s: Seq<Number>,
    min_support: Number,
    max_support: Number,
    w: spec_fn(Endpoint) -> int,
    unit: int,
)
    requires
        ascending(s),
        0 < s.len() <= usize::MAX,
        within_support(s, min_support, max_support),
        weights_valid(w, unit),
        weights_coherent(w),
    ensures
        exact_value(s.last(), lower_terms(s, min_support), w, unit) <= exact_value(
            max_support,
            upper_terms(s, max_support),
            w,
            unit,
        ),
{
    let d = distinct(s);
    let lt = lower_terms(s, min_support);
    let ut = upper_terms(s, max_support);
    let n = s.len();
    lemma_formula_widths(s, min_support, max_support);
    lemma_distinct_ends(s);
    lemma_distinct_strictly_ascending(s);
    lemma_weighted_sum_first(lt, w);
    lemma_weighted_sum_first(ut, w);
    let li = lt.skip(1);
    let ui = ut.skip(1);
    assert forall|i: int| 0 <= i < ui.len() implies {
        &&& width(#[trigger] ui[i]) == width(li[i])
        &&& width(ui[i]) >= 0
        &&& w(ui[i].weight) <= w(li[i].weight)
    } by {
        assert(ui[i] == ut[i + 1]);
        assert(li[i] == lt[i + 1]);
        assert(width(ut[i + 1]) >= 0);
        let x = d[i];
        assert(d[0].value() <= x.value()) by {
            if i > 0 {
                assert(d[0].value() < d[i].value());
            }
        }
        assert(x.value() < d[d.len() - 1].value());
        lemma_count_range(s, x);
        let k = crate::sample::count_at_most(s, x);
        let a = k as usize;
        let c = (n - k + 1) as usize;
        assert(ui[i].weight == Endpoint::Quantile { a: a, b: c, tail: Tail::Lower });
        assert(li[i].weight == Endpoint::Quantile {
            a: (a + 1) as usize,
            b: (c - 1) as usize,
            tail: Tail::Upper,
        });
    }
    lemma_weighted_sum_monotone(ui, w, li, w);
    // The first terms: nothing is taken from the lower end that is negative,
    // and from the upper end at most the whole stretch above the sample.
    lemma_product_bounds(width(lt[0]), w(lt[0].weight), unit);
    lemma_product_bounds(width(ut[0]), w(ut[0].weight), unit);
    lemma_distribute(unit, max_support.value(), s.last().value());
}

/// In exact arithmetic, quantiles that lie further out give the wider
/// interval.
pub proof fn lemma_ends_nested(
    s: Seq<Number>,
    min_support: Number,
    max_support: Number,
    wide: spec_fn(Endpoint) -> int,
    narrow: spec_fn(Endpoint) -> int,
    unit: int,
)
    requires
        ascending(s),
        s.len() > 0,
        within_support(s, min_support, max_support),
        weights_valid(wide, unit),
        weights_valid(narrow, unit),
        weights_nested(wide, narrow),
    ensures
        exact_value(s.last(), lower_terms(s, min_support), wide, unit) <= exact_value(
            s.last(),
            lower_terms(s, min_support),
            narrow,
            unit,
        ),
        exact_value(max_support, upper_terms(s, max_support), narrow, unit) <= exact_value(
            max_support,
            upper_terms(s, max_support),
            wide,
            unit,
        ),
{
    let lt = lower_terms(s, min_support);
    let ut = upper_terms(s, max_support);
    lemma_formula_widths(s, min_support, max_support);
    assert forall|i: int| 0 <= i < lt.len() implies narrow((#[trigger] lt[i]).weight) <= wide(
        lt[i].weight,
    ) by {
        match lt[i].weight {
            Endpoint::Quantile { a, b, tail } => {
                assert(tail == Tail::Upper);
                assert(wide(Endpoint::Quantile { a, b, tail: Tail::Upper }) >= narrow(
                    Endpoint::Quantile { a, b, tail: Tail::Upper },
                ));
            },
            _ => {},
        }
    }
    assert forall|i: int| 0 <= i < ut.len() implies wide((#[trigger] ut[i]).weight) <= narrow(
        ut[i].weight,
    ) by {
        match ut[i].weight {
            Endpoint::Quantile { a, b, tail } => {
                assert(tail == Tail::Lower);
                assert(wide(Endpoint::Quantile { a, b, tail: Tail::Lower }) <= narrow(
                    Endpoint::Quantile { a, b, tail: Tail::Lower },
                ));
            },
            _ => {},
        }
    }
    lemma_weighted_sum_monotone(lt, narrow, lt, wide);
    lemma_weighted_sum_monotone(ut, wide, ut, narrow);
}

/// No formula asks for a quantile of a degenerate beta distribution: with
/// `n` observations, both parameters of every quantile are at least one and
/// add up to `n + 1`.
pub proof fn theorem_quantiles_proper(
    ratings: Seq<Number>,
    alpha: Number,
    min_support: Number,
    max_support: Number,
    r: Result<MeanCi, MeanCiError>,
)
    requires
        is_mean_ci(r, ratings, alpha, min_support, max_support),
    ensures
        r matches Ok(MeanCi::Formulas(f)) ==> {
            &&& forall|i: int|
                0 <= i < f.lower_bound.terms@.len() ==> (#[trigger] f.lower_bound.terms@[i]).weight.proper(
                    ratings.len(),
                )
            &&& forall|i: int|
                0 <= i < f.upper_bound.terms@.len() ==> (#[trigger] f.upper_bound.terms@[i]).weight.proper(
                    ratings.len(),
                )
        },
{
    let s = ratings.sort_by(by_key());
    lemma_sort_rearranges(ratings);
    match r {
        Ok(MeanCi::Formulas(f)) => {
            let d = distinct(s);
            let lt = lower_terms(s, min_support);
            let ut = upper_terms(s, max_support);
            assert forall|i: int| 0 <= i < lt.len() implies (#[trigger] lt[i]).weight.proper(
                s.len(),
            ) by {
                if i == 0 {
                    lemma_endpoints_proper(s, min_support);
                } else {
                    lemma_endpoints_proper(s, d[i - 1]);
                }
            }
            assert forall|i: int| 0 <= i < ut.len() implies (#[trigger] ut[i]).weight.proper(
                s.len(),
            ) by {
                if i == 0 {
                    lemma_endpoints_proper(s, s.last());
                } else {
                    lemma_endpoints_proper(s, d[i - 1]);
                }
            }
        },
        _ => {},
    }
}

/// What [`crate::interval::get_mean_ci`] gives is fixed by its arguments:
/// two results for the same arguments are the same error, the same interval,
/// or formulas over the same sample with the same start and terms.
pub proof fn theorem_result_determined(
    ratings: Seq<Number>,
    alpha: Number,
    min_support: Number,
    max_support: Number,
    r1: Result<MeanCi, MeanCiError>,
    r2: Result<MeanCi, MeanCiError>,
)
    requires
        is_mean_ci(r1, ratings, alpha, min_support, max_support),
        is_mean_ci(r2, ratings, alpha, min_support, max_support),
    ensures
        match (r1, r2) {
            (Err(e1), Err(e2)) => e1 == e2,
            (Ok(MeanCi::Interval(c1)), Ok(MeanCi::Interval(c2))) => c1 == c2,
            (Ok(MeanCi::Formulas(f1)), Ok(MeanCi::Formulas(f2))) => {
                &&& f1.sample@ == f2.sample@
                &&& f1.min_support == f2.min_support
                &&& f1.max_support == f2.max_support
                &&& f1.lower_bound.start == f2.lower_bound.start
                &&& f1.lower_bound.terms@ == f2.lower_bound.terms@
                &&& f1.upper_bound.start == f2.upper_bound.start
                &&& f1.upper_bound.terms@ == f2.upper_bound.terms@
            },
            _ => false,
        },
{
}

/// The interval lies within the support. For a sample that is not empty
/// this is said of the exact values of the two formulas, and holds whatever
/// probabilities the quantiles are, as long as each pointwise bound has its
/// lower end at most its upper end. Without observations the interval is
/// the support itself, which is an interval where its minimum is at most its
/// maximum.
pub proof fn theorem_interval_within_support(
    ratings: Seq<Number>,
    alpha: Number,
    min_support: Number,
    max_support: Number,
    r: Result<MeanCi, MeanCiError>,
    w: spec_fn(Endpoint) -> int,
    unit: int,
)
    requires
        is_mean_ci(r, ratings, alpha, min_support, max_support),
        min_support.value() <= max_support.value(),
        weights_valid(w, unit),
        weights_coherent(w),
    ensures
        match r {
            Ok(MeanCi::Interval(ci)) => min_support.value() <= ci.lower_bound.value()
                <= ci.upper_bound.value() <= max_support.value(),
            Ok(MeanCi::Formulas(f)) => unit * min_support.value() <= f.lower_bound.exact(w, unit)
                <= f.upper_bound.exact(w, unit) <= unit * max_support.value(),
            Err(_) => true,
        },
{
    let s = ratings.sort_by(by_key());
    lemma_sort_rearranges(ratings);
    lemma_violation_iff_outside(s, min_support, max_support);
    match r {
        Ok(MeanCi::Formulas(f)) => {
            lemma_ends_bracket_sample(s, min_support, max_support, w, unit);
            lemma_ends_in_order(s, min_support, max_support, w, unit);
        },
        _ => {},
    }
}

/// Where every observation has the value of `c`, the interval holds `c`:
/// in exact arithmetic the lower end is at most the greatest observation and
/// the upper end at least the least, whatever probabilities the quantiles
/// are.
pub proof fn theorem_constant_sample(
    ratings: Seq<Number>,
    alpha: Number,
    min_support: Number,
    max_support: Number,
    c: Number,
    r: Result<MeanCi, MeanCiError>,
    w: spec_fn(Endpoint) -> int,
    unit: int,
)
    requires
        is_mean_ci(r, ratings, alpha, min_support, max_support),
        alpha.in_open_unit(),
        ratings.len() > 0,
        forall|i: int| 0 <= i < ratings.len() ==> (#[trigger] ratings[i]).value() == c.value(),
        min_support.value() <= c.value() <= max_support.value(),
        weights_valid(w, unit),
    ensures
        r matches Ok(MeanCi::Formulas(f)) && f.lower_bound.exact(w, unit) <= unit * c.value()
            <= f.upper_bound.exact(w, unit),
{
    let s = ratings.sort_by(by_key());
    lemma_sort_rearranges(ratings);
    lemma_within_support_sorted(ratings, min_support, max_support);
    lemma_violation_iff_outside(s, min_support, max_support);
    assert(s.contains(s.first()));
    assert(s.contains(s.last()));
    assert(ratings.contains(s.first()));
    assert(ratings.contains(s.last()));
    lemma_ends_bracket_sample(s, min_support, max_support, w, unit);
}

/// The interval at a smaller significance level holds the interval at a
/// larger one. The formulas and the sample, and with it the mean, do not
/// depend on the level, only the quantiles do; in exact arithmetic,
/// quantiles that lie further out (`wide`, at the smaller level) give an
/// interval that holds the one from quantiles further in (`narrow`, at the
/// larger level).
pub proof fn theorem_intervals_nested(
    ratings: Seq<Number>,
    alpha1: Number,
    alpha2: Number,
    min_support: Number,
    max_support: Number,
    r1: Result<MeanCi, MeanCiError>,
    r2: Result<MeanCi, MeanCiError>,
    wide: spec_fn(Endpoint) -> int,
    narrow: spec_fn(Endpoint) -> int,
    unit: int,
)
    requires
        is_mean_ci(r1, ratings, alpha1, min_support, max_support),
        is_mean_ci(r2, ratings, alpha2, min_support, max_support),
        alpha1.in_open_unit(),
        alpha2.in_open_unit(),
        alpha1.value() < alpha2.value(),
        weights_valid(wide, unit),
        weights_valid(narrow, unit),
        weights_nested(wide, narrow),
    ensures
        match (r1, r2) {
            (Err(e1), Err(e2)) => e1 == e2,
            (Ok(MeanCi::Interval(c1)), Ok(MeanCi::Interval(c2))) => c1 == c2,
            (Ok(MeanCi::Formulas(f1)), Ok(MeanCi::Formulas(f2))) => {
                &&& f1.sample@ == f2.sample@
                &&& f1.lower_bound.exact(wide, unit) <= f2.lower_bound.exact(narrow, unit)
                &&& f2.upper_bound.exact(narrow, unit) <= f1.upper_bound.exact(wide, unit)
            },
            _ => false,
        },
{
    let s = ratings.sort_by(by_key());
    lemma_sort_rearranges(ratings);
    lemma_violation_iff_outside(s, min_support, max_support);
    match (r1, r2) {
        (Ok(MeanCi::Formulas(f1)), Ok(MeanCi::Formulas(f2))) => {
            lemma_ends_nested(s, min_support, max_support, wide, narrow, unit);
        },
        _ => {},
    }
}

/// What holds of every record that [`crate::interval::MeanFormulas::conclude`] makes, of
/// whatever numbers: it lies within the support with its ends in order, it
/// holds its mean, and where every observation has the value of `c`, it
/// holds `c`.
pub proof fn theorem_concluded_record(
    ratings: Seq<Number>,
    alpha: Number,
    min_support: Number,
    max_support: Number,
    r: Result<MeanCi, MeanCiError>,
    ci: ConfidenceInterval,
    c: Number,
)
    requires
        is_mean_ci(r, ratings, alpha, min_support, max_support),
        r matches Ok(MeanCi::Formulas(f)) && f.admits(ci),
    ensures
        min_support.value() <= ci.lower_bound.value() <= ci.upper_bound.value()
            <= max_support.value(),
        ci.mean matches Some(m) ==> ci.lower_bound.value() <= m.value() <= ci.upper_bound.value(),
        (forall|i: int| 0 <= i < ratings.len() ==> (#[trigger] ratings[i]).value() == c.value())
            ==> ci.lower_bound.value() <= c.value() <= ci.upper_bound.value(),
{
    let s = ratings.sort_by(by_key());
    lemma_sort_rearranges(ratings);
    if forall|i: int| 0 <= i < ratings.len() ==> (#[trigger] ratings[i]).value() == c.value() {
        assert(s.contains(s.first()));
        assert(s.contains(s.last()));
        assert(ratings.contains(s.first()));
        assert(ratings.contains(s.last()));
    }
}

/// The interval for a single observation `x` above the support's minimum:
/// the lower end is `x` less the stretch below it times the upper-tail
/// quantile of Beta(1, 1), the upper end is the support's maximum less the
/// stretch above `x` times the lower-tail quantile of Beta(1, 1). The
/// quantiles of Beta(1, 1) are the probabilities themselves, so that the
/// ends move out towards the support's ends as the level goes to zero.
pub proof fn theorem_single_observation(
    ratings: Seq<Number>,
    alpha: Number,
    min_support: Number,
    max_support: Number,
    r: Result<MeanCi, MeanCiError>,
    w: spec_fn(Endpoint) -> int,
    unit: int,
)
    requires
        is_mean_ci(r, ratings, alpha, min_support, max_support),
        r matches Ok(MeanCi::Formulas(_)),
        ratings.len() == 1,
        min_support.value() < ratings[0].value(),
    ensures
        r matches Ok(MeanCi::Formulas(f)) && {
            let x = ratings[0];
            let above = Endpoint::Quantile { a: 1, b: 1, tail: Tail::Upper };
            let below = Endpoint::Quantile { a: 1, b: 1, tail: Tail::Lower };
            &&& f.lower_bound.start == x
            &&& f.lower_bound.terms@ == seq![Term { from: min_support, to: x, weight: above }]
            &&& f.upper_bound.start == max_support
            &&& f.upper_bound.terms@ == seq![Term { from: x, to: max_support, weight: below }]
            &&& f.lower_bound.exact(w, unit) == unit * x.value() - (x.value() - min_support.value())
                * w(above)
            &&& f.upper_bound.exact(w, unit) == unit * max_support.value() - (max_support.value()
                - x.value()) * w(below)
        },
{
    let s = ratings.sort_by(by_key());
    let x = ratings[0];
    lemma_sort_rearranges(ratings);
    assert(ratings.contains(x));
    assert(s.contains(x));
    assert(s[0] == x);
    assert(s =~= seq![x]);
    assert(s.first() == x && s.last() == x);
    let d = distinct(s);
    lemma_distinct_ends(s);
    assert(d.len() == 1);
    lemma_count_range(s, min_support);
    lemma_count_range(s, x);
    let lt = lower_terms(s, min_support);
    let ut = upper_terms(s, max_support);
    assert(lt =~= seq![lt[0]]);
    assert(ut =~= seq![ut[0]]);
    assert(lt.drop_last() =~= Seq::empty());
    assert(ut.drop_last() =~= Seq::empty());
    assert(weighted_sum(lt.drop_last(), w) == 0);
    assert(weighted_sum(ut.drop_last(), w) == 0);
}

} // verus!
