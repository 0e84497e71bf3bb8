//! The confidence interval for the mean.
//!
//! For a quantity that takes values between `min_support` and `max_support`,
//! the mean is `max_support` minus the integral of the distribution function
//! over the support. Replacing the distribution function on each stretch
//! between neighbouring observed values by a bound on it bounds the mean: the
//! upper bounds on the distribution function give the lower end of the
//! interval, the lower bounds its upper end.
//!
//! Each end is laid out here as a formula: a starting value, and terms to
//! take away from it in order, each the width of a stretch times a bound on
//! the distribution function there. This module fixes the formulas; the
//! rounded arithmetic that evaluates them is the caller's.
use vstd::prelude::*;
use crate::cdf::{Endpoint, CdfBound, cdf_bound, lower_endpoint, upper_endpoint};
use crate::error::MeanCiError;
use crate::number::Number;
use crate::sample::{Sample, by_key, distinct, lemma_distinct_ends, lemma_sort_rearranges};
use crate::support::{support_violation, validate, within_support, lemma_within_support_sorted, lemma_violation_iff_outside};

verus! {

/// One term of a formula: the width from `from` to `to`, times `weight`.
#[derive(Clone, Copy, Debug, PartialEq, Eq, Structural)]
pub struct Term {
    pub from: Number,
    pub to: Number,
    pub weight: Endpoint,
}

/// One end of the interval as a formula: `start`, less each of `terms` in
/// turn.
#[derive(Debug)]
pub struct BoundFormula {
    pub start: Number,
    pub terms: Vec<Term>,
}

/// A confidence interval for the mean.
#[derive(Clone, Copy, Debug, PartialEq, Eq, Structural)]
pub struct ConfidenceInterval {
    /// The number of observations.
    pub sample_count: usize,
    /// The mean of the observations, where there is one.
    pub mean: Option<Number>,
    pub lower_bound: Number,
    pub upper_bound: Number,
}

impl ConfidenceInterval {
    /// Whether the record is one of an interval for the support from
    /// `min_support` to `max_support`: its ends are in order and within the
    /// support, and it has a mean, which lies between its ends, exactly
    /// where there are observations.
    pub open spec fn consistent(self, min_support: Number, max_support: Number) -> bool {
        &&& min_support.value() <= self.lower_bound.value()
        &&& self.lower_bound.value() <= self.upper_bound.value()
        &&& self.upper_bound.value() <= max_support.value()
        &&& self.mean is Some <==> self.sample_count >= 1
        &&& self.mean matches Some(m) ==> self.lower_bound.value() <= m.value()
            <= self.upper_bound.value()
    }

    /// Whether the record is one of an interval for the given support.
    pub fn is_consistent(&self, min_support: Number, max_support: Number) -> (r: bool)
        ensures
            r == self.consistent(min_support, max_support),
    {
        let ends = min_support.le(&self.lower_bound) && self.lower_bound.le(&self.upper_bound)
            && self.upper_bound.le(&max_support);
        match self.mean {
            Some(m) => ends && self.sample_count >= 1 && self.lower_bound.le(&m) && m.le(
                &self.upper_bound,
            ),
            None => ends && self.sample_count == 0,
        }
    }
}

/// The interval for a sample that is not empty, with its arithmetic still to
/// be done.
#[derive(Debug)]
pub struct MeanFormulas {
    /// The observations in ascending order. Their sum in this order, divided
    /// by their number, is the mean.
    pub sample: Sample,
    /// The support that the sample was held against.
    pub min_support: Number,
    pub max_support: Number,
    pub lower_bound: BoundFormula,
    pub upper_bound: BoundFormula,
}

impl MeanFormulas {
    /// The record that the three numbers make for this sample.
    pub open spec fn record(
        &self,
        mean: Number,
        lower_bound: Number,
        upper_bound: Number,
    ) -> ConfidenceInterval {
        ConfidenceInterval {
            sample_count: self.sample@.len() as usize,
            mean: Some(mean),
            lower_bound,
            upper_bound,
        }
    }

    /// Whether a record can be that of the interval for this sample: it is
    /// consistent for the support, its lower end is at most the greatest
    /// observation and its upper end at least the least. The exact values of
    /// the formulas are so; rounded ones need not be.
    pub open spec fn admits(&self, ci: ConfidenceInterval) -> bool {
        &&& ci.consistent(self.min_support, self.max_support)
        &&& self.sample@.len() > 0
        &&& ci.lower_bound.value() <= self.sample@.last().value()
        &&& self.sample@.first().value() <= ci.upper_bound.value()
    }

    /// The record of the interval, from the numbers worked out for the mean
    /// and for the two formulas. No record is made of numbers that the
    /// interval cannot have, as rounding or a false quantile may give them.
    pub fn conclude(&self, mean: Number, lower_bound: Number, upper_bound: Number) -> (r: Result<
        ConfidenceInterval,
        MeanCiError,
    >)
        ensures
            self.admits(self.record(mean, lower_bound, upper_bound)) ==> r == Ok::<
                ConfidenceInterval,
                MeanCiError,
            >(self.record(mean, lower_bound, upper_bound)),
            !self.admits(self.record(mean, lower_bound, upper_bound)) ==> r == Err::<
                ConfidenceInterval,
                MeanCiError,
            >(MeanCiError::Numerical),
            r matches Ok(ci) ==> {
                &&& self.min_support.value() <= ci.lower_bound.value() <= ci.upper_bound.value()
                    <= self.max_support.value()
                &&& ci.lower_bound.value() <= mean.value() <= ci.upper_bound.value()
            },
    {
        let ci = ConfidenceInterval {
            sample_count: self.sample.len(),
            mean: Some(mean),
            lower_bound,
            upper_bound,
        };
        if self.sample.is_empty() || !ci.is_consistent(self.min_support, self.max_support) {
            return Err(MeanCiError::Numerical);
        }
        if self.sample.maximum().lt(&lower_bound) || upper_bound.lt(&self.sample.minimum()) {
            return Err(MeanCiError::Numerical);
        }
        Ok(ci)
    }
}

/// What is known of the interval once the sample has been examined.
#[derive(Debug)]
pub enum MeanCi {
    /// The interval itself: without observations it is the whole support.
    Interval(ConfidenceInterval),
    /// The formulas for the two ends.
    Formulas(MeanFormulas),
}

/// The terms of the lower end, for the ascending observations `s`: first the
/// stretch from `min_support` to the least observation with the upper bound
/// at `min_support`, then each stretch between neighbouring distinct values
/// with the upper bound at the smaller one.
pub open spec fn lower_terms(s: Seq<Number>, min_support: Number) -> Seq<Term> {
    let d = distinct(s);
    Seq::new(
        d.len(),
        |t: int|
            if t == 0 {
                Term { from: min_support, to: s.first(), weight: upper_endpoint(s, min_support) }
            } else {
                Term { from: d[t - 1], to: d[t], weight: upper_endpoint(s, d[t - 1]) }
            },
    )
}

/// The terms of the upper end, for the ascending observations `s`: first the
/// stretch from the greatest observation to `max_support` with the lower
/// bound at the greatest observation, then each stretch between neighbouring
/// distinct values with the lower bound at the smaller one.
pub open spec fn upper_terms(s: Seq<Number>, max_support: Number) -> Seq<Term> {
    let d = distinct(s);
    Seq::new(
        d.len(),
        |t: int|
            if t == 0 {
                Term { from: s.last(), to: max_support, weight: lower_endpoint(s, s.last()) }
            } else {
                Term { from: d[t - 1], to: d[t], weight: lower_endpoint(s, d[t - 1]) }
            },
    )
}

/// The interval for no observations: the whole support, and no mean.
pub open spec fn whole_support(min_support: Number, max_support: Number) -> ConfidenceInterval {
    ConfidenceInterval {
        sample_count: 0,
        mean: None,
        lower_bound: min_support,
        upper_bound: max_support,
    }
}

/// Whether `r` is what [`get_mean_ci`] gives for these arguments.
///
/// The significance level is judged first, then the sample is put in order
/// and, unless it is empty, held against the support.
pub open spec fn is_mean_ci(
    r: Result<MeanCi, MeanCiError>,
    ratings: Seq<Number>,
    alpha: Number,
    min_support: Number,
    max_support: Number,
) -> bool {
    let s = ratings.sort_by(by_key());
    if !alpha.in_open_unit() {
        r matches Err(e) && e == MeanCiError::InvalidAlpha
    } else if ratings.len() == 0 {
        r matches Ok(MeanCi::Interval(ci)) && ci == whole_support(min_support, max_support)
    } else if let Some(violation) = support_violation(s, min_support, max_support) {
        r matches Err(e) && e == violation
    } else {
        &&& r matches Ok(MeanCi::Formulas(f))
        &&& f.sample.wf()
        &&& f.sample@ == s
        &&& f.min_support == min_support
        &&& f.max_support == max_support
        &&& f.lower_bound.start == s.last()
        &&& f.lower_bound.terms@ == lower_terms(s, min_support)
        &&& f.upper_bound.start == max_support
        &&& f.upper_bound.terms@ == upper_terms(s, max_support)
    }
}

/// The confidence interval for the mean of the quantity that `ratings`
/// samples, at significance level `alpha`, where the quantity takes values
/// between `min_support` and `max_support`, the first below the second. The
/// observations may come in any order.
pub fn get_mean_ci(
    ratings: &Vec<Number>,
    alpha: Number,
    min_support: Number,
    max_support: Number,
) -> (r: Result<MeanCi, MeanCiError>)
    requires
        min_support.value() < max_support.value(),
    ensures
        is_mean_ci(r, ratings@, alpha, min_support, max_support),
        r matches Err(MeanCiError::InvalidAlpha) <==> !alpha.in_open_unit(),
        r matches Err(MeanCiError::OutOfSupport { .. }) <==> alpha.in_open_unit() && !within_support(
            ratings@,
            min_support,
            max_support,
        ),
        r matches Ok(MeanCi::Interval(_)) <==> alpha.in_open_unit() && ratings.len() == 0,
        r matches Ok(MeanCi::Formulas(_)) <==> alpha.in_open_unit() && ratings.len() > 0
            && within_support(ratings@, min_support, max_support),
        r matches Ok(MeanCi::Interval(ci)) ==> ci == whole_support(min_support, max_support)
            && ci.consistent(min_support, max_support),
        !(r matches Err(MeanCiError::Numerical)),
{
    proof {
        lemma_within_support_sorted(ratings@, min_support, max_support);
        lemma_sort_rearranges(ratings@);
        lemma_violation_iff_outside(ratings@.sort_by(by_key()), min_support, max_support);
    }
    if !alpha.is_in_open_unit() {
        return Err(MeanCiError::InvalidAlpha);
    }
    let sample = Sample::new(ratings);
    if sample.is_empty() {
        return Ok(
            MeanCi::Interval(
                ConfidenceInterval {
                    sample_count: 0,
                    mean: None,
                    lower_bound: min_support,
                    upper_bound: max_support,
                },
            ),
        );
    }
    match validate(&sample, min_support, max_support) {
        Err(e) => {
            return Err(e);
        },
        Ok(_) => {},
    }
    let least = sample.minimum();
    let greatest = sample.maximum();
    let d = sample.distinct_values();
    proof {
        lemma_distinct_ends(sample@);
    }
    let mut lower: Vec<Term> = Vec::with_capacity(d.len());
    let mut upper: Vec<Term> = Vec::with_capacity(d.len());
    lower.push(Term { from: min_support, to: least, weight: cdf_bound(&sample, min_support).upper });
    upper.push(Term { from: greatest, to: max_support, weight: cdf_bound(&sample, greatest).lower });
    let mut t: usize = 1;
    while t < d.len()
        invariant
            1 <= t <= d.len(),
            sample.wf(),
            sample@.len() > 0,
            d@ == distinct(sample@),
            lower.len() == t,
            upper.len() == t,
            forall|q: int| 0 <= q < t ==> #[trigger] lower[q] == lower_terms(sample@, min_support)[q],
            forall|q: int| 0 <= q < t ==> #[trigger] upper[q] == upper_terms(sample@, max_support)[q],
        decreases d.len() - t,
    {
        let bound: CdfBound = cdf_bound(&sample, d[t - 1]);
        lower.push(Term { from: d[t - 1], to: d[t], weight: bound.upper });
        upper.push(Term { from: d[t - 1], to: d[t], weight: bound.lower });
        t += 1;
    }
    proof {
        assert(lower@ =~= lower_terms(sample@, min_support));
        assert(upper@ =~= upper_terms(sample@, max_support));
    }
    Ok(
        MeanCi::Formulas(
            MeanFormulas {
                sample,
                min_support,
                max_support,
                lower_bound: BoundFormula { start: greatest, terms: lower },
                upper_bound: BoundFormula { start: max_support, terms: upper },
            },
        ),
    )
}

} // verus!
