//! Pointwise confidence bounds on the distribution function.
//!
//! With `k` of `n` observations at or below a threshold, the exact
//! (Clopper-Pearson) bounds on the distribution function there are quantiles
//! of beta distributions: below, that of Beta(k, n - k + 1) at half the
//! significance level; above, that of Beta(k + 1, n - k) at one minus half
//! the significance level. Outside the observed range the function is known
//! to be zero or one, and no quantile is asked for. This module decides which
//! of these holds; it names the quantile and leaves its evaluation to the
//! caller.
use vstd::prelude::*;
use crate::error::MeanCiError;
use crate::number::Number;
use crate::sample::{Sample, ascending, count_at_most, lemma_count_bounded, lemma_sorted_ascending};

verus! {

/// The probability at which a quantile is taken, for significance level
/// alpha.
#[derive(Clone, Copy, Debug, PartialEq, Eq, Structural)]
pub enum Tail {
    /// Half of alpha.
    Lower,
    /// One minus half of alpha.
    Upper,
}

/// One end of a bound on the distribution function.
#[derive(Clone, Copy, Debug, PartialEq, Eq, Structural)]
pub enum Endpoint {
    /// Exactly zero: the threshold lies below every observation.
    Zero,
    /// Exactly one: the threshold lies at or above every observation.
    One,
    /// The quantile of the beta distribution with parameters `a` and `b` at
    /// the probability that `tail` names.
    Quantile { a: usize, b: usize, tail: Tail },
}

impl Endpoint {
    /// Whether a quantile, where one is asked for, is that of a proper beta
    /// distribution for a sample of `n`: both parameters are at least one,
    /// and they add up to `n + 1`.
    pub open spec fn proper(self, n: nat) -> bool {
        match self {
            Endpoint::Quantile { a, b, tail } => a >= 1 && b >= 1 && a + b == n + 1,
            _ => true,
        }
    }
}

/// The two ends of the bound at one threshold.
#[derive(Clone, Copy, Debug, PartialEq, Eq, Structural)]
pub struct CdfBound {
    pub lower: Endpoint,
    pub upper: Endpoint,
}

/// The lower end at threshold `x`, for the ascending observations `s`.
pub open spec fn lower_endpoint(s: Seq<Number>, x: Number) -> Endpoint {
    let k = count_at_most(s, x);
    if x.value() < s.first().value() {
        Endpoint::Zero
    } else {
        Endpoint::Quantile { a: k as usize, b: (s.len() - k + 1) as usize, tail: Tail::Lower }
    }
}

/// The upper end at threshold `x`, for the ascending observations `s`.
pub open spec fn upper_endpoint(s: Seq<Number>, x: Number) -> Endpoint {
    let k = count_at_most(s, x);
    if x.value() >= s.last().value() {
        Endpoint::One
    } else {
        Endpoint::Quantile { a: (k + 1) as usize, b: (s.len() - k) as usize, tail: Tail::Upper }
    }
}

/// At a threshold not below the least observation at least one observation
/// is counted; at one below the greatest, not all of them.
pub proof fn lemma_count_range(s: Seq<Number>, x: Number)
    requires
        ascending(s),
        s.len() > 0,
    ensures
        count_at_most(s, x) <= s.len(),
        x.value() >= s.first().value() ==> count_at_most(s, x) >= 1,
        x.value() < s.last().value() ==> count_at_most(s, x) < s.len(),
        x.value() < s.first().value() ==> count_at_most(s, x) == 0,
        x.value() >= s.last().value() ==> count_at_most(s, x) == s.len(),
    decreases s.len(),
{
    lemma_count_bounded(s, x);
    let rest = s.drop_last();
    if rest.len() > 0 {
        lemma_count_range(rest, x);
        assert(rest.first() == s.first());
        assert(rest.last() == s[s.len() - 2]);
        assert(s[s.len() - 2].value() <= s[s.len() - 1].value());
        assert(s[0].value() <= s[s.len() - 1].value());
    } else {
        assert(s.first() == s.last());
        assert(count_at_most(rest, x) == 0);
    }
}

/// The quantiles that bound the distribution function are those of proper
/// beta distributions.
pub proof fn lemma_endpoints_proper(s: Seq<Number>, x: Number)
    requires
        ascending(s),
        0 < s.len() <= usize::MAX,
    ensures
        lower_endpoint(s, x).proper(s.len()),
        upper_endpoint(s, x).proper(s.len()),
{
    lemma_count_range(s, x);
}

/// The bound on the distribution function at `threshold`.
pub fn cdf_bound(sample: &Sample, threshold: Number) -> (r: CdfBound)
    requires
        sample.wf(),
        sample@.len() > 0,
    ensures
        r.lower == lower_endpoint(sample@, threshold),
        r.upper == upper_endpoint(sample@, threshold),
        r.lower.proper(sample@.len()),
        r.upper.proper(sample@.len()),
{
    let n: usize = sample.len();
    let k: usize = sample.count_at_most(threshold);
    proof {
        lemma_sorted_ascending(sample@);
        lemma_count_range(sample@, threshold);
    }
    let lower = if threshold.lt(&sample.minimum()) {
        Endpoint::Zero
    } else {
        Endpoint::Quantile { a: k, b: n - k + 1, tail: Tail::Lower }
    };
    let upper = if threshold.lt(&sample.maximum()) {
        Endpoint::Quantile { a: k + 1, b: n - k, tail: Tail::Upper }
    } else {
        Endpoint::One
    };
    CdfBound { lower, upper }
}

/// Accepts as a probability a value between zero and one, ends included.
pub fn check_probability(x: Number) -> (r: Result<Number, MeanCiError>)
    ensures
        x.in_closed_unit() ==> r == Ok::<Number, MeanCiError>(x),
        !x.in_closed_unit() ==> r == Err::<Number, MeanCiError>(MeanCiError::Numerical),
{
    if x.is_in_closed_unit() {
        Ok(x)
    } else {
        Err(MeanCiError::Numerical)
    }
}

} // verus!
