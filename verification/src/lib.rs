//! Distribution-free confidence intervals for the mean of a bounded quantity,
//! and what goes with them for charts of rated albums.
//!
//! The crate holds the exact, whole-number side of the work. It orders the
//! observations, holds them against the declared support, and lays out, term
//! by term, the formula whose value is each end of the interval. Numbers are
//! carried as IEEE 754 binary64 bit patterns, so that every comparison made
//! here is one on integers with a stated meaning. The rounded arithmetic
//! that turns a formula into a number, and the quantiles of the beta
//! distribution that it needs, are the caller's.
//!
//! - [`number`]: numbers as bit patterns, their exact values and their order.
//! - [`sample`]: sorting, distinct values, counting.
//! - [`support`]: the check of a sample against the support.
//! - [`cdf`]: pointwise bounds on the distribution function.
//! - [`interval`]: the interval for the mean, as formulas.
//! - [`exact`], [`empirical`]: what holds of the formulas in exact
//!   arithmetic.
//! - [`ranking`]: ranking a chart by the lower ends of its intervals.
//! - [`fields`], [`links`], [`page`], [`chart`]: reading numbers, links and
//!   pages.
//! - [`decimal`]: whole numbers written out.
pub mod number;
pub mod sample;
pub mod error;
pub mod support;
pub mod cdf;
pub mod interval;
pub mod exact;
pub mod empirical;
pub mod ranking;
pub mod fields;
pub mod decimal;
pub mod links;
pub mod page;
pub mod chart;
