//! The declared support, and the check of a sample against it.
use vstd::prelude::*;
use crate::error::{MeanCiError, SupportSide};
use crate::number::Number;
use crate::sample::{Sample, by_key, ascending, lemma_sort_rearranges};

verus! {

/// What is wrong with the ascending observations `s` for the support from
/// `min_support` to `max_support`, if anything: the least observation where
/// it lies below the support, else the greatest where it lies above.
pub open spec fn support_violation(
    s: Seq<Number>,
    min_support: Number,
    max_support: Number,
) -> Option<MeanCiError> {
    if s.len() == 0 {
        None
    } else if s.first().value() < min_support.value() {
        Some(
            MeanCiError::OutOfSupport {
                side: SupportSide::Minimum,
                bound: min_support,
                value: s.first(),
            },
        )
    } else if s.last().value() > max_support.value() {
        Some(
            MeanCiError::OutOfSupport {
                side: SupportSide::Maximum,
                bound: max_support,
                value: s.last(),
            },
        )
    } else {
        None
    }
}

/// Whether every element lies in the support, ends included.
pub open spec fn within_support(s: Seq<Number>, min_support: Number, max_support: Number) -> bool {
    forall|i: int|
        0 <= i < s.len() ==> min_support.value() <= (#[trigger] s[i]).value() <= max_support.value()
}

/// Of an ascending sequence, a violation is reported exactly when some
/// element lies outside the support.
pub proof fn lemma_violation_iff_outside(s: Seq<Number>, min_support: Number, max_support: Number)
    requires
        ascending(s),
    ensures
        support_violation(s, min_support, max_support) is None <==> within_support(
            s,
            min_support,
            max_support,
        ),
{
    if s.len() > 0 {
        if support_violation(s, min_support, max_support) is None {
            assert forall|i: int| 0 <= i < s.len() implies min_support.value() <= (
            #[trigger] s[i]).value() <= max_support.value() by {
                assert(s[0].value() <= s[i].value());
                assert(s[i].value() <= s[s.len() - 1].value());
            }
        } else {
            assert(s[0] == s.first());
            assert(s[s.len() - 1] == s.last());
        }
    }
}

/// Rearranging a sequence does not change whether it lies in the support.
pub proof fn lemma_within_support_sorted(s: Seq<Number>, min_support: Number, max_support: Number)
    ensures
        within_support(s, min_support, max_support) <==> within_support(
            s.sort_by(by_key()),
            min_support,
            max_support,
        ),
{
    let t = s.sort_by(by_key());
    lemma_sort_rearranges(s);
    if within_support(s, min_support, max_support) {
        assert forall|i: int| 0 <= i < t.len() implies min_support.value() <= (#[trigger] t[i]).value()
            <= max_support.value() by {
            assert(t.contains(t[i]));
            assert(s.contains(t[i]));
            let j = choose|j: int| 0 <= j < s.len() && s[j] == t[i];
            assert(min_support.value() <= s[j].value() <= max_support.value());
        }
    }
    if within_support(t, min_support, max_support) {
        assert forall|i: int| 0 <= i < s.len() implies min_support.value() <= (#[trigger] s[i]).value()
            <= max_support.value() by {
            assert(s.contains(s[i]));
            assert(t.contains(s[i]));
            let j = choose|j: int| 0 <= j < t.len() && t[j] == s[i];
            assert(min_support.value() <= t[j].value() <= max_support.value());
        }
    }
}

/// Checks the sample against the support. An empty sample passes.
pub fn validate(sample: &Sample, min_support: Number, max_support: Number) -> (r: Result<
    (),
    MeanCiError,
>)
    ensures
        match r {
            Ok(_) => support_violation(sample@, min_support, max_support) is None,
            Err(e) => support_violation(sample@, min_support, max_support) == Some(e),
        },
{
    if sample.is_empty() {
        return Ok(());
    }
    let least = sample.minimum();
    if least.lt(&min_support) {
        return Err(
            MeanCiError::OutOfSupport {
                side: SupportSide::Minimum,
                bound: min_support,
                value: least,
            },
        );
    }
    let greatest = sample.maximum();
    if max_support.lt(&greatest) {
        return Err(
            MeanCiError::OutOfSupport {
                side: SupportSide::Maximum,
                bound: max_support,
                value: greatest,
            },
        );
    }
    Ok(())
}

} // verus!
