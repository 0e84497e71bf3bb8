//! Ranking a chart by the lower ends of its intervals.
//!
//! The entries of a chart come in the chart's own order. They are ranked
//! anew by the lower end of each entry's interval, greatest first; entries
//! with the same lower end keep the order they came in. An entry without a
//! mean, that is, without observations, is left out of the new ranking.
use vstd::prelude::*;
use vstd::relations::{sorted_by, total_ordering};
use vstd::seq_lib::{lemma_sorted_unique, to_multiset_build, to_multiset_insert, to_multiset_len};
use vstd::multiset::lemma_multiset_empty_len;
use crate::interval::ConfidenceInterval;

verus! {

/// How an entry moved from its former rank to its new one.
#[derive(Clone, Copy, Debug, PartialEq, Eq, Structural)]
pub enum Movement {
    /// Towards the top, by so many places.
    Up(usize),
    /// Not at all.
    Same,
    /// Towards the bottom, by so many places.
    Down(usize),
}

/// An entry's place in the new ranking. Ranks count from one.
#[derive(Clone, Copy, Debug, PartialEq, Eq, Structural)]
pub struct Placement {
    pub rank: usize,
    pub former_rank: usize,
    pub movement: Movement,
}

/// The movement from `former_rank` to `rank`.
pub open spec fn movement(rank: usize, former_rank: usize) -> Movement {
    if rank < former_rank {
        Movement::Up((former_rank - rank) as usize)
    } else if rank == former_rank {
        Movement::Same
    } else {
        Movement::Down((rank - former_rank) as usize)
    }
}

/// The movement from `former_rank` to `rank`.
pub fn movement_of(rank: usize, former_rank: usize) -> (m: Movement)
    ensures
        m == movement(rank, former_rank),
{
    if rank < former_rank {
        Movement::Up(former_rank - rank)
    } else if rank == former_rank {
        Movement::Same
    } else {
        Movement::Down(rank - former_rank)
    }
}

/// The order of the new ranking, on positions in the chart: the entry with
/// the greater lower end comes first, and of two with the same lower end the
/// one that came first.
pub open spec fn precedes(chart: Seq<ConfidenceInterval>) -> spec_fn(usize, usize) -> bool {
    |a: usize, b: usize|
        {
            let x = chart[a as int].lower_bound.value();
            let y = chart[b as int].lower_bound.value();
            x > y || (x == y && a <= b)
        }
}

/// The first `n` positions, in the chart's order.
pub open spec fn positions(n: nat) -> Seq<usize> {
    Seq::new(n, |i: int| i as usize)
}

/// The positions of the chart in the order of the new ranking.
pub open spec fn chart_order(chart: Seq<ConfidenceInterval>) -> Seq<usize> {
    positions(chart.len()).sort_by(precedes(chart))
}

/// Whether the entry at a position has a mean.
pub open spec fn has_mean(chart: Seq<ConfidenceInterval>) -> spec_fn(usize) -> bool {
    |e: usize| chart[e as int].mean is Some
}

/// The place of the entry that stands at position `e` of the chart and is the
/// `r`-th, counting from zero, to be listed.
pub open spec fn placement(r: int, e: usize) -> Placement {
    Placement {
        rank: (r + 1) as usize,
        former_rank: (e + 1) as usize,
        movement: movement((r + 1) as usize, (e + 1) as usize),
    }
}

/// The new ranking: the entries that have a mean, in the new order, each
/// with its new rank, its rank in the chart and the movement between them.
pub open spec fn placements(chart: Seq<ConfidenceInterval>) -> Seq<Placement> {
    let listed = chart_order(chart).filter(has_mean(chart));
    Seq::new(listed.len(), |r: int| placement(r, listed[r]))
}

/// The order of the new ranking is total.
pub proof fn lemma_precedes_total(chart: Seq<ConfidenceInterval>)
    ensures
        total_ordering(precedes(chart)),
{
    let p = precedes(chart);
    assert forall|a: usize, b: usize| #[trigger] p(a, b) && #[trigger] p(b, a) implies a == b by {}
    assert forall|a: usize, b: usize, c: usize| #[trigger] p(a, b) && #[trigger] p(b, c) implies p(
        a,
        c,
    ) by {}
    assert forall|a: usize, b: usize| #[trigger] p(a, b) || #[trigger] p(b, a) by {}
    assert forall|a: usize| #[trigger] p(a, a) by {}
}

/// The positions of the chart in the order of the new ranking.
pub fn order_by_lower_bound(chart: &Vec<ConfidenceInterval>) -> (order: Vec<usize>)
    ensures
        order@ == chart_order(chart@),
        order.len() == chart.len(),
        forall|k: int| 0 <= k < order.len() ==> (#[trigger] order[k]) < chart.len(),
{
    let n: usize = chart.len();
    let mut order: Vec<usize> = Vec::with_capacity(n);
    let mut i: usize = 0;
    proof {
        to_multiset_len(order@);
        lemma_multiset_empty_len(order@.to_multiset());
        to_multiset_len(positions(0));
        lemma_multiset_empty_len(positions(0).to_multiset());
    }
    while i < n
        invariant
            i <= n,
            n == chart.len(),
            order.len() == i,
            sorted_by(order@, precedes(chart@)),
            order@.to_multiset() =~= positions(i as nat).to_multiset(),
            forall|k: int| 0 <= k < i ==> (#[trigger] order[k]) < i,
        decreases n - i,
    {
        let mut pos: usize = i;
        while pos > 0 && chart[order[pos - 1]].lower_bound.lt(&chart[i].lower_bound)
            invariant
                pos <= i < n,
                n == chart.len(),
                order.len() == i,
                forall|k: int| 0 <= k < i ==> (#[trigger] order[k]) < i,
                forall|k: int|
                    pos <= k < i ==> chart[(#[trigger] order[k]) as int].lower_bound.value()
                        < chart[i as int].lower_bound.value(),
            decreases pos,
        {
            pos -= 1;
        }
        proof {
            let p = precedes(chart@);
            let before = order@;
            let after = before.insert(pos as int, i);
            assert forall|a: int, b: int| 0 <= a < b < after.len() implies #[trigger] p(
                after[a],
                after[b],
            ) by {
                if b < pos {
                    assert(p(before[a], before[b]));
                } else if b == pos {
                    assert(after[a] == before[a]);
                    if a < pos - 1 {
                        assert(p(before[a], before[pos - 1]));
                    }
                } else if a < pos {
                    assert(after[b] == before[b - 1]);
                    assert(p(before[a], before[b - 1]));
                } else if a == pos {
                    assert(after[b] == before[b - 1]);
                } else {
                    assert(after[a] == before[a - 1]);
                    assert(after[b] == before[b - 1]);
                    assert(p(before[a - 1], before[b - 1]));
                }
            }
            to_multiset_insert(before, pos as int, i);
            to_multiset_build(positions(i as nat), i);
            assert(positions((i + 1) as nat) =~= positions(i as nat).push(i));
        }
        order.insert(pos, i);
        i += 1;
    }
    proof {
        lemma_precedes_total(chart@);
        positions(n as nat).lemma_sort_by_ensures(precedes(chart@));
        lemma_sorted_unique(order@, chart_order(chart@), precedes(chart@));
    }
    order
}

/// The new ranking of the chart.
pub fn rank_chart(chart: &Vec<ConfidenceInterval>) -> (ranking: Vec<Placement>)
    ensures
        ranking@ == placements(chart@),
{
    let order = order_by_lower_bound(chart);
    let mut ranking: Vec<Placement> = Vec::new();
    let mut k: usize = 0;
    proof {
        assert(order@.take(0) =~= Seq::empty());
        assert(order@.take(0).filter(has_mean(chart@)) =~= Seq::empty()) by {
            order@.take(0).lemma_filter_len(has_mean(chart@));
        }
    }
    while k < order.len()
        invariant
            k <= order.len(),
            order.len() <= chart.len(),
            order@ == chart_order(chart@),
            forall|q: int| 0 <= q < order.len() ==> (#[trigger] order[q]) < chart.len(),
            ranking.len() == order@.take(k as int).filter(has_mean(chart@)).len(),
            ranking.len() <= k,
            forall|r: int|
                0 <= r < ranking.len() ==> #[trigger] ranking[r] == placement(
                    r,
                    order@.take(k as int).filter(has_mean(chart@))[r],
                ),
        decreases order.len() - k,
    {
        let e: usize = order[k];
        proof {
            assert(order@.take(k + 1) =~= order@.take(k as int).push(e));
            order@.take(k as int).lemma_filter_push(e, has_mean(chart@));
        }
        if chart[e].mean.is_some() {
            let rank: usize = ranking.len() + 1;
            let former_rank: usize = e + 1;
            ranking.push(Placement { rank, former_rank, movement: movement_of(rank, former_rank) });
        }
        k += 1;
    }
    proof {
        assert(order@.take(k as int) =~= order@);
        assert(ranking@ =~= placements(chart@));
    }
    ranking
}

} // verus!
