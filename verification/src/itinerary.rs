//! The itinerary rows of `route.csv`: one per stop in visit order, with the cost of
//! the leg that reaches it and the running total.

use vstd::prelude::*;

use crate::layout::Resolved;
use crate::distance::DistanceMatrix;
use crate::path::route_ready;
use crate::solve::construct::matrix_weight;
use crate::solve::{route_cost, SolveOutcome};
use crate::text::push_str;
use crate::tour::{
    bounded_weight, legs_sum, lemma_legs_fit_u128, lemma_legs_sum, lemma_legs_sum_bounds,
};

verus! {

/// One row of `route.csv`: visit order, space id, circle name, and costs.
#[derive(Debug, Clone)]
pub struct RouteLeg {
    /// 1-based visit order.
    pub order: usize,
    /// Canonical space id.
    pub space: String,
    /// Circle name.
    pub name: String,
    /// Perceived cost of the leg from the previous stop (0 for the first).
    pub leg_cost: u64,
    /// Running total of perceived cost up to and including this leg.
    pub cumulative_cost: u128,
}

/// `row` is the itinerary row of stop `k` (0-based) of `order`.
pub open spec fn is_stop_row(
    resolved: Resolved,
    m: DistanceMatrix,
    order: Seq<usize>,
    k: int,
    row: RouteLeg,
) -> bool {
    &&& row.order == k + 1
    &&& row.space@ == resolved.spaces@[order[k] as int].id@
    &&& row.name@ == resolved.names@[order[k] as int]@
    &&& row.leg_cost == if k == 0 {
        0
    } else {
        m.entry(order[k - 1] as int, order[k] as int)
    }
    &&& row.cumulative_cost == legs_sum(matrix_weight(m), order, k)
}

/// `row` is the closing row of a closed tour through `order`: the start again, reached
/// by the return leg.
pub open spec fn is_return_row(
    resolved: Resolved,
    m: DistanceMatrix,
    order: Seq<usize>,
    row: RouteLeg,
) -> bool {
    let n = order.len() as int;
    &&& row.order == n + 1
    &&& row.space@ == resolved.spaces@[order[0] as int].id@
    &&& row.name@ == resolved.names@[order[0] as int]@ + " (return)"@
    &&& row.leg_cost == m.entry(order[n - 1] as int, order[0] as int)
    &&& row.cumulative_cost == legs_sum(matrix_weight(m), order, n)
}

/// Turn a solved order into route rows, computing per-leg and cumulative cost.
///
/// When `closed`, a final row repeats the start to account for the return leg, so
/// the last `cumulative_cost` equals the closed-tour total.
pub fn route_legs(
    resolved: &Resolved,
    outcome: &SolveOutcome,
    matrix: &DistanceMatrix,
    closed: bool,
) -> (legs: Vec<RouteLeg>)
    requires
        route_ready(*resolved, outcome.order@, *matrix),
        resolved.names@.len() == resolved.spaces@.len(),
        outcome.order@.len() < usize::MAX,
    ensures
        legs@.len() == outcome.order@.len() + if closed && outcome.order@.len() > 0 {
            1int
        } else {
            0int
        },
        forall|k: int|
            0 <= k < outcome.order@.len() ==> is_stop_row(
                *resolved,
                *matrix,
                outcome.order@,
                k,
                #[trigger] legs@[k],
            ),
        closed && outcome.order@.len() > 0 ==> is_return_row(
            *resolved,
            *matrix,
            outcome.order@,
            legs@[outcome.order@.len() as int],
        ),
        outcome.order@.len() >= 2 ==> legs@.last().cumulative_cost == route_cost(
            *matrix,
            outcome.order@,
            closed,
        ),
{
    let order = &outcome.order;
    let n = order.len();
    let ghost w = matrix_weight(*matrix);
    proof {
        assert(bounded_weight(w)) by {
            assert forall|a: usize, b: usize| 0 <= #[trigger] w(a, b) <= u64::MAX by {
                matrix.lemma_entry_bounds(a as int, b as int);
            }
        }
    }
    let mut legs: Vec<RouteLeg> = Vec::new();
    let mut cumulative: u128 = 0;
    let mut k: usize = 0;
    while k < n
        invariant
            n == order@.len(),
            n < usize::MAX,
            k <= n,
            route_ready(*resolved, order@, *matrix),
            resolved.names@.len() == resolved.spaces@.len(),
            w == matrix_weight(*matrix),
            bounded_weight(w),
            k > 0 ==> cumulative == legs_sum(w, order@, k - 1),
            k == 0 ==> cumulative == 0,
            legs@.len() == k,
            forall|q: int|
                0 <= q < k ==> is_stop_row(*resolved, *matrix, order@, q, #[trigger] legs@[q]),
        decreases n - k,
    {
        let idx = order[k];
        proof {
            assert(order@[k as int] < resolved.spaces@.len());
        }
        let leg: u64 = if k == 0 {
            0
        } else {
            proof {
                assert(order@[k - 1] < resolved.spaces@.len());
                lemma_legs_sum_bounds(w, order@, k as int);
                lemma_legs_fit_u128(k as int);
            }
            matrix.get(order[k - 1], idx)
        };
        cumulative = cumulative + leg as u128;
        legs.push(
            RouteLeg {
                order: k + 1,
                space: resolved.spaces[idx].id.clone(),
                name: resolved.names[idx].clone(),
                leg_cost: leg,
                cumulative_cost: cumulative,
            },
        );
        k = k + 1;
    }
    if closed && n > 0 {
        let first = order[0];
        let last = order[n - 1];
        proof {
            assert(order@[0] < resolved.spaces@.len());
            assert(order@[n - 1] < resolved.spaces@.len());
            lemma_legs_sum_bounds(w, order@, n as int);
            lemma_legs_fit_u128(n as int);
        }
        let leg = matrix.get(last, first);
        cumulative = cumulative + leg as u128;
        let mut name = resolved.names[first].clone();
        push_str(&mut name, " (return)");
        legs.push(
            RouteLeg {
                order: n + 1,
                space: resolved.spaces[first].id.clone(),
                name,
                leg_cost: leg,
                cumulative_cost: cumulative,
            },
        );
    }
    proof {
        if n >= 2 {
            if closed {
                lemma_legs_sum(w, order@, n as int);
            } else {
                lemma_legs_sum(w, order@, n - 1);
                assert(order@.take(n as int) =~= order@);
            }
        }
    }
    legs
}

/// Stop `k` of `order` opens a new (building, hall) group of the printed itinerary:
/// it is the first stop, or the stop before it lies in another building or hall.
pub open spec fn opens_group(resolved: Resolved, order: Seq<usize>, k: int) -> bool {
    k == 0 || {
        let prev = resolved.spaces@[order[k - 1] as int];
        let here = resolved.spaces@[order[k] as int];
        prev.building != here.building || prev.hall != here.hall
    }
}

/// The first stop always opens a heading, and a later stop opens one exactly when its
/// (building, hall) pair differs from the previous stop's: a change of building alone
/// is enough, and so is a change of hall alone.
pub proof fn lemma_group_by_building_and_hall(resolved: Resolved, order: Seq<usize>, k: int)
    requires
        0 <= k < order.len(),
    ensures
        k == 0 ==> opens_group(resolved, order, k),
        k > 0 ==> (opens_group(resolved, order, k) <==> (resolved.spaces@[order[k - 1] as int].building,
            resolved.spaces@[order[k - 1] as int].hall) != (resolved.spaces@[order[k] as int].building,
            resolved.spaces@[order[k] as int].hall)),
        k > 0 && resolved.spaces@[order[k - 1] as int].building != resolved.spaces@[order[k] as int].building
            ==> opens_group(resolved, order, k),
{
}

/// For each stop of `order`, whether the printed itinerary starts a new
/// building-and-hall heading before it.
pub fn group_breaks(resolved: &Resolved, order: &Vec<usize>) -> (r: Vec<bool>)
    requires
        forall|k: int| 0 <= k < order@.len() ==> #[trigger] order@[k] < resolved.spaces@.len(),
    ensures
        r@.len() == order@.len(),
        forall|k: int| 0 <= k < order@.len() ==> #[trigger] r@[k] == opens_group(*resolved, order@, k),
        order@.len() > 0 ==> r@[0],
        forall|k: int|
            0 < k < order@.len() ==> (#[trigger] r@[k] <==> !(resolved.spaces@[order@[k
                - 1] as int].building == resolved.spaces@[order@[k] as int].building
                && resolved.spaces@[order@[k - 1] as int].hall == resolved.spaces@[order@[k] as int].hall)),
{
    let mut r: Vec<bool> = Vec::new();
    let mut k: usize = 0;
    while k < order.len()
        invariant
            k <= order@.len(),
            forall|q: int| 0 <= q < order@.len() ==> #[trigger] order@[q] < resolved.spaces@.len(),
            r@.len() == k,
            forall|q: int| 0 <= q < k ==> #[trigger] r@[q] == opens_group(*resolved, order@, q),
        decreases order@.len() - k,
    {
        let opens = if k == 0 {
            true
        } else {
            let prev = &resolved.spaces[order[k - 1]];
            let here = &resolved.spaces[order[k]];
            prev.building != here.building || prev.hall != here.hall
        };
        r.push(opens);
        k = k + 1;
    }
    r
}

} // verus!
