//! The route as a list of legs: for each walk from one stop to the next, which stops it
//! joins, what it costs, and how the distance model classified it.
//!
//! The floor-plan polyline of each leg is drawn from float geometry outside this
//! library; here a leg carries everything else.

use vstd::prelude::*;

use crate::layout::{Resolved, Space};
use crate::distance::DistanceMatrix;
use crate::solve::construct::matrix_weight;
use crate::solve::{route_cost, SolveOutcome};
use crate::tour::{
    bounded_weight, leg_target, legs_sum, lemma_legs_fit_u128, lemma_legs_sum,
    lemma_legs_sum_bounds,
};

verus! {

/// How a leg's polyline is derived, so consumers can tell the accurate same-island
/// routing from the straight-line cross-island/cluster approximations.
#[derive(Debug, Clone, Copy, PartialEq, Eq, Structural)]
pub enum LegKind {
    /// Both stops on the same physical island; the polyline rounds the chosen crossing.
    IntraIsland,
    /// Different islands in the same hall cluster; straight-segment approximation.
    CrossIsland,
    /// Different hall clusters; straight-segment approximation (no geometry in the model).
    CrossCluster,
}

/// Both spaces sit on the same physical island (building, hall, and block).
pub open spec fn on_same_island(a: Space, b: Space) -> bool {
    &&& a.building == b.building
    &&& a.hall == b.hall
    &&& a.block@ == b.block@
}

/// The class of the leg from `a` to `b`, split the way the distance model splits it.
pub open spec fn kind_of(a: Space, b: Space) -> LegKind {
    if on_same_island(a, b) {
        LegKind::IntraIsland
    } else if a.cluster@ == b.cluster@ {
        LegKind::CrossIsland
    } else {
        LegKind::CrossCluster
    }
}

/// True when both spaces sit on the same physical island (building, hall, and block).
pub fn same_island(a: &Space, b: &Space) -> (r: bool)
    ensures
        r == on_same_island(*a, *b),
{
    a.building == b.building && a.hall == b.hall && a.block == b.block
}

/// Classify a leg the same way the distance model splits its cases.
pub fn leg_kind(a: &Space, b: &Space) -> (r: LegKind)
    ensures
        r == kind_of(*a, *b),
        r == LegKind::IntraIsland <==> on_same_island(*a, *b),
        !on_same_island(*a, *b) ==> (r == LegKind::CrossIsland <==> a.cluster@ == b.cluster@),
        !on_same_island(*a, *b) ==> (r == LegKind::CrossCluster <==> a.cluster@ != b.cluster@),
{
    if same_island(a, b) {
        LegKind::IntraIsland
    } else if a.cluster == b.cluster {
        LegKind::CrossIsland
    } else {
        LegKind::CrossCluster
    }
}

/// Which case of the perceived-distance model a leg between two spaces falls in.
#[derive(Debug, Clone, Copy, PartialEq, Eq, Structural)]
pub enum Regime {
    /// Both on the same island: the walk rounds the cheapest face crossing.
    IntraIsland,
    /// Different hall clusters whose distance the hall-distance table gives.
    ClusterTable,
    /// Global Manhattan distance plus the building-crossing penalty.
    CrossBuilding,
    /// Global Manhattan distance plus the hall-crossing penalty.
    CrossHall,
    /// Global Manhattan distance plus the adjacent-island penalty.
    CrossBlock,
}

/// The regime of the leg from `a` to `b`, given whether a hall-distance table is in use
/// and holds a distance between their clusters: same island first, then the table for
/// different clusters, then the penalty tier of the first boundary crossed (building,
/// hall, island).
pub open spec fn regime_of(a: Space, b: Space, table_has_pair: bool) -> Regime {
    if on_same_island(a, b) {
        Regime::IntraIsland
    } else if a.cluster@ != b.cluster@ && table_has_pair {
        Regime::ClusterTable
    } else if a.building != b.building {
        Regime::CrossBuilding
    } else if a.hall != b.hall {
        Regime::CrossHall
    } else {
        Regime::CrossBlock
    }
}

/// Decide which case of the perceived-distance model the leg from `a` to `b` uses;
/// `table_has_pair` says whether a hall-distance table is in use and holds a distance
/// between the two spaces' clusters.
pub fn leg_regime(a: &Space, b: &Space, table_has_pair: bool) -> (r: Regime)
    ensures
        r == regime_of(*a, *b, table_has_pair),
        r == Regime::IntraIsland <==> on_same_island(*a, *b),
        r == Regime::ClusterTable <==> !on_same_island(*a, *b) && a.cluster@ != b.cluster@
            && table_has_pair,
        r == Regime::CrossBuilding <==> !on_same_island(*a, *b) && !(a.cluster@ != b.cluster@
            && table_has_pair) && a.building != b.building,
{
    if same_island(a, b) {
        Regime::IntraIsland
    } else if a.cluster != b.cluster && table_has_pair {
        Regime::ClusterTable
    } else if a.building != b.building {
        Regime::CrossBuilding
    } else if a.hall != b.hall {
        Regime::CrossHall
    } else {
        Regime::CrossBlock
    }
}

/// A leg's class depends on the two spaces' islands and clusters alone: the same
/// island makes it intra-island; otherwise it is cross-island exactly when the cluster
/// names are equal and cross-cluster exactly when they differ, whatever the buildings.
pub proof fn lemma_leg_kind_by_cluster(a: Space, b: Space)
    ensures
        kind_of(a, b) == LegKind::IntraIsland <==> on_same_island(a, b),
        !on_same_island(a, b) ==> (kind_of(a, b) == LegKind::CrossIsland <==> a.cluster@
            == b.cluster@),
        !on_same_island(a, b) ==> (kind_of(a, b) == LegKind::CrossCluster <==> a.cluster@
            != b.cluster@),
{
}

/// With a hall-distance table that holds their cluster pair, two spaces on different
/// islands of different clusters are costed from the table, whatever their buildings
/// and halls; the table is used for nothing else, and the penalty tiers apply only
/// when it is not.
pub proof fn lemma_regime_table_first(a: Space, b: Space, table_has_pair: bool)
    ensures
        regime_of(a, b, table_has_pair) == Regime::IntraIsland <==> on_same_island(a, b),
        regime_of(a, b, table_has_pair) == Regime::ClusterTable <==> !on_same_island(a, b)
            && a.cluster@ != b.cluster@ && table_has_pair,
        !on_same_island(a, b) && a.cluster@ != b.cluster@ && table_has_pair ==> regime_of(
            a,
            b,
            table_has_pair,
        ) == Regime::ClusterTable,
        !on_same_island(a, b) && !(a.cluster@ != b.cluster@ && table_has_pair) ==> {
            &&& a.building != b.building ==> regime_of(a, b, table_has_pair) == Regime::CrossBuilding
            &&& a.building == b.building && a.hall != b.hall ==> regime_of(a, b, table_has_pair)
                == Regime::CrossHall
            &&& a.building == b.building && a.hall == b.hall ==> regime_of(a, b, table_has_pair)
                == Regime::CrossBlock
        },
{
}

/// One leg of the route: the walk from one stop to the next, with its cost and class.
#[derive(Debug, Clone)]
pub struct PathLeg {
    /// 1-based index of the originating stop (the leg joins stop `order` to `order + 1`;
    /// for a closed tour the final leg returns from the last stop to the first).
    pub order: usize,
    /// Canonical space id the leg starts at.
    pub from_space: String,
    /// Canonical space id the leg ends at.
    pub to_space: String,
    /// Perceived cost of this leg.
    pub leg_cost: u64,
    /// Running total of perceived cost up to and including this leg.
    pub cumulative_cost: u128,
    /// How the leg's polyline is derived.
    pub kind: LegKind,
}

/// The full route: every leg in visit order, plus the totals.
#[derive(Debug, Clone)]
pub struct RoutePath {
    /// Event label carried over from the layout artifact, if any.
    pub event: Option<String>,
    /// Whether the tour returns to its start (a final return leg is included).
    pub closed: bool,
    /// Total perceived cost (the solver's [`SolveOutcome::cost`]).
    pub total_cost: u128,
    /// The legs in visit order.
    pub legs: Vec<PathLeg>,
}

/// Every stop of `order` names a matched space and a matrix node.
pub open spec fn route_ready(resolved: Resolved, order: Seq<usize>, m: DistanceMatrix) -> bool {
    forall|k: int|
        0 <= k < order.len() ==> #[trigger] order[k] < resolved.spaces@.len() && order[k]
            < m.size()
}

/// How many legs a route of `n` stops has: none for 0 or 1 stops, one per consecutive
/// pair, and the return leg when closed.
pub open spec fn leg_count(n: int, closed: bool) -> int {
    if n <= 1 {
        0
    } else if closed {
        n
    } else {
        n - 1
    }
}

/// `leg` is leg `i` (0-based) of the route through `order`.
pub open spec fn is_path_leg(
    resolved: Resolved,
    m: DistanceMatrix,
    order: Seq<usize>,
    i: int,
    leg: PathLeg,
) -> bool {
    let a = resolved.spaces@[order[i] as int];
    let b = resolved.spaces@[leg_target(order, i) as int];
    &&& leg.order == i + 1
    &&& leg.from_space@ == a.id@
    &&& leg.to_space@ == b.id@
    &&& leg.leg_cost == m.entry(order[i] as int, leg_target(order, i) as int)
    &&& leg.cumulative_cost == legs_sum(matrix_weight(m), order, i + 1)
    &&& leg.kind == kind_of(a, b)
}

/// Build the route's legs from a solved order.
///
/// Walks the consecutive stop pairs (as [`crate::itinerary::route_legs`] does) and, when
/// `closed`, appends the return leg from the last stop back to the first.
pub fn build_route_path(
    resolved: &Resolved,
    outcome: &SolveOutcome,
    matrix: &DistanceMatrix,
    closed: bool,
    event: Option<String>,
) -> (r: RoutePath)
    requires
        route_ready(*resolved, outcome.order@, *matrix),
    ensures
        r.event == event,
        r.closed == closed,
        r.total_cost == outcome.cost,
        r.legs@.len() == leg_count(outcome.order@.len() as int, closed),
        forall|i: int|
            0 <= i < r.legs@.len() ==> is_path_leg(
                *resolved,
                *matrix,
                outcome.order@,
                i,
                #[trigger] r.legs@[i],
            ),
        outcome.order@.len() >= 2 ==> r.legs@.last().cumulative_cost == route_cost(
            *matrix,
            outcome.order@,
            closed,
        ),
{
    let order = &outcome.order;
    let n = order.len();
    let n_legs: usize = if n <= 1 {
        0
    } else if closed {
        n
    } else {
        n - 1
    };
    let ghost w = matrix_weight(*matrix);
    proof {
        assert(bounded_weight(w)) by {
            assert forall|a: usize, b: usize| 0 <= #[trigger] w(a, b) <= u64::MAX by {
                matrix.lemma_entry_bounds(a as int, b as int);
            }
        }
    }
    let mut legs: Vec<PathLeg> = Vec::new();
    let mut cumulative: u128 = 0;
    let mut i: usize = 0;
    while i < n_legs
        invariant
            n == order@.len(),
            n_legs == leg_count(n as int, closed),
            i <= n_legs,
            route_ready(*resolved, order@, *matrix),
            w == matrix_weight(*matrix),
            bounded_weight(w),
            cumulative == legs_sum(w, order@, i as int),
            legs@.len() == i,
            forall|q: int|
                0 <= q < i ==> is_path_leg(*resolved, *matrix, order@, q, #[trigger] legs@[q]),
        decreases n_legs - i,
    {
        let from_idx = order[i];
        let to_idx = if i + 1 < n {
            order[i + 1]
        } else {
            order[0]
        };
        proof {
            assert(order@[i as int] < resolved.spaces@.len());
            assert(order@[0] < resolved.spaces@.len());
            assert(to_idx == leg_target(order@, i as int));
            lemma_legs_sum_bounds(w, order@, i + 1);
            lemma_legs_fit_u128(i + 1);
        }
        let a = &resolved.spaces[from_idx];
        let b = &resolved.spaces[to_idx];
        let leg_cost = matrix.get(from_idx, to_idx);
        cumulative = cumulative + leg_cost as u128;
        legs.push(
            PathLeg {
                order: i + 1,
                from_space: a.id.clone(),
                to_space: b.id.clone(),
                leg_cost,
                cumulative_cost: cumulative,
                kind: leg_kind(a, b),
            },
        );
        i = i + 1;
    }
    proof {
        if n >= 2 {
            if closed {
                lemma_legs_sum(w, order@, n as int);
            } else {
                lemma_legs_sum(w, order@, n - 1);
                assert(order@.take(n as int) =~= order@);
            }
        }
    }
    RoutePath { event, closed, total_cost: outcome.cost, legs }
}

} // verus!
