//! Legs and itinerary rows built from a solved order.

use comiket_tsp::itinerary::{group_breaks, route_legs};
use comiket_tsp::layout::{Block, BlockKind, Dir, Resolved, Space};
use comiket_tsp::path::{build_route_path, leg_kind, leg_regime, same_island, LegKind, Regime};
use comiket_tsp::space::Building;
use comiket_tsp::{DistanceMatrix, SolveOutcome};

fn island(id: &str, block: &str, building: Building, hall: u8, cluster: &str) -> Vec<Space> {
    Block {
        id: id.into(),
        block: block.into(),
        building,
        hall,
        along: Dir::E,
        cross: Dir::N,
        n_max: 4,
        face0_len: None,
        kind: BlockKind::Island,
        number_base: 0,
        cluster: cluster.into(),
    }
    .expand()
}

/// Three stops: two on one island in hall E4, one on an island of hall E5 (same
/// cluster), and one across in W1.
fn resolved() -> Resolved {
    let e4 = island("E4-ア", "ア", Building::East, 4, "E4-6");
    let e5 = island("E5-カ", "カ", Building::East, 5, "E4-6");
    let w1 = island("W1-あ", "あ", Building::West, 1, "W1-2");
    Resolved {
        spaces: vec![e4[0].clone(), e4[4].clone(), e5[0].clone(), w1[0].clone()],
        names: vec!["a".into(), "b".into(), "c".into(), "d".into()],
        missing: vec![],
        layout_index: vec![0, 4, 0, 0],
    }
}

fn matrix() -> DistanceMatrix {
    let d = [[0, 10, 50, 200], [10, 0, 45, 210], [50, 45, 0, 190], [200, 210, 190, 0]];
    DistanceMatrix::from_fn(4, |i, j| d[i][j])
}

#[test]
fn leg_kinds_follow_the_distance_model_split() {
    let r = resolved();
    assert!(same_island(&r.spaces[0], &r.spaces[1]));
    assert!(!same_island(&r.spaces[0], &r.spaces[2]));
    assert_eq!(leg_kind(&r.spaces[0], &r.spaces[1]), LegKind::IntraIsland);
    assert_eq!(leg_kind(&r.spaces[1], &r.spaces[2]), LegKind::CrossIsland);
    assert_eq!(leg_kind(&r.spaces[2], &r.spaces[3]), LegKind::CrossCluster);
}

#[test]
fn open_route_rows_accumulate_leg_costs() {
    let r = resolved();
    let m = matrix();
    let outcome = SolveOutcome {
        order: vec![1, 0, 2, 3],
        cost: 10 + 50 + 190,
    };
    let rows = route_legs(&r, &outcome, &m, false);
    assert_eq!(rows.len(), 4);
    let got: Vec<(usize, &str, &str, u64, u128)> = rows
        .iter()
        .map(|l| (l.order, l.space.as_str(), l.name.as_str(), l.leg_cost, l.cumulative_cost))
        .collect();
    assert_eq!(
        got,
        [
            (1, "E4-ア-3a", "b", 0, 0),
            (2, "E4-ア-1a", "a", 10, 10),
            (3, "E5-カ-1a", "c", 50, 60),
            (4, "W1-あ-1a", "d", 190, 250),
        ]
    );
    assert_eq!(rows[3].cumulative_cost, outcome.cost);
}

#[test]
fn closed_route_adds_a_return_row() {
    let r = resolved();
    let m = matrix();
    let outcome = SolveOutcome {
        order: vec![0, 1, 2, 3],
        cost: 10 + 45 + 190 + 200,
    };
    let rows = route_legs(&r, &outcome, &m, true);
    assert_eq!(rows.len(), 5);
    let last = &rows[4];
    assert_eq!(last.order, 5);
    assert_eq!(last.space, "E4-ア-1a");
    assert_eq!(last.name, "a (return)");
    assert_eq!(last.leg_cost, 200);
    assert_eq!(last.cumulative_cost, outcome.cost);

    let single = SolveOutcome {
        order: vec![2],
        cost: 0,
    };
    let rows = route_legs(&r, &single, &m, true);
    assert_eq!(rows.len(), 2);
    assert_eq!(rows[1].name, "c (return)");
    assert_eq!(rows[1].cumulative_cost, 0);
    assert!(route_legs(&r, &SolveOutcome { order: vec![], cost: 0 }, &m, true).is_empty());
}

#[test]
fn route_path_has_one_leg_per_walk() {
    let r = resolved();
    let m = matrix();
    let outcome = SolveOutcome {
        order: vec![0, 1, 2, 3],
        cost: 10 + 45 + 190 + 200,
    };
    let closed = build_route_path(&r, &outcome, &m, true, Some("C107".into()));
    assert_eq!(closed.event.as_deref(), Some("C107"));
    assert!(closed.closed);
    assert_eq!(closed.total_cost, outcome.cost);
    assert_eq!(closed.legs.len(), 4);
    let kinds: Vec<LegKind> = closed.legs.iter().map(|l| l.kind).collect();
    assert_eq!(
        kinds,
        [LegKind::IntraIsland, LegKind::CrossIsland, LegKind::CrossCluster, LegKind::CrossCluster]
    );
    let back = &closed.legs[3];
    assert_eq!((back.order, back.from_space.as_str(), back.to_space.as_str()), (4, "W1-あ-1a", "E4-ア-1a"));
    assert_eq!(back.leg_cost, 200);
    assert_eq!(back.cumulative_cost, outcome.cost);

    let open = build_route_path(&r, &outcome, &m, false, None);
    assert_eq!(open.legs.len(), 3);
    assert_eq!(open.legs[2].cumulative_cost, 10 + 45 + 190);
    assert_eq!(open.event, None);

    let single = SolveOutcome {
        order: vec![1],
        cost: 0,
    };
    assert!(build_route_path(&r, &single, &m, true, None).legs.is_empty());
}

#[test]
fn itinerary_headings_break_on_building_or_hall() {
    let r = resolved();
    assert_eq!(group_breaks(&r, &vec![0, 1, 2, 3]), [true, false, true, true]);
    assert_eq!(group_breaks(&r, &vec![3, 0, 1]), [true, true, false]);
    assert!(group_breaks(&r, &vec![]).is_empty());
}

#[test]
fn leg_regimes_follow_the_distance_model() {
    let r = resolved();
    let other_block = island("E4-イ", "イ", Building::East, 4, "E4-6");
    let (a, b, c, d) = (&r.spaces[0], &r.spaces[1], &r.spaces[2], &r.spaces[3]);
    assert_eq!(leg_regime(a, b, true), Regime::IntraIsland);
    assert_eq!(leg_regime(a, &other_block[0], false), Regime::CrossBlock);
    // Same cluster: the table is not consulted even when it has the pair.
    assert_eq!(leg_regime(a, c, true), Regime::CrossHall);
    assert_eq!(leg_regime(a, d, true), Regime::ClusterTable);
    assert_eq!(leg_regime(a, d, false), Regime::CrossBuilding);
}
