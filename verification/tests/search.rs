//! The search's building blocks: greedy construction, the Or-opt relocation, local
//! search and the ILS driver, each on small instances with known answers.

use rand::rngs::StdRng;
use rand::SeedableRng;

use comiket_tsp::solve::construct::{best_nearest_neighbor, nearest_neighbor};
use comiket_tsp::solve::ils::{self, accept, bridge_at};
use comiket_tsp::solve::two_opt::{local_search, relocate};
use comiket_tsp::solve::{cycle_cost, select_best, Cost};
use comiket_tsp::{DistanceMatrix, SolveConfig};

const SCALE: f64 = 1_000_000.0;

fn matrix(points: &[(f64, f64)]) -> DistanceMatrix {
    DistanceMatrix::from_fn(points.len(), |i, j| {
        let (a, b) = (points[i], points[j]);
        (((a.0 - b.0).powi(2) + (a.1 - b.1).powi(2)).sqrt() * SCALE).round() as u64
    })
}

fn line() -> DistanceMatrix {
    let xs = [0.0, 5.0, 1.0, 4.0, 2.0, 3.0];
    let pts: Vec<(f64, f64)> = xs.iter().map(|&x| (x, 0.0)).collect();
    matrix(&pts)
}

fn square() -> DistanceMatrix {
    matrix(&[(0.0, 0.0), (1.0, 0.0), (1.0, 1.0), (0.0, 1.0)])
}

#[test]
fn relocate_moves_a_segment_after_a_position() {
    let base = vec![0, 1, 2, 3, 4, 5];
    let mut t = base.clone();
    relocate(&mut t, 1, 2, 4, false);
    assert_eq!(t, [0, 3, 4, 1, 2, 5]);
    let mut t = base.clone();
    relocate(&mut t, 1, 2, 4, true);
    assert_eq!(t, [0, 3, 4, 2, 1, 5]);
    let mut t = base.clone();
    relocate(&mut t, 3, 2, 0, false);
    assert_eq!(t, [0, 3, 4, 1, 2, 5]);
    // Right after its own predecessor: in place, reversed if asked.
    let mut t = base.clone();
    relocate(&mut t, 2, 2, 1, true);
    assert_eq!(t, [0, 1, 3, 2, 4, 5]);
    let mut t = base.clone();
    relocate(&mut t, 0, 2, 5, false);
    assert_eq!(t, [2, 3, 4, 5, 0, 1]);
    let mut t = base.clone();
    relocate(&mut t, 3, 0, 1, true);
    assert_eq!(t, base);
}

#[test]
fn nearest_neighbour_walks_greedily() {
    let m = line();
    let cost = Cost {
        matrix: &m,
        dummy: None,
    };
    let order = nearest_neighbor(&cost, 6, 0);
    assert_eq!(order, [0, 2, 4, 5, 3, 1]);
    let walked: u64 = order.windows(2).map(|w| m.get(w[0], w[1])).sum();
    assert_eq!(walked, 5_000_000);
    let from_middle = nearest_neighbor(&cost, 6, 4);
    assert_eq!(from_middle[0], 4);
    assert_eq!(from_middle.len(), 6);
    // Both ends give the optimal walk; the first such start wins the tie.
    assert_eq!(best_nearest_neighbor(&cost, 6), [0, 2, 4, 5, 3, 1]);
}

#[test]
fn local_search_uncrosses_a_tour() {
    let m = square();
    let cost = Cost {
        matrix: &m,
        dummy: None,
    };
    let mut tour = vec![0, 2, 1, 3];
    let before = cycle_cost(&cost, &tour);
    assert_eq!(before, 2 * 1_414_214 + 2_000_000);
    local_search(&cost, &mut tour, 1);
    assert_eq!(tour[0], 0);
    assert_eq!(cycle_cost(&cost, &tour), 4_000_000);
    let mut sorted = tour.clone();
    sorted.sort();
    assert_eq!(sorted, [0, 1, 2, 3]);
}

#[test]
fn ils_never_worsens_and_keeps_the_locked_prefix() {
    let pts: Vec<(f64, f64)> = (0..12)
        .map(|i| {
            let a = i as f64 * 0.9;
            (a.cos() * 10.0, (a * 1.7).sin() * 10.0)
        })
        .collect();
    let m = matrix(&pts);
    let cost = Cost {
        matrix: &m,
        dummy: None,
    };
    let mut tour: Vec<usize> = (0..12).collect();
    local_search(&cost, &mut tour, 2);
    let before = cycle_cost(&cost, &tour);
    let prefix = tour[..2].to_vec();
    let mut rng = StdRng::seed_from_u64(7);
    let config = SolveConfig {
        time_ms: 0,
        max_iters: 200,
        ..SolveConfig::default()
    };
    ils::run(&cost, &mut tour, 2, &mut rng, &config);
    assert!(cycle_cost(&cost, &tour) <= before);
    assert_eq!(&tour[..2], &prefix[..]);
    let mut sorted = tour.clone();
    sorted.sort();
    assert_eq!(sorted, (0..12).collect::<Vec<_>>());
}

#[test]
fn dummy_node_costs_nothing() {
    let m = line();
    let cost = Cost {
        matrix: &m,
        dummy: Some(6),
    };
    assert_eq!(cost.d(6, 3), 0);
    assert_eq!(cost.d(1, 6), 0);
    assert_eq!(cost.d(0, 1), 5_000_000);
    // The open path 0..5 closed through the dummy costs the path alone.
    let tour = vec![6, 0, 2, 4, 5, 3, 1];
    assert_eq!(cycle_cost(&cost, &tour), 5_000_000);
}

#[test]
fn bridge_at_reconnects_the_sorted_cuts() {
    let base: Vec<usize> = (0..8).collect();
    let mut t = base.clone();
    // Movable region t[1..] = 1..8; cuts 5, 2, 3 sort to 2 < 3 < 5:
    // A = 0 1 2 | B = 3 | C = 4 5 | D = 6 7  ->  A C B D.
    bridge_at(&mut t, 1, 5, 2, 3);
    assert_eq!(t, [0, 1, 2, 4, 5, 3, 6, 7]);
    let mut t = base.clone();
    bridge_at(&mut t, 1, 4, 2, 4);
    assert_eq!(t, base);
}

#[test]
fn symmetry_is_checked_entry_by_entry() {
    assert!(square().symmetric());
    let lopsided = DistanceMatrix::from_fn(3, |i, j| if i == 0 && j == 2 { 9 } else { 1 });
    assert!(!lopsided.symmetric());
    assert!(DistanceMatrix::from_fn(0, |_, _| 0).symmetric());
}

#[test]
fn local_search_leaves_a_local_optimum_alone() {
    let m = square();
    let cost = Cost {
        matrix: &m,
        dummy: None,
    };
    let mut tour = vec![0, 1, 2, 3];
    local_search(&cost, &mut tour, 1);
    assert_eq!(tour, [0, 1, 2, 3]);
    let mut other = vec![0, 3, 2, 1];
    local_search(&cost, &mut other, 1);
    assert_eq!(other, [0, 3, 2, 1]);
}

#[test]
fn accept_keeps_only_a_strictly_cheaper_candidate() {
    let mut best = vec![0, 1, 2];
    let mut best_cost: u128 = 10;
    accept(&mut best, &mut best_cost, vec![0, 2, 1], 10);
    assert_eq!((best.clone(), best_cost), (vec![0, 1, 2], 10));
    accept(&mut best, &mut best_cost, vec![0, 2, 1], 9);
    assert_eq!((best, best_cost), (vec![0, 2, 1], 9));
}

#[test]
fn select_best_takes_the_first_cheapest_restart() {
    let m = square();
    let closed = SolveConfig {
        closed: true,
        ..SolveConfig::default()
    };
    let results = vec![
        (4_000_000u128, vec![0, 3, 2, 1]),
        (4_000_000u128, vec![0, 1, 2, 3]),
    ];
    let out = select_best(&m, &closed, &results);
    assert_eq!(out.order, [0, 3, 2, 1]);
    assert_eq!(out.cost, 4_000_000);

    // Open mode: the tours carry the dummy node (4) first.
    let open = SolveConfig::default();
    let results = vec![
        (3_000_000u128, vec![4, 1, 2, 3, 0]),
        (3_000_000u128, vec![4, 0, 1, 2, 3]),
    ];
    let out = select_best(&m, &open, &results);
    assert_eq!(out.order, [1, 2, 3, 0]);
}
