//! Solver tests: known-optimum tiny instances, a grid within tolerance,
//! determinism, and fixed-start handling. All randomness uses a fixed seed and the
//! iteration cap (not wall-clock) so results are reproducible.
//!
//! Costs are fixed-point: one metre is `SCALE` cost units.

use comiket_tsp::{solve, DistanceMatrix, SolveConfig};

const SCALE: f64 = 1_000_000.0;

/// Points of a 2×k unit grid: bottom row `0..k`, then top row `k..2k`.
fn grid_2xk(k: usize) -> Vec<(f64, f64)> {
    let bottom = (0..k).map(|x| (x as f64, 0.0));
    let top = (0..k).map(|x| (x as f64, 1.0));
    bottom.chain(top).collect()
}

fn euclid(a: (f64, f64), b: (f64, f64)) -> f64 {
    ((a.0 - b.0).powi(2) + (a.1 - b.1).powi(2)).sqrt()
}

fn matrix(points: &[(f64, f64)]) -> DistanceMatrix {
    DistanceMatrix::from_fn(points.len(), |i, j| {
        (euclid(points[i], points[j]) * SCALE).round() as u64
    })
}

fn metres(cost: u128) -> f64 {
    cost as f64 / SCALE
}

/// Deterministic config: time disabled, so `max_iters` is the only stopping rule.
fn cfg() -> SolveConfig {
    SolveConfig {
        seed: 1,
        restarts: 8,
        time_ms: 0,
        max_iters: 800,
        closed: false,
        start: None,
    }
}

fn is_permutation(order: &[usize], n: usize) -> bool {
    if order.len() != n {
        return false;
    }
    let mut seen = vec![false; n];
    for &x in order {
        if x >= n || seen[x] {
            return false;
        }
        seen[x] = true;
    }
    true
}

/// The cost of visiting `order` in `m`, recomputed leg by leg.
fn tour_cost(m: &DistanceMatrix, order: &[usize], closed: bool) -> u128 {
    let mut total: u128 = order.windows(2).map(|w| m.get(w[0], w[1]) as u128).sum();
    if closed && order.len() >= 2 {
        total += m.get(order[order.len() - 1], order[0]) as u128;
    }
    total
}

#[test]
fn closed_tour_reaches_grid_optimum() {
    // A 2×4 grid has a Hamiltonian cycle of eight unit edges; nothing beats 8.0.
    let pts = grid_2xk(4);
    let m = matrix(&pts);
    let out = solve(
        &m,
        &SolveConfig {
            closed: true,
            ..cfg()
        },
    );
    assert!(is_permutation(&out.order, 8));
    assert!((metres(out.cost) - 8.0).abs() < 1e-6, "closed cost {}", out.cost);
}

#[test]
fn open_path_reaches_grid_optimum() {
    // The open path drops one unit edge from the optimal cycle: 7.0.
    let pts = grid_2xk(4);
    let m = matrix(&pts);
    let out = solve(&m, &cfg());
    assert!(is_permutation(&out.order, 8));
    assert!((metres(out.cost) - 7.0).abs() < 1e-6, "open cost {}", out.cost);
}

#[test]
fn tiny_square_known_optimum() {
    let pts = vec![(0.0, 0.0), (1.0, 0.0), (1.0, 1.0), (0.0, 1.0)];
    let m = matrix(&pts);

    let closed = solve(
        &m,
        &SolveConfig {
            closed: true,
            ..cfg()
        },
    );
    assert!((metres(closed.cost) - 4.0).abs() < 1e-6, "closed {}", closed.cost);

    let open = solve(&m, &cfg());
    assert!((metres(open.cost) - 3.0).abs() < 1e-6, "open {}", open.cost);
}

#[test]
fn deterministic_same_seed_same_route() {
    let pts = grid_2xk(5); // 10 nodes
    let m = matrix(&pts);
    let a = solve(&m, &cfg());
    let b = solve(&m, &cfg());
    assert_eq!(a.order, b.order, "route must be byte-identical");
    assert_eq!(a.cost, b.cost);
}

#[test]
fn fixed_start_is_first_node() {
    let pts = grid_2xk(4);
    let m = matrix(&pts);

    let closed = solve(
        &m,
        &SolveConfig {
            closed: true,
            start: Some(3),
            ..cfg()
        },
    );
    assert_eq!(closed.order[0], 3);
    assert!(is_permutation(&closed.order, 8));
    // Fixing the start cannot beat the unconstrained cycle optimum.
    assert!((metres(closed.cost) - 8.0).abs() < 1e-6, "closed {}", closed.cost);

    let open = solve(
        &m,
        &SolveConfig {
            start: Some(2),
            ..cfg()
        },
    );
    assert_eq!(open.order[0], 2);
    assert!(is_permutation(&open.order, 8));
}

#[test]
fn reported_cost_is_the_cost_of_the_order() {
    let pts = grid_2xk(6);
    let m = matrix(&pts);
    for closed in [false, true] {
        for start in [None, Some(0), Some(7)] {
            let out = solve(
                &m,
                &SolveConfig {
                    closed,
                    start,
                    ..cfg()
                },
            );
            assert!(is_permutation(&out.order, 12));
            assert_eq!(out.cost, tour_cost(&m, &out.order, closed));
            if let Some(s) = start {
                assert_eq!(out.order[0], s);
            }
        }
    }
}

#[test]
fn tiny_inputs_need_no_search() {
    let empty = DistanceMatrix::from_fn(0, |_, _| 0);
    assert!(empty.is_empty());
    let out = solve(&empty, &cfg());
    assert!(out.order.is_empty());
    assert_eq!(out.cost, 0);

    let one = DistanceMatrix::from_fn(1, |_, _| 5);
    assert_eq!(one.len(), 1);
    let out = solve(&one, &SolveConfig { closed: true, ..cfg() });
    assert_eq!(out.order, [0]);
    assert_eq!(out.cost, 0);
}

#[test]
fn no_worse_than_the_greedy_start_on_a_line() {
    // Points on a line: the optimal open path walks them in order.
    let pts: Vec<(f64, f64)> = [0.0, 5.0, 1.0, 4.0, 2.0, 3.0].iter().map(|&x| (x, 0.0)).collect();
    let m = matrix(&pts);
    let out = solve(&m, &cfg());
    assert_eq!(out.cost, 5_000_000);
    let closed = solve(&m, &SolveConfig { closed: true, ..cfg() });
    assert_eq!(closed.cost, 10_000_000);
}

#[test]
fn wall_clock_budget_still_returns_a_valid_tour() {
    let pts = grid_2xk(5);
    let m = matrix(&pts);
    let out = solve(
        &m,
        &SolveConfig {
            time_ms: 5,
            max_iters: 1_000_000,
            restarts: 2,
            ..cfg()
        },
    );
    assert!(is_permutation(&out.order, 10));
    assert_eq!(out.cost, tour_cost(&m, &out.order, false));
}

#[test]
fn default_config_matches_the_cli_defaults() {
    let d = SolveConfig::default();
    assert_eq!(d.seed, 42);
    assert_eq!(d.restarts, 16);
    assert_eq!(d.time_ms, 800);
    assert_eq!(d.max_iters, 100_000);
    assert!(!d.closed);
    assert_eq!(d.start, None);
}

#[test]
fn closed_route_admits_no_improving_reversal() {
    let pts: Vec<(f64, f64)> = (0..9)
        .map(|i| {
            let a = i as f64 * 2.3;
            (a.cos() * 7.0, (a * 0.7).sin() * 5.0)
        })
        .collect();
    let m = matrix(&pts);
    let out = solve(
        &m,
        &SolveConfig {
            closed: true,
            ..cfg()
        },
    );
    let t = &out.order;
    let n = t.len();
    for i in 1..n - 1 {
        for j in i + 1..n {
            let d = t[(j + 1) % n];
            let new_pair = m.get(t[i - 1], t[j]) as u128 + m.get(t[i], d) as u128;
            let old_pair = m.get(t[i - 1], t[i]) as u128 + m.get(t[j], d) as u128;
            assert!(new_pair >= old_pair, "reversing {i}..={j} would help");
        }
    }
}
