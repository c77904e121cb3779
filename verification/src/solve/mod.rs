//! Route search: construction, local search, and the iterated-local-search driver.
//!
//! All local search runs on a **cyclic** tour with a frozen leading prefix of `lock`
//! positions. A closed tour uses the nodes themselves as the cycle (`lock = 1`); an
//! open path is closed into a cycle by a zero-cost *dummy* node at position 0 (`lock =
//! 1`, or `lock = 2` with a fixed start right after it). Moves never touch the locked
//! prefix.

pub mod construct;
pub mod ils;
pub mod random;
pub mod two_opt;

use rand::rngs::StdRng;
use rayon::prelude::{IntoParallelIterator, ParallelIterator};
use vstd::prelude::*;

use crate::distance::DistanceMatrix;
use crate::tour::{
    bounded_weight, cycle_sum, is_permutation, lemma_cycle_concat, lemma_cycle_rotate,
    lemma_path_bounds, path_sum, range_seq, symmetric_on,
};
use construct::{best_nearest_neighbor, best_nn_start, matrix_weight, nearest_neighbor, nn_order};
use random::{random_index, seeded_rng};
use two_opt::{local_optimum, local_search, same_nodes_fixed_prefix, search_ready};

verus! {

/// Edge-cost lookup that treats the optional open-path dummy node as zero-cost.
pub struct Cost<'a> {
    pub matrix: &'a DistanceMatrix,
    pub dummy: Option<usize>,
}

impl<'a> Cost<'a> {
    /// The dummy, when present, is the node just past the matrix.
    pub open spec fn wf(self) -> bool {
        match self.dummy {
            Some(x) => x == self.matrix.size(),
            None => true,
        }
    }

    /// Number of nodes a tour over this cost visits (the dummy included).
    pub open spec fn nodes(self) -> nat {
        match self.dummy {
            Some(_) => self.matrix.size() + 1,
            None => self.matrix.size(),
        }
    }

    /// Cost of the edge between `a` and `b` (0 if either is the dummy).
    pub open spec fn edge(self, a: usize, b: usize) -> int {
        if self.dummy == Some(a) || self.dummy == Some(b) {
            0
        } else {
            self.matrix.entry(a as int, b as int)
        }
    }

    /// [`Cost::edge`] as a weight function.
    pub open spec fn weight(self) -> spec_fn(usize, usize) -> int {
        |a: usize, b: usize| self.edge(a, b)
    }

    /// Perceived cost of the edge between nodes `a` and `b` (0 if either is the dummy).
    pub fn d(&self, a: usize, b: usize) -> (r: u64)
        requires
            self.wf(),
            a < self.nodes(),
            b < self.nodes(),
        ensures
            r == self.edge(a, b),
    {
        match self.dummy {
            Some(x) => {
                if x == a || x == b {
                    0
                } else {
                    self.matrix.get(a, b)
                }
            },
            None => self.matrix.get(a, b),
        }
    }
}

/// Edge weights are bounded, and symmetric whenever the matrix is.
pub proof fn lemma_cost_weight(c: Cost, t: Seq<usize>)
    requires
        c.wf(),
        forall|i: int| 0 <= i < t.len() ==> #[trigger] t[i] < c.nodes(),
    ensures
        bounded_weight(c.weight()),
        c.matrix.is_symmetric() ==> symmetric_on(c.weight(), t),
{
    assert forall|a: usize, b: usize| 0 <= #[trigger] c.weight()(a, b) <= u64::MAX by {
        c.matrix.lemma_entry_bounds(a as int, b as int);
    }
    if c.matrix.is_symmetric() {
        assert forall|a: usize, b: usize| t.contains(a) && t.contains(b) implies #[trigger] c.weight()(
            a,
            b,
        ) == c.weight()(b, a) by {
            let ia = choose|i: int| 0 <= i < t.len() && t[i] == a;
            let ib = choose|i: int| 0 <= i < t.len() && t[i] == b;
            assert(t[ia] < c.nodes());
            assert(t[ib] < c.nodes());
            if c.dummy != Some(a) && c.dummy != Some(b) {
                assert(c.matrix.entry(a as int, b as int) == c.matrix.entry(b as int, a as int));
            }
        }
    }
}

/// Total cost of a cyclic tour (sum of every edge, including the wrap-around).
pub fn cycle_cost(cost: &Cost, tour: &Vec<usize>) -> (r: u128)
    requires
        cost.wf(),
        forall|i: int| 0 <= i < tour@.len() ==> #[trigger] tour@[i] < cost.nodes(),
    ensures
        r == cycle_sum(cost.weight(), tour@),
{
    let len = tour.len();
    if len < 2 {
        return 0;
    }
    let ghost w = cost.weight();
    proof {
        lemma_cost_weight(*cost, tour@);
    }
    let mut total: u128 = 0;
    let mut k: usize = 0;
    while k + 1 < len
        invariant
            len == tour@.len(),
            len >= 2,
            k + 1 <= len,
            cost.wf(),
            w == cost.weight(),
            bounded_weight(w),
            forall|i: int| 0 <= i < tour@.len() ==> #[trigger] tour@[i] < cost.nodes(),
            total == path_sum(w, tour@.take(k + 1)),
        decreases len - k,
    {
        let e = cost.d(tour[k], tour[k + 1]);
        proof {
            let pre = tour@.take(k + 2);
            assert(pre.drop_last() =~= tour@.take(k + 1));
            lemma_path_bounds(w, tour@.take(k + 1));
            assert(k * u64::MAX + u64::MAX <= u128::MAX) by (nonlinear_arith)
                requires
                    k < usize::MAX,
            ;
        }
        total = total + e as u128;
        k = k + 1;
    }
    proof {
        assert(tour@.take(len as int) =~= tour@);
        lemma_path_bounds(w, tour@);
        assert((len - 1) * u64::MAX + u64::MAX <= u128::MAX) by (nonlinear_arith)
            requires
                len <= usize::MAX,
        ;
    }
    let last = cost.d(tour[len - 1], tour[0]);
    total + last as u128
}

/// Knobs for [`solve`].
#[derive(Debug, Clone, Copy)]
pub struct SolveConfig {
    /// Base RNG seed; restart `r` derives the child seed `seed ^ r`.
    pub seed: u64,
    /// Number of independent ILS chains run in parallel; the global best wins.
    pub restarts: usize,
    /// Wall-clock budget per restart in milliseconds; `0` disables the time limit.
    pub time_ms: u64,
    /// Hard cap on ILS iterations per restart (the deterministic stopping criterion).
    pub max_iters: usize,
    /// Return to the start (closed tour) instead of an open path.
    pub closed: bool,
    /// Fixed first node (index into the distance matrix), or `None` to let the
    /// solver choose the best start.
    pub start: Option<usize>,
}

impl Default for SolveConfig {
    fn default() -> (r: Self)
        ensures
            r.seed == 42,
            r.restarts == 16,
            r.time_ms == 800,
            r.max_iters == 100_000,
            !r.closed,
            r.start is None,
    {
        SolveConfig {
            seed: 42,
            restarts: 16,
            time_ms: 800,
            max_iters: 100_000,
            closed: false,
            start: None,
        }
    }
}

/// The chosen route: node indices in visit order, plus the total perceived cost.
#[derive(Debug, Clone)]
pub struct SolveOutcome {
    /// Node indices (into the distance matrix) in visit order; the start is first.
    pub order: Vec<usize>,
    /// Total perceived cost (includes the return leg when `closed`).
    pub cost: u128,
}

/// Deterministic child seed for restart `r` (see [`SolveConfig::seed`]).
pub fn child_seed(base: u64, r: usize) -> (s: u64)
    ensures
        s == base ^ (r as u64),
{
    base ^ r as u64
}

/// The cost a tour of `order` is charged: the open path, or the cycle when `closed`.
pub open spec fn route_cost(m: DistanceMatrix, order: Seq<usize>, closed: bool) -> int {
    if closed {
        cycle_sum(matrix_weight(m), order)
    } else {
        path_sum(matrix_weight(m), order)
    }
}

/// The greedy ordering the first restart starts from: nearest-neighbour from the fixed
/// start, or the best nearest-neighbour ordering over every start.
pub open spec fn greedy_seed(m: DistanceMatrix, config: SolveConfig) -> Seq<usize> {
    match config.start {
        Some(s) => nn_order(m, m.size(), s),
        None => nn_order(m, m.size(), best_nn_start(m, m.size())),
    }
}

/// The cost view of a search over `m` in the mode `config` asks for.
pub open spec fn search_cost(m: &DistanceMatrix, config: SolveConfig) -> Cost {
    Cost {
        matrix: m,
        dummy: if config.closed {
            None
        } else {
            Some(m.size() as usize)
        },
    }
}

/// What the solver needs of its input: a symmetric matrix with at least two nodes,
/// a fixed start (if any) among them, and room for the dummy node.
pub open spec fn solvable(m: DistanceMatrix, config: SolveConfig) -> bool {
    &&& m.size() >= 2
    &&& m.size() + 1 <= usize::MAX
    &&& m.is_symmetric()
    &&& config.start matches Some(s) ==> s < m.size()
}

/// The cyclic tour the search works on for a route `order`: the route itself when
/// closed, else the route after the zero-cost dummy node.
pub open spec fn search_tour(m: DistanceMatrix, config: SolveConfig, order: Seq<usize>) -> Seq<
    usize,
> {
    if config.closed {
        order
    } else {
        seq![m.size() as usize] + order
    }
}

/// How many restarts `solve` runs for `config`: at least one.
pub open spec fn restart_count(config: SolveConfig) -> int {
    if config.restarts > 1 {
        config.restarts as int
    } else {
        1
    }
}

/// `out` is the pick among the restart results `results`: the cheapest, the earliest
/// restart on ties, read as a route.
pub open spec fn best_of_restarts(
    m: DistanceMatrix,
    config: SolveConfig,
    results: Seq<(u128, Vec<usize>)>,
    best: int,
    out: SolveOutcome,
) -> bool {
    &&& 0 <= best < results.len()
    &&& out.cost == results[best].0
    &&& search_tour(m, config, out.order@) == results[best].1@
    &&& forall|r: int| 0 <= r < results.len() ==> out.cost <= #[trigger] results[r].0
    &&& forall|r: int| 0 <= r < best ==> out.cost < #[trigger] results[r].0
}

/// How many locked positions a search in mode `config` starts with.
pub open spec fn lock_for(config: SolveConfig) -> int {
    if !config.closed && config.start is Some {
        2
    } else {
        1
    }
}

/// `tour` is a cyclic tour the search may work on: every node once, the dummy first in
/// open mode, the fixed start right after it (or first, when closed).
pub open spec fn well_placed(c: Cost, config: SolveConfig, tour: Seq<usize>) -> bool {
    let n = c.matrix.size();
    &&& is_permutation(tour, c.nodes())
    &&& !config.closed ==> tour[0] == n
    &&& config.start matches Some(s) ==> tour[lock_for(config) - 1] == s
}

/// The result of one restart: a well-placed 2-opt + Or-opt local optimum and its exact
/// cycle cost, no dearer than the greedy seed for restart 0.
pub open spec fn restart_ok(
    c: Cost,
    config: SolveConfig,
    r: int,
    res: (u128, Vec<usize>),
) -> bool {
    &&& well_placed(c, config, res.1@)
    &&& res.0 == cycle_sum(c.weight(), res.1@)
    &&& local_optimum(c.weight(), res.1@, lock_for(config))
    &&& r == 0 ==> res.0 <= route_cost(*c.matrix, greedy_seed(*c.matrix, config), config.closed)
}

/// A cycle through the zero-cost dummy costs the open path through the others.
proof fn lemma_dummy_cycle(c: Cost, order: Seq<usize>)
    requires
        c.wf(),
        c.dummy is Some,
        order.len() >= 1,
        forall|i: int| 0 <= i < order.len() ==> #[trigger] order[i] < c.matrix.size(),
    ensures
        cycle_sum(c.weight(), seq![c.matrix.size() as usize] + order) == path_sum(
            matrix_weight(*c.matrix),
            order,
        ),
{
    let d = seq![c.matrix.size() as usize];
    lemma_cycle_concat(c.weight(), d, order);
    lemma_path_agree(c, order);
}

/// Along real nodes, the search's edge costs are the matrix entries.
pub proof fn lemma_path_agree(c: Cost, order: Seq<usize>)
    requires
        c.wf(),
        forall|i: int| 0 <= i < order.len() ==> #[trigger] order[i] < c.matrix.size(),
    ensures
        path_sum(c.weight(), order) == path_sum(matrix_weight(*c.matrix), order),
        order.len() >= 1 ==> cycle_sum(c.weight(), order) == cycle_sum(
            matrix_weight(*c.matrix),
            order,
        ),
    decreases order.len(),
{
    if order.len() >= 2 {
        lemma_path_agree(c, order.drop_last());
        assert(order[order.len() - 2] < c.matrix.size());
        assert(order[order.len() - 1] < c.matrix.size());
        assert(order[0] < c.matrix.size());
    }
}

/// The nodes after the dummy, read round the cycle, are every real node once.
proof fn lemma_rotation_without_dummy(t: Seq<usize>, pos: int, n: nat)
    requires
        is_permutation(t, n + 1),
        0 <= pos < t.len(),
        t[pos] == n,
    ensures
        is_permutation(t.skip(pos + 1) + t.take(pos), n),
        t.skip(pos) + t.take(pos) == seq![n as usize] + (t.skip(pos + 1) + t.take(pos)),
{
    let o = t.skip(pos + 1) + t.take(pos);
    let l = t.len() as int;
    assert(t.skip(pos) + t.take(pos) =~= seq![n as usize] + o);
    assert forall|i: int| 0 <= i < o.len() implies o[i] == t[if i < l - pos - 1 {
        pos + 1 + i
    } else {
        i - (l - pos - 1)
    }] by {}
    assert forall|i: int| 0 <= i < o.len() implies #[trigger] o[i] < n by {
        let j = if i < l - pos - 1 {
            pos + 1 + i
        } else {
            i - (l - pos - 1)
        };
        assert(o[i] == t[j]);
        assert(j != pos);
        if j < pos {
            assert(t[j] != t[pos]);
        } else {
            assert(t[pos] != t[j]);
        }
    }
    assert forall|i: int, k: int| 0 <= i < k < o.len() implies o[i] != o[k] by {
        let ji = if i < l - pos - 1 {
            pos + 1 + i
        } else {
            i - (l - pos - 1)
        };
        let jk = if k < l - pos - 1 {
            pos + 1 + k
        } else {
            k - (l - pos - 1)
        };
        assert(o[i] == t[ji]);
        assert(o[k] == t[jk]);
        assert(ji != jk);
        if ji < jk {
            assert(t[ji] != t[jk]);
        } else {
            assert(t[jk] != t[ji]);
        }
    }
}

/// Build the initial cyclic tour for restart `r`, and report how many leading
/// positions are locked.
fn initial_tour(cost: &Cost, n_real: usize, config: &SolveConfig, rng: &mut StdRng, r: usize) -> (res: (
    Vec<usize>,
    usize,
))
    requires
        solvable(*cost.matrix, *config),
        *cost == search_cost(cost.matrix, *config),
        n_real == cost.matrix.size(),
    ensures
        well_placed(*cost, *config, res.0@),
        res.1 == lock_for(*config),
        r == 0 ==> cycle_sum(cost.weight(), res.0@) == route_cost(
            *cost.matrix,
            greedy_seed(*cost.matrix, *config),
            config.closed,
        ),
{
    let ghost m = *cost.matrix;
    // The ordering of the real nodes, beginning at the required or chosen start.
    let seq = match config.start {
        Some(s) => nearest_neighbor(cost, n_real, s),
        None => {
            if r == 0 {
                best_nearest_neighbor(cost, n_real)
            } else {
                nearest_neighbor(cost, n_real, rand_start(n_real, rng))
            }
        },
    };
    proof {
        match config.start {
            Some(s) => {
                construct::lemma_nn_unique(m, m.size(), s, seq@, nn_order(m, m.size(), s));
            },
            None => {
                if r == 0 {
                    construct::lemma_best_nn_start(m, m.size(), seq@);
                }
            },
        }
        if r == 0 {
            assert(seq@ == greedy_seed(m, *config));
        }
        assert forall|i: int| 0 <= i < seq@.len() implies #[trigger] seq@[i] < m.size() by {}
    }
    if config.closed {
        // The nodes are the cycle; position 0 is the (anchored) start.
        proof {
            lemma_path_agree(*cost, seq@);
        }
        (seq, 1)
    } else {
        // Prepend the zero-cost dummy to close the path into a cycle.
        let dummy = n_real;
        let mut tour: Vec<usize> = Vec::new();
        tour.push(dummy);
        two_opt::extend_range(&mut tour, &seq, 0, n_real);
        let lock = if config.start.is_some() {
            2
        } else {
            1
        };
        proof {
            assert(seq@.subrange(0, n_real as int) =~= seq@);
            assert(tour@ =~= seq![dummy] + seq@);
            lemma_dummy_cycle(*cost, seq@);
            assert forall|i: int| 0 <= i < tour@.len() implies #[trigger] tour@[i] < cost.nodes() by {
                if i > 0 {
                    assert(tour@[i] == seq@[i - 1]);
                }
            }
            assert forall|i: int, j: int| 0 <= i < j < tour@.len() implies tour@[i] != tour@[j] by {
                if i > 0 {
                    assert(tour@[i] == seq@[i - 1]);
                }
                assert(tour@[j] == seq@[j - 1]);
            }
        }
        (tour, lock)
    }
}

/// A uniformly random real-node index, used as a diversified NN start.
fn rand_start(n_real: usize, rng: &mut StdRng) -> (s: usize)
    requires
        n_real >= 1,
    ensures
        s < n_real,
{
    random_index(rng, 0, n_real)
}

/// One independent ILS chain: seed it, build its initial tour, optimise it.
pub fn run_restart(cost: &Cost, n_real: usize, config: &SolveConfig, r: usize) -> (res: (
    u128,
    Vec<usize>,
))
    requires
        solvable(*cost.matrix, *config),
        *cost == search_cost(cost.matrix, *config),
        n_real == cost.matrix.size(),
    ensures
        restart_ok(*cost, *config, r as int, res),
{
    let mut rng = seeded_rng(child_seed(config.seed, r));
    let (mut tour, lock) = initial_tour(cost, n_real, config, &mut rng, r);
    let ghost t0 = tour@;
    local_search(cost, &mut tour, lock);
    proof {
        crate::tour::lemma_permutation_by_multiset(t0, tour@, cost.nodes());
    }
    ils::run(cost, &mut tour, lock, &mut rng, config);
    proof {
        crate::tour::lemma_permutation_by_multiset(t0, tour@, cost.nodes());
        assert(tour@[lock_for(*config) - 1] == t0[lock_for(*config) - 1]);
        assert(tour@[0] == t0[0]);
    }
    let c = cycle_cost(cost, &tour);
    (c, tour)
}

/// Calls rayon's `into_par_iter().map(..).collect()` over the restart indices
/// `0..count`, each mapped by the verified [`run_restart`]. rayon collects an indexed
/// parallel iterator into a `Vec` in index order, so element `r` is restart `r`'s
/// result and meets [`run_restart`]'s postcondition.
#[verifier::external_body]
fn run_restarts(cost: &Cost, n_real: usize, config: &SolveConfig, count: usize) -> (results: Vec<(u128, Vec<usize>)>)
    requires
        solvable(*cost.matrix, *config),
        *cost == search_cost(cost.matrix, *config),
        n_real == cost.matrix.size(),
    ensures
        results@.len() == count,
        forall|r: int| 0 <= r < count ==> restart_ok(*cost, *config, r, #[trigger] results@[r]),
{
    (0..count).into_par_iter().map(|r| run_restart(cost, n_real, config, r)).collect()
}

/// Recover the real-node visit order from a finished cyclic tour: the tour itself when
/// closed, else the nodes after the dummy, wrapping around.
fn extract_order(tour: &Vec<usize>, config: &SolveConfig, n_real: usize) -> (order: Vec<usize>)
    requires
        tour@.len() >= 1,
        2 * tour@.len() <= usize::MAX,
        !config.closed ==> tour@.contains(n_real),
    ensures
        config.closed ==> order@ == tour@,
        !config.closed ==> exists|pos: int|
            0 <= pos < tour@.len() && tour@[pos] == n_real && order@ == tour@.skip(pos + 1)
                + tour@.take(pos),
{
    if config.closed {
        let o = tour.clone();
        proof {
            assert(o@ =~= tour@);
        }
        o
    } else {
        // Drop the dummy; the path is everything after it, wrapping around.
        let dummy = n_real;
        let len = tour.len();
        let mut pos: usize = 0;
        let mut found = false;
        let mut q: usize = 0;
        while q < len
            invariant
                len == tour@.len(),
                q <= len,
                found ==> pos < len && tour@[pos as int] == dummy,
                !found ==> forall|i: int| 0 <= i < q ==> tour@[i] != dummy,
            decreases len - q,
        {
            if !found && tour[q] == dummy {
                pos = q;
                found = true;
            }
            q = q + 1;
        }
        proof {
            if !found {
                let i = choose|i: int| 0 <= i < tour@.len() && tour@[i] == dummy;
                assert(tour@[i] != dummy);
            }
        }
        let mut order: Vec<usize> = Vec::new();
        let mut k: usize = 1;
        while k < len
            invariant
                len == tour@.len(),
                2 * len <= usize::MAX,
                pos < len,
                1 <= k <= len,
                order@.len() == k - 1,
                forall|i: int| 0 <= i < k - 1 ==> #[trigger] order@[i] == tour@[(pos + 1 + i) % (len as int)],
            decreases len - k,
        {
            proof {
                assert((pos + k) < 2 * len);
            }
            order.push(tour[(pos + k) % len]);
            k = k + 1;
        }
        proof {
            let target = tour@.skip(pos + 1) + tour@.take(pos as int);
            assert forall|i: int| 0 <= i < len - 1 implies #[trigger] order@[i] == target[i] by {
                if pos + 1 + i < len {
                    vstd::arithmetic::div_mod::lemma_small_mod((pos + 1 + i) as nat, len as nat);
                } else {
                    vstd::arithmetic::div_mod::lemma_mod_add_multiples_vanish(
                        (pos + 1 + i - len) as int,
                        len as int,
                    );
                    vstd::arithmetic::div_mod::lemma_small_mod((pos + 1 + i - len) as nat, len as nat);
                }
            }
            assert(order@ =~= target);
        }
        order
    }
}

/// Pick the route of the cheapest restart result, the earliest restart on ties.
pub fn select_best(
    matrix: &DistanceMatrix,
    config: &SolveConfig,
    results: &Vec<(u128, Vec<usize>)>,
) -> (out: SolveOutcome)
    requires
        solvable(*matrix, *config),
        results@.len() >= 1,
        forall|r: int|
            0 <= r < results@.len() ==> restart_ok(
                search_cost(matrix, *config),
                *config,
                r,
                #[trigger] results@[r],
            ),
    ensures
        exists|b: int| best_of_restarts(*matrix, *config, results@, b, out),
        is_permutation(out.order@, matrix.size()),
        out.cost == route_cost(*matrix, out.order@, config.closed),
        config.start matches Some(s) ==> out.order@[0] == s,
        out.cost <= route_cost(*matrix, greedy_seed(*matrix, *config), config.closed),
        local_optimum(
            search_cost(matrix, *config).weight(),
            search_tour(*matrix, *config, out.order@),
            lock_for(*config),
        ),
{
    let n_real = matrix.len();
    let count = results.len();
    let ghost cost = search_cost(matrix, *config);
    let mut best: usize = 0;
    let mut r: usize = 1;
    while r < count
        invariant
            results@.len() == count,
            1 <= r <= count,
            best < r,
            forall|i: int| 0 <= i < r ==> results@[best as int].0 <= #[trigger] results@[i].0,
            forall|i: int| 0 <= i < best ==> results@[best as int].0 < #[trigger] results@[i].0,
        decreases count - r,
    {
        if results[r].0 < results[best].0 {
            best = r;
        }
        r = r + 1;
    }
    let best_cost = results[best].0;
    let best_tour = &results[best].1;
    proof {
        assert(restart_ok(cost, *config, best as int, results@[best as int]));
        assert(restart_ok(cost, *config, 0, results@[0]));
    }
    proof {
        assert(2 * (n_real + 1) <= usize::MAX) by (nonlinear_arith)
            requires
                n_real >= 2,
                n_real * n_real <= usize::MAX,
                usize::MAX >= 0xffff_ffff,
        ;
        if !config.closed {
            assert(best_tour@[0] == n_real);
            assert(best_tour@.contains(n_real));
        }
    }
    let order = extract_order(best_tour, config, n_real);
    proof {
        let t = best_tour@;
        let w = cost.weight();
        if config.closed {
            assert forall|i: int| 0 <= i < t.len() implies #[trigger] t[i] < cost.matrix.size() by {}
            lemma_path_agree(cost, t);
        } else {
            let pos = choose|pos: int|
                0 <= pos < t.len() && t[pos] == n_real && order@ == t.skip(pos + 1) + t.take(pos);
            assert(pos == 0) by {
                if pos != 0 {
                    assert(t[0] == t[pos]);
                }
            }
            assert(t =~= seq![n_real] + order@);
            lemma_rotation_without_dummy(t, pos, n_real as nat);
            assert(t =~= t.take(pos) + t.skip(pos));
            if pos > 0 {
                lemma_cycle_rotate(w, t.take(pos), t.skip(pos));
            }
            assert forall|i: int| 0 <= i < order@.len() implies #[trigger] order@[i] < cost.matrix.size() by {}
            lemma_dummy_cycle(cost, order@);
        }
    }
    let out = SolveOutcome { order, cost: best_cost };
    proof {
        assert(search_tour(*matrix, *config, out.order@) == best_tour@);
        assert(best_of_restarts(*matrix, *config, results@, best as int, out));
    }
    out
}

/// Plan a route over `matrix` under `config`.
///
/// Runs `config.restarts` independent ILS chains in parallel (each with a deterministic
/// child seed) and keeps the global best (the earliest restart on ties). The route
/// visits every node once, starts at the fixed start when one is given, is charged
/// exactly what it costs, and is never dearer than the greedy nearest-neighbour route
/// the first chain starts from.
pub fn solve(matrix: &DistanceMatrix, config: &SolveConfig) -> (out: SolveOutcome)
    requires
        matrix.is_symmetric(),
        matrix.size() >= 2 ==> (config.start matches Some(s) ==> s < matrix.size()),
    ensures
        is_permutation(out.order@, matrix.size()),
        matrix.size() <= 1 ==> out.order@ == range_seq(matrix.size()) && out.cost == 0,
        matrix.size() >= 2 ==> out.cost == route_cost(*matrix, out.order@, config.closed),
        matrix.size() >= 2 ==> (config.start matches Some(s) ==> out.order@[0] == s),
        matrix.size() >= 2 ==> out.cost <= route_cost(
            *matrix,
            greedy_seed(*matrix, *config),
            config.closed,
        ),
        matrix.size() >= 2 ==> local_optimum(
            search_cost(matrix, *config).weight(),
            search_tour(*matrix, *config, out.order@),
            lock_for(*config),
        ),
        matrix.size() >= 2 ==> exists|results: Seq<(u128, Vec<usize>)>, best: int|
            {
                &&& results.len() == restart_count(*config)
                &&& forall|r: int|
                    0 <= r < results.len() ==> restart_ok(
                        search_cost(matrix, *config),
                        *config,
                        r,
                        #[trigger] results[r],
                    )
                &&& best_of_restarts(*matrix, *config, results, best, out)
            },
{
    let n_real = matrix.len();
    if n_real <= 1 {
        let mut order: Vec<usize> = Vec::new();
        if n_real == 1 {
            order.push(0);
        }
        proof {
            assert(order@ =~= range_seq(matrix.size()));
        }
        return SolveOutcome { order, cost: 0 };
    }
    proof {
        assert(n_real + 1 <= n_real * n_real) by (nonlinear_arith)
            requires
                n_real >= 2,
        ;
    }
    let dummy = if config.closed {
        None
    } else {
        Some(n_real)
    };
    let cost = Cost { matrix, dummy };
    let count = if config.restarts > 1 {
        config.restarts
    } else {
        1
    };
    // Collect in restart order first, then reduce sequentially, so ties break
    // deterministically regardless of how the work is scheduled.
    let results = run_restarts(&cost, n_real, config, count);
    let out = select_best(matrix, config, &results);
    proof {
        let b = choose|b: int| best_of_restarts(*matrix, *config, results@, b, out);
        assert(best_of_restarts(*matrix, *config, results@, b, out));
    }
    out
}

} // verus!
