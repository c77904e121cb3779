//! Nearest-neighbour tour construction (with optional multi-start).

use vstd::prelude::*;

use super::{lemma_cost_weight, Cost};
use crate::distance::DistanceMatrix;
use crate::tour::{is_permutation, lemma_path_bounds, path_sum};

verus! {

/// `x` is the node a greedy step from `cur` takes next: unvisited, no farther than any
/// other unvisited node, and the lowest-numbered among the nearest.
pub open spec fn nearest_unvisited(
    m: DistanceMatrix,
    n: nat,
    visited: Seq<usize>,
    cur: usize,
    x: usize,
) -> bool {
    &&& x < n
    &&& !visited.contains(x)
    &&& forall|y: usize|
        y < n && !visited.contains(y) ==> m.entry(cur as int, x as int) <= #[trigger] m.entry(
            cur as int,
            y as int,
        )
    &&& forall|y: usize|
        y < x && !visited.contains(y) ==> m.entry(cur as int, x as int) < #[trigger] m.entry(
            cur as int,
            y as int,
        )
}

/// `order` is the greedy nearest-neighbour ordering of all `n` nodes from `start`.
pub open spec fn is_nn_order(m: DistanceMatrix, n: nat, start: usize, order: Seq<usize>) -> bool {
    &&& order.len() == n
    &&& order[0] == start
    &&& forall|k: int|
        0 <= k < n - 1 ==> nearest_unvisited(
            m,
            n,
            order.take(k + 1),
            order[k],
            #[trigger] order[k + 1],
        )
}

/// The greedy nearest-neighbour ordering from `start` (unique, see [`lemma_nn_unique`]).
pub open spec fn nn_order(m: DistanceMatrix, n: nat, start: usize) -> Seq<usize> {
    choose|o: Seq<usize>| is_nn_order(m, n, start, o)
}

/// `s` is the start whose greedy ordering has the cheapest open path (the
/// lowest-numbered such start on ties).
pub open spec fn is_best_nn_start(m: DistanceMatrix, n: nat, s: usize) -> bool {
    &&& s < n
    &&& forall|s2: usize|
        s2 < n ==> path_sum(matrix_weight(m), nn_order(m, n, s)) <= path_sum(
            matrix_weight(m),
            #[trigger] nn_order(m, n, s2),
        )
    &&& forall|s2: usize|
        s2 < s ==> path_sum(matrix_weight(m), nn_order(m, n, s)) < path_sum(
            matrix_weight(m),
            #[trigger] nn_order(m, n, s2),
        )
}

/// The start [`best_nearest_neighbor`] settles on.
pub open spec fn best_nn_start(m: DistanceMatrix, n: nat) -> usize {
    choose|s: usize| is_best_nn_start(m, n, s)
}

/// The best start is unique, so an ordering from any best start is the one from
/// [`best_nn_start`].
pub proof fn lemma_best_nn_start(m: DistanceMatrix, n: nat, order: Seq<usize>)
    requires
        exists|s: usize| is_best_nn_start(m, n, s) && order == nn_order(m, n, s),
    ensures
        order == nn_order(m, n, best_nn_start(m, n)),
{
    let s = choose|s: usize| is_best_nn_start(m, n, s) && order == nn_order(m, n, s);
    let b = best_nn_start(m, n);
    assert(is_best_nn_start(m, n, b));
    if s < b {
        assert(path_sum(matrix_weight(m), nn_order(m, n, b)) < path_sum(
            matrix_weight(m),
            nn_order(m, n, s),
        ));
    } else if b < s {
        assert(path_sum(matrix_weight(m), nn_order(m, n, s)) < path_sum(
            matrix_weight(m),
            nn_order(m, n, b),
        ));
    }
}

/// The matrix entries as a weight function.
pub open spec fn matrix_weight(m: DistanceMatrix) -> spec_fn(usize, usize) -> int {
    |a: usize, b: usize| m.entry(a as int, b as int)
}

/// Two greedy steps from the same place pick the same node.
proof fn lemma_nearest_unique(
    m: DistanceMatrix,
    n: nat,
    visited: Seq<usize>,
    cur: usize,
    x1: usize,
    x2: usize,
)
    requires
        nearest_unvisited(m, n, visited, cur, x1),
        nearest_unvisited(m, n, visited, cur, x2),
    ensures
        x1 == x2,
{
    if x1 < x2 {
        assert(m.entry(cur as int, x2 as int) < m.entry(cur as int, x1 as int));
        assert(m.entry(cur as int, x1 as int) <= m.entry(cur as int, x2 as int));
    } else if x2 < x1 {
        assert(m.entry(cur as int, x1 as int) < m.entry(cur as int, x2 as int));
        assert(m.entry(cur as int, x2 as int) <= m.entry(cur as int, x1 as int));
    }
}

/// The greedy ordering from a start is unique.
pub proof fn lemma_nn_unique(m: DistanceMatrix, n: nat, start: usize, o1: Seq<usize>, o2: Seq<usize>)
    requires
        n >= 1,
        is_nn_order(m, n, start, o1),
        is_nn_order(m, n, start, o2),
    ensures
        o1 == o2,
{
    assert forall|k: int| 0 <= k < n implies o1[k] == o2[k] by {
        lemma_nn_prefix_equal(m, n, start, o1, o2, k);
        assert(o1.take(k + 1)[k] == o1[k]);
        assert(o2.take(k + 1)[k] == o2[k]);
    }
    assert(o1 =~= o2);
}

proof fn lemma_nn_prefix_equal(
    m: DistanceMatrix,
    n: nat,
    start: usize,
    o1: Seq<usize>,
    o2: Seq<usize>,
    k: int,
)
    requires
        n >= 1,
        is_nn_order(m, n, start, o1),
        is_nn_order(m, n, start, o2),
        0 <= k < n,
    ensures
        o1.take(k + 1) == o2.take(k + 1),
    decreases k,
{
    if k == 0 {
        assert(o1.take(1) =~= o2.take(1));
    } else {
        lemma_nn_prefix_equal(m, n, start, o1, o2, k - 1);
        assert(o1[k - 1] == o1.take(k)[k - 1]);
        assert(o2[k - 1] == o2.take(k)[k - 1]);
        assert(nearest_unvisited(m, n, o1.take(k), o1[k - 1], o1[k]));
        assert(nearest_unvisited(m, n, o2.take(k), o2[k - 1], o2[k]));
        lemma_nearest_unique(m, n, o1.take(k), o1[k - 1], o1[k], o2[k]);
        assert(o1.take(k + 1) =~= o1.take(k).push(o1[k]));
        assert(o2.take(k + 1) =~= o2.take(k).push(o2[k]));
    }
}

/// A greedy ordering visits every node once.
pub proof fn lemma_nn_is_permutation(m: DistanceMatrix, n: nat, start: usize, o: Seq<usize>)
    requires
        n >= 1,
        start < n,
        is_nn_order(m, n, start, o),
    ensures
        is_permutation(o, n),
{
    assert forall|i: int| 0 <= i < o.len() implies #[trigger] o[i] < n by {
        if i > 0 {
            let k = i - 1;
            assert(nearest_unvisited(m, n, o.take(k + 1), o[k], o[k + 1]));
        }
    }
    assert forall|i: int, j: int| 0 <= i < j < o.len() implies o[i] != o[j] by {
        let k = j - 1;
        assert(nearest_unvisited(m, n, o.take(k + 1), o[k], o[k + 1]));
        assert(o.take(j)[i] == o[i]);
        assert(o.take(j).contains(o[i]));
    }
}

/// Fewer than `n` distinct nodes below `n` leave one out.
proof fn lemma_exists_missing(s: Seq<usize>, n: nat)
    requires
        s.len() < n,
        n <= usize::MAX,
        forall|i: int| 0 <= i < s.len() ==> #[trigger] s[i] < n,
        s.no_duplicates(),
    ensures
        exists|y: usize| y < n && !s.contains(y),
    decreases n,
{
    let top = (n - 1) as usize;
    if !s.contains(top) {
        assert(top < n && !s.contains(top));
    } else {
        let idx = choose|i: int| 0 <= i < s.len() && s[i] == top;
        let r = s.remove(idx);
        assert forall|i: int| 0 <= i < r.len() implies #[trigger] r[i] < (n - 1) as nat by {
            if i < idx {
                assert(r[i] == s[i]);
                assert(s[i] != s[idx]);
            } else {
                assert(r[i] == s[i + 1]);
                assert(s[i + 1] != s[idx]);
            }
        }
        assert forall|i: int, j: int| 0 <= i < r.len() && 0 <= j < r.len() && i != j implies r[i]
            != r[j] by {
            let si = if i < idx {
                i
            } else {
                i + 1
            };
            let sj = if j < idx {
                j
            } else {
                j + 1
            };
            assert(r[i] == s[si]);
            assert(r[j] == s[sj]);
        }
        lemma_exists_missing(r, (n - 1) as nat);
        let y = choose|y: usize| y < (n - 1) as nat && !r.contains(y);
        assert(!s.contains(y)) by {
            if s.contains(y) {
                let iy = choose|i: int| 0 <= i < s.len() && s[i] == y;
                assert(y != top);
                assert(iy != idx);
                if iy < idx {
                    assert(r[iy] == y);
                } else {
                    assert(r[iy - 1] == y);
                }
            }
        }
    }
}

/// Greedy nearest-neighbour ordering of the `n_real` real nodes, beginning at `start`.
pub fn nearest_neighbor(cost: &Cost, n_real: usize, start: usize) -> (order: Vec<usize>)
    requires
        cost.wf(),
        n_real == cost.matrix.size(),
        start < n_real,
    ensures
        is_nn_order(*cost.matrix, n_real as nat, start, order@),
        is_permutation(order@, n_real as nat),
{
    let ghost m = *cost.matrix;
    let mut visited: Vec<bool> = Vec::new();
    let mut q: usize = 0;
    while q < n_real
        invariant
            q <= n_real,
            visited@.len() == q,
            forall|i: int| 0 <= i < q ==> !#[trigger] visited@[i],
        decreases n_real - q,
    {
        visited.push(false);
        q = q + 1;
    }
    let mut order: Vec<usize> = Vec::new();
    let mut cur = start;
    visited.set(cur, true);
    order.push(cur);
    proof {
        assert forall|x: usize| x < n_real implies #[trigger] visited@[x as int] == order@.contains(x) by {
            if x == start {
                assert(order@[0] == start);
            }
        }
    }
    let mut step: usize = 1;
    while step < n_real
        invariant
            cost.wf(),
            m == *cost.matrix,
            n_real == m.size(),
            start < n_real,
            1 <= step <= n_real,
            order@.len() == step,
            visited@.len() == n_real,
            order@[0] == start,
            cur == order@[step - 1],
            forall|x: usize| x < n_real ==> #[trigger] visited@[x as int] == order@.contains(x),
            forall|i: int| 0 <= i < order@.len() ==> #[trigger] order@[i] < n_real,
            order@.no_duplicates(),
            forall|k: int|
                0 <= k < step - 1 ==> nearest_unvisited(
                    m,
                    n_real as nat,
                    order@.take(k + 1),
                    order@[k],
                    #[trigger] order@[k + 1],
                ),
        decreases n_real - step,
    {
        let mut best: Option<usize> = None;
        let mut best_d: u64 = 0;
        let mut cand: usize = 0;
        while cand < n_real
            invariant
                cost.wf(),
                m == *cost.matrix,
                n_real == m.size(),
                cand <= n_real,
                visited@.len() == n_real,
                cur < n_real,
                forall|x: usize| x < n_real ==> #[trigger] visited@[x as int] == order@.contains(x),
                match best {
                    Some(b) => {
                        &&& b < cand
                        &&& !order@.contains(b)
                        &&& best_d == m.entry(cur as int, b as int)
                        &&& forall|y: usize|
                            y < cand && !order@.contains(y) ==> best_d <= #[trigger] m.entry(
                                cur as int,
                                y as int,
                            )
                        &&& forall|y: usize|
                            y < b && !order@.contains(y) ==> best_d < #[trigger] m.entry(
                                cur as int,
                                y as int,
                            )
                    },
                    None => forall|y: usize| y < cand ==> #[trigger] order@.contains(y),
                },
            decreases n_real - cand,
        {
            if !visited[cand] {
                let d = cost.d(cur, cand);
                let better = match best {
                    Some(_) => d < best_d,
                    None => true,
                };
                if better {
                    best_d = d;
                    best = Some(cand);
                }
            }
            cand = cand + 1;
        }
        proof {
            lemma_exists_missing(order@, n_real as nat);
        }
        let next = match best {
            Some(b) => b,
            None => {
                proof {
                    let y = choose|y: usize| y < n_real && !order@.contains(y);
                    assert(order@.contains(y));
                }
                0
            },
        };
        let ghost before = order@;
        visited.set(next, true);
        order.push(next);
        proof {
            assert(nearest_unvisited(m, n_real as nat, before, cur, next));
            assert(order@.take(step as int) =~= before);
            assert forall|k: int| 0 <= k < step implies nearest_unvisited(
                m,
                n_real as nat,
                order@.take(k + 1),
                order@[k],
                #[trigger] order@[k + 1],
            ) by {
                if k < step - 1 {
                    assert(order@.take(k + 1) =~= before.take(k + 1));
                    assert(order@[k + 1] == before[k + 1]);
                }
            }
            assert forall|x: usize| x < n_real implies #[trigger] visited@[x as int]
                == order@.contains(x) by {
                if x == next {
                    assert(order@[step as int] == next);
                } else {
                    if order@.contains(x) {
                        let i = choose|i: int| 0 <= i < order@.len() && order@[i] == x;
                        assert(i < step);
                        assert(before[i] == x);
                    }
                    if before.contains(x) {
                        let i = choose|i: int| 0 <= i < before.len() && before[i] == x;
                        assert(order@[i] == x);
                    }
                }
            }
            assert forall|i: int, j: int|
                0 <= i < order@.len() && 0 <= j < order@.len() && i != j implies order@[i]
                != order@[j] by {
                if i < step && j < step {
                    assert(before[i] != before[j]);
                } else if i == step {
                    assert(before.contains(order@[j]) || j == step);
                } else {
                    assert(before.contains(order@[i]));
                }
            }
        }
        cur = next;
        step = step + 1;
    }
    proof {
        lemma_nn_is_permutation(m, n_real as nat, start, order@);
    }
    order
}

/// Sum of consecutive-edge costs along an open ordering of real nodes.
fn path_cost(cost: &Cost, order: &Vec<usize>) -> (r: u128)
    requires
        cost.wf(),
        forall|i: int| 0 <= i < order@.len() ==> #[trigger] order@[i] < cost.matrix.size(),
    ensures
        r == path_sum(matrix_weight(*cost.matrix), order@),
{
    let len = order.len();
    let ghost w = matrix_weight(*cost.matrix);
    let mut total: u128 = 0;
    if len < 2 {
        return 0;
    }
    proof {
        assert forall|a: usize, b: usize| 0 <= #[trigger] w(a, b) <= u64::MAX by {
            cost.matrix.lemma_entry_bounds(a as int, b as int);
        }
    }
    let mut k: usize = 0;
    while k + 1 < len
        invariant
            len == order@.len(),
            len >= 2,
            k + 1 <= len,
            cost.wf(),
            w == matrix_weight(*cost.matrix),
            forall|a: usize, b: usize| 0 <= #[trigger] w(a, b) <= u64::MAX,
            forall|i: int| 0 <= i < order@.len() ==> #[trigger] order@[i] < cost.matrix.size(),
            total == path_sum(w, order@.take(k + 1)),
        decreases len - k,
    {
        let e = cost.d(order[k], order[k + 1]);
        proof {
            assert(cost.dummy != Some(order@[k as int]));
            assert(cost.dummy != Some(order@[k + 1]));
            let pre = order@.take(k + 2);
            assert(pre.drop_last() =~= order@.take(k + 1));
            lemma_path_bounds(w, order@.take(k + 1));
            assert(k * u64::MAX + u64::MAX <= u128::MAX) by (nonlinear_arith)
                requires
                    k < usize::MAX,
            ;
        }
        total = total + e as u128;
        k = k + 1;
    }
    proof {
        assert(order@.take(len as int) =~= order@);
    }
    total
}

/// Try every node as the NN start and keep the ordering with the lowest path cost
/// (the first such start on ties).
pub fn best_nearest_neighbor(cost: &Cost, n_real: usize) -> (order: Vec<usize>)
    requires
        cost.wf(),
        n_real == cost.matrix.size(),
    ensures
        n_real == 0 ==> order@.len() == 0,
        n_real >= 1 ==> exists|s: usize|
            is_best_nn_start(*cost.matrix, n_real as nat, s) && order@ == nn_order(
                *cost.matrix,
                n_real as nat,
                s,
            ),
        is_permutation(order@, n_real as nat),
{
    let ghost m = *cost.matrix;
    let ghost w = matrix_weight(m);
    if n_real == 0 {
        return Vec::new();
    }
    let mut best = nearest_neighbor(cost, n_real, 0);
    proof {
        lemma_nn_unique(m, n_real as nat, 0, best@, nn_order(m, n_real as nat, 0));
    }
    let mut best_cost = path_cost(cost, &best);
    let ghost mut best_start: usize = 0;
    let mut s: usize = 1;
    while s < n_real
        invariant
            cost.wf(),
            m == *cost.matrix,
            w == matrix_weight(m),
            n_real == m.size(),
            1 <= s <= n_real,
            best_start < s,
            best@ == nn_order(m, n_real as nat, best_start),
            is_permutation(best@, n_real as nat),
            best_cost == path_sum(w, best@),
            forall|s2: usize|
                s2 < s ==> best_cost <= path_sum(w, #[trigger] nn_order(m, n_real as nat, s2)),
            forall|s2: usize|
                s2 < best_start ==> best_cost < path_sum(
                    w,
                    #[trigger] nn_order(m, n_real as nat, s2),
                ),
        decreases n_real - s,
    {
        let cand = nearest_neighbor(cost, n_real, s);
        proof {
            lemma_nn_unique(m, n_real as nat, s, cand@, nn_order(m, n_real as nat, s));
        }
        let cand_cost = path_cost(cost, &cand);
        if cand_cost < best_cost {
            best = cand;
            best_cost = cand_cost;
            proof {
                best_start = s;
            }
        }
        s = s + 1;
    }
    best
}

} // verus!
