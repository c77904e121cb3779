//! Iterated local search: double-bridge perturbation and best-acceptance.

use rand::rngs::StdRng;
use std::time::{Duration, Instant};
use vstd::prelude::*;

use super::random::random_index;
use super::two_opt::{local_optimum, local_search, same_nodes_fixed_prefix, search_ready};
use super::{cycle_cost, lemma_cost_weight, Cost, SolveConfig};
use crate::tour::{cycle_sum, is_permutation, lemma_multiset_concat3, lemma_permutation_by_multiset};

verus! {

/// The standard library's monotonic clock reading, carried as an opaque value.
#[verifier::external_type_specification]
#[verifier::external_body]
pub struct ExInstant(Instant);

/// Calls `Instant::now()`. The reading depends on the clock; nothing is stated of it.
#[verifier::external_body]
fn clock_now() -> Instant {
    Instant::now()
}

/// Calls `start.elapsed()`: the time since `start`. The value depends on the clock;
/// nothing is stated of it.
#[verifier::external_body]
fn elapsed_since(start: &Instant) -> Duration {
    start.elapsed()
}

/// Calls `Duration::as_millis`: the whole milliseconds in `d`. Nothing is stated of
/// the value, which the search only compares with its budget.
#[verifier::external_body]
fn whole_millis(d: &Duration) -> u128 {
    d.as_millis()
}

/// `(x, y, z)` rearranged.
pub open spec fn is_rearrangement(a: usize, b: usize, c: usize, x: usize, y: usize, z: usize) -> bool {
    ||| (a, b, c) == (x, y, z)
    ||| (a, b, c) == (x, z, y)
    ||| (a, b, c) == (y, x, z)
    ||| (a, b, c) == (y, z, x)
    ||| (a, b, c) == (z, x, y)
    ||| (a, b, c) == (z, y, x)
}

/// `(a, b, c)` is `(x, y, z)` in ascending order.
pub open spec fn is_sorted_rearrangement(a: usize, b: usize, c: usize, x: usize, y: usize, z: usize) -> bool {
    a <= b <= c && is_rearrangement(a, b, c, x, y, z)
}

/// `(x, y, z)` in ascending order.
pub open spec fn sorted3(x: usize, y: usize, z: usize) -> (usize, usize, usize) {
    choose|r: (usize, usize, usize)| is_sorted_rearrangement(r.0, r.1, r.2, x, y, z)
}

/// Three values have only one ascending order.
proof fn lemma_sorted_unique(r: (usize, usize, usize), x: usize, y: usize, z: usize)
    requires
        is_sorted_rearrangement(r.0, r.1, r.2, x, y, z),
    ensures
        sorted3(x, y, z) == r,
{
    let q = sorted3(x, y, z);
    assert(is_sorted_rearrangement(q.0, q.1, q.2, x, y, z));
}

/// The three values in ascending order.
fn sort3(x: usize, y: usize, z: usize) -> (r: (usize, usize, usize))
    ensures
        r == sorted3(x, y, z),
        r.0 <= r.1 <= r.2,
        is_rearrangement(r.0, r.1, r.2, x, y, z),
{
    let (lo, hi) = if x <= y {
        (x, y)
    } else {
        (y, x)
    };
    let r: (usize, usize, usize) = if z <= lo {
        (z, lo, hi)
    } else if z <= hi {
        (lo, z, hi)
    } else {
        (lo, hi, z)
    };
    proof {
        lemma_sorted_unique(r, x, y, z);
    }
    r
}

/// `t` with its movable region `t[lock..]` split as `A|B|C|D` at offsets `a < b < c`
/// and reconnected as `A|C|B|D`.
pub open spec fn bridged(t: Seq<usize>, lock: int, a: int, b: int, c: int) -> Seq<usize> {
    t.take(lock + a) + t.subrange(lock + b, lock + c) + t.subrange(lock + a, lock + b) + t.skip(
        lock + c,
    )
}

/// The tour a double-bridge with cuts drawn as `x, y, z` gives: with the cuts sorted to
/// `a <= b <= c`, `t` bridged at them when all three differ, else `t` itself.
pub open spec fn bridge_result(t: Seq<usize>, lock: int, x: usize, y: usize, z: usize) -> Seq<usize> {
    let (a, b, c) = sorted3(x, y, z);
    if a < b && b < c {
        bridged(t, lock, a as int, b as int, c as int)
    } else {
        t
    }
}

/// Apply the double-bridge whose cuts were drawn as `x, y, z` (offsets into the
/// movable region `tour[lock..]`): sorted to `a <= b <= c`, they split that region as
/// `A|B|C|D`, reconnected as `A|C|B|D`; when two cuts coincide the tour is left as it
/// is.
pub fn bridge_at(tour: &mut Vec<usize>, lock: usize, x: usize, y: usize, z: usize)
    requires
        lock <= old(tour)@.len(),
        1 <= x < old(tour)@.len() - lock,
        1 <= y < old(tour)@.len() - lock,
        1 <= z < old(tour)@.len() - lock,
    ensures
        final(tour)@ == bridge_result(old(tour)@, lock as int, x, y, z),
        same_nodes_fixed_prefix(old(tour)@, final(tour)@, lock as int),
{
    let len = tour.len();
    let (a, b, c) = sort3(x, y, z);
    if a == b || b == c {
        return;
    }
    let mut rebuilt: Vec<usize> = Vec::new();
    super::two_opt::extend_range(&mut rebuilt, tour, 0, lock + a);
    super::two_opt::extend_range(&mut rebuilt, tour, lock + b, lock + c);
    super::two_opt::extend_range(&mut rebuilt, tour, lock + a, lock + b);
    super::two_opt::extend_range(&mut rebuilt, tour, lock + c, len);
    proof {
        let t = tour@;
        let l = lock as int;
        assert(t.take(l + a) =~= t.subrange(0, l + a));
        assert(t.skip(l + c) =~= t.subrange(l + c, len as int));
        assert(rebuilt@ =~= bridged(t, l, a as int, b as int, c as int));
        let pa = t.take(l + a);
        let bb = t.subrange(l + a, l + b);
        let cc = t.subrange(l + b, l + c);
        let dd = t.skip(l + c);
        assert(t =~= pa + bb + cc + dd);
        lemma_multiset_concat3(pa, bb, cc);
        vstd::seq_lib::lemma_multiset_commutative(pa + bb + cc, dd);
        vstd::seq_lib::lemma_multiset_commutative(pa + cc + bb, dd);
        assert(rebuilt@.to_multiset() == t.to_multiset());
        assert forall|q: int| 0 <= q < l implies #[trigger] rebuilt@[q] == t[q] by {
            assert(rebuilt@[q] == pa[q]);
        }
    }
    *tour = rebuilt;
}

/// Apply a double-bridge (4-opt) kick to the movable region `tour[lock..]`.
///
/// Three random cuts split it into `A|B|C|D`, reconnected as `A|C|B|D` (see
/// [`bridge_at`]); when fewer than four positions are movable, or two cuts coincide,
/// the tour is left as it is.
fn double_bridge(tour: &mut Vec<usize>, lock: usize, rng: &mut StdRng)
    requires
        lock <= old(tour)@.len(),
    ensures
        same_nodes_fixed_prefix(old(tour)@, final(tour)@, lock as int),
        old(tour)@.len() - lock < 4 ==> final(tour)@ == old(tour)@,
        old(tour)@.len() - lock >= 4 ==> exists|x: usize, y: usize, z: usize|
            1 <= x < old(tour)@.len() - lock && 1 <= y < old(tour)@.len() - lock && 1 <= z
                < old(tour)@.len() - lock && final(tour)@ == bridge_result(
                old(tour)@,
                lock as int,
                x,
                y,
                z,
            ),
{
    let len = tour.len();
    let m = len - lock;
    if m < 4 {
        return;
    }
    let x = random_index(rng, 1, m);
    let y = random_index(rng, 1, m);
    let z = random_index(rng, 1, m);
    bridge_at(tour, lock, x, y, z);
}

/// `kicked` is what a double-bridge kick can make of `t`: `t` itself when fewer than
/// four positions are movable, else `t` bridged at cuts drawn in its movable region.
pub open spec fn kick_of(t: Seq<usize>, lock: int, kicked: Seq<usize>) -> bool {
    if t.len() - lock < 4 {
        kicked == t
    } else {
        exists|x: usize, y: usize, z: usize|
            1 <= x < t.len() - lock && 1 <= y < t.len() - lock && 1 <= z < t.len() - lock
                && kicked == bridge_result(t, lock, x, y, z)
    }
}

/// `c` is what the local search makes of `t`: the same nodes and locked prefix, a
/// local optimum, `t` itself when `t` already is one, and strictly cheaper otherwise.
pub open spec fn reoptimised(w: spec_fn(usize, usize) -> int, t: Seq<usize>, lock: int, c: Seq<usize>) -> bool {
    &&& same_nodes_fixed_prefix(t, c, lock)
    &&& cycle_sum(w, c) <= cycle_sum(w, t)
    &&& local_optimum(w, c, lock)
    &&& local_optimum(w, t, lock) ==> c == t
    &&& !local_optimum(w, t, lock) ==> cycle_sum(w, c) < cycle_sum(w, t)
}

/// `c` is a candidate ILS can draw from the best tour `best`: a kick of it, re-optimised.
pub open spec fn candidate_of(w: spec_fn(usize, usize) -> int, best: Seq<usize>, lock: int, c: Seq<usize>) -> bool {
    exists|kicked: Seq<usize>| kick_of(best, lock, kicked) && reoptimised(w, kicked, lock, c)
}

/// The best tour after trying the candidates `cands` in turn from `t0`: a candidate
/// replaces the best only when it is strictly cheaper.
pub open spec fn kept_best(w: spec_fn(usize, usize) -> int, t0: Seq<usize>, cands: Seq<Seq<usize>>) -> Seq<usize>
    decreases cands.len(),
{
    if cands.len() == 0 {
        t0
    } else {
        let b = kept_best(w, t0, cands.drop_last());
        if cycle_sum(w, cands.last()) < cycle_sum(w, b) {
            cands.last()
        } else {
            b
        }
    }
}

/// Each of `cands` was drawn from the best tour kept before it.
pub open spec fn ils_trace(w: spec_fn(usize, usize) -> int, t0: Seq<usize>, lock: int, cands: Seq<Seq<usize>>) -> bool {
    forall|k: int|
        0 <= k < cands.len() ==> candidate_of(
            w,
            kept_best(w, t0, cands.take(k)),
            lock,
            #[trigger] cands[k],
        )
}

/// Keep `candidate` as the best tour when it is strictly cheaper than the current best.
pub fn accept(best: &mut Vec<usize>, best_cost: &mut u128, candidate: Vec<usize>, candidate_cost: u128)
    ensures
        candidate_cost < *old(best_cost) ==> final(best)@ == candidate@ && *final(best_cost)
            == candidate_cost,
        candidate_cost >= *old(best_cost) ==> final(best)@ == old(best)@ && *final(best_cost)
            == *old(best_cost),
{
    if candidate_cost < *best_cost {
        *best_cost = candidate_cost;
        *best = candidate;
    }
}

/// Run ILS from an already locally-optimised `tour`, leaving the best tour found in
/// place. Stops after `config.max_iters` iterations, or earlier once a non-zero
/// `config.time_ms` budget has elapsed. A kicked and re-optimised tour replaces the
/// best one only when it is strictly cheaper, so the result is the starting tour or a
/// local optimum. With no time budget and too few movable positions for a kick, each
/// iteration is a plain local search and the result is a local optimum.
pub fn run(cost: &Cost, tour: &mut Vec<usize>, lock: usize, rng: &mut StdRng, config: &SolveConfig)
    requires
        search_ready(*cost, old(tour)@, lock as int),
    ensures
        same_nodes_fixed_prefix(old(tour)@, final(tour)@, lock as int),
        cycle_sum(cost.weight(), final(tour)@) <= cycle_sum(cost.weight(), old(tour)@),
        final(tour)@ == old(tour)@ || local_optimum(cost.weight(), final(tour)@, lock as int),
        config.time_ms == 0 && config.max_iters >= 1 && old(tour)@.len() - lock < 4
            ==> local_optimum(cost.weight(), final(tour)@, lock as int),
        config.max_iters == 0 ==> final(tour)@ == old(tour)@,
        exists|cands: Seq<Seq<usize>>|
            {
                &&& cands.len() <= config.max_iters
                &&& config.time_ms == 0 ==> cands.len() == config.max_iters
                &&& ils_trace(cost.weight(), old(tour)@, lock as int, cands)
                &&& final(tour)@ == kept_best(cost.weight(), old(tour)@, cands)
                &&& forall|k: int|
                    0 <= k < cands.len() ==> cycle_sum(cost.weight(), final(tour)@) <= cycle_sum(
                        cost.weight(),
                        #[trigger] cands[k],
                    )
            },
{
    let ghost w = cost.weight();
    let ghost t0 = tour@;
    proof {
        lemma_cost_weight(*cost, tour@);
    }
    let mut best = tour.clone();
    proof {
        assert(best@ =~= tour@);
    }
    let mut best_cost = cycle_cost(cost, &best);
    let start = if config.time_ms > 0 {
        Some(clock_now())
    } else {
        None
    };
    let mut iter: usize = 0;
    let ghost mut cands = Seq::<Seq<usize>>::empty();
    while iter < config.max_iters
        invariant
            w == cost.weight(),
            search_ready(*cost, best@, lock as int),
            same_nodes_fixed_prefix(t0, best@, lock as int),
            best_cost == cycle_sum(w, best@),
            best_cost <= cycle_sum(w, t0),
            best@ == t0 || local_optimum(w, best@, lock as int),
            start is Some <==> config.time_ms > 0,
            iter <= config.max_iters,
            iter == 0 ==> best@ == t0,
            cands.len() == iter,
            ils_trace(w, t0, lock as int, cands),
            best@ == kept_best(w, t0, cands),
            forall|k: int| 0 <= k < cands.len() ==> best_cost <= cycle_sum(w, #[trigger] cands[k]),
            config.time_ms == 0 && iter >= 1 && t0.len() - lock < 4 ==> local_optimum(
                w,
                best@,
                lock as int,
            ),
        ensures
            config.time_ms == 0 ==> iter >= config.max_iters,
        decreases config.max_iters - iter,
    {
        match &start {
            Some(st) => {
                if whole_millis(&elapsed_since(st)) >= config.time_ms as u128 {
                    break;
                }
            },
            None => {},
        }
        let mut candidate = best.clone();
        proof {
            assert(candidate@ =~= best@);
        }
        double_bridge(&mut candidate, lock, rng);
        let ghost kicked = candidate@;
        proof {
            lemma_permutation_by_multiset(best@, candidate@, cost.nodes());
            assert(kick_of(best@, lock as int, kicked));
        }
        local_search(cost, &mut candidate, lock);
        proof {
            lemma_permutation_by_multiset(best@, candidate@, cost.nodes());
            assert(reoptimised(w, kicked, lock as int, candidate@));
            assert(candidate_of(w, best@, lock as int, candidate@));
        }
        let candidate_cost = cycle_cost(cost, &candidate);
        let ghost prev_best = best@;
        let ghost cand = candidate@;
        let ghost prev_cost = best_cost;
        accept(&mut best, &mut best_cost, candidate, candidate_cost);
        proof {
            let c2 = cands.push(cand);
            assert(c2.drop_last() =~= cands);
            assert(best@ == kept_best(w, t0, c2));
            assert forall|k: int| 0 <= k < c2.len() implies candidate_of(
                w,
                kept_best(w, t0, c2.take(k)),
                lock as int,
                #[trigger] c2[k],
            ) by {
                if k < cands.len() {
                    assert(c2.take(k) =~= cands.take(k));
                    assert(c2[k] == cands[k]);
                } else {
                    assert(c2.take(k) =~= cands);
                }
            }
            assert forall|k: int| 0 <= k < c2.len() implies best_cost <= cycle_sum(
                w,
                #[trigger] c2[k],
            ) by {
                if k < cands.len() {
                    assert(c2[k] == cands[k]);
                }
            }
            cands = c2;
        }
        iter = iter + 1;
    }
    proof {
        assert(forall|k: int| 0 <= k < cands.len() ==> cycle_sum(w, best@) <= cycle_sum(w, #[trigger] cands[k]));
    }
    *tour = best;
}

} // verus!
