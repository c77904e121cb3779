//! 2-opt and Or-opt local search on a cyclic tour with a frozen leading prefix.
//!
//! Both moves price only the handful of edges they touch, and the search applies
//! improving moves until neither neighbourhood offers one — a 2-opt/Or-opt local
//! optimum. Positions `0..lock` never move.

use vstd::prelude::*;

use super::{lemma_cost_weight, Cost};
use crate::tour::{
    cycle_sum, is_permutation, lemma_cycle_bounds, lemma_permutation_by_multiset,
    lemma_relocate_cost, lemma_relocated_shape, lemma_reversed_segment_shape, lemma_two_opt_cost,
    relocatable, relocated, relocation_ok, reversed_segment,
};

verus! {

/// What the local search may assume of a tour: it visits every node once and the
/// locked prefix is a proper prefix of it.
pub open spec fn search_ready(cost: Cost, t: Seq<usize>, lock: int) -> bool {
    &&& cost.wf()
    &&& cost.matrix.is_symmetric()
    &&& is_permutation(t, cost.nodes())
    &&& 1 <= lock <= t.len()
}

/// `t2` is `t` rearranged without touching its first `lock` positions.
pub open spec fn same_nodes_fixed_prefix(t: Seq<usize>, t2: Seq<usize>, lock: int) -> bool {
    &&& t2.len() == t.len()
    &&& t2.to_multiset() == t.to_multiset()
    &&& forall|q: int| 0 <= q < lock ==> #[trigger] t2[q] == t[q]
}

/// Reversing `t[i..=j]` would lower the cycle cost: it swaps the edges
/// `(t[i-1], t[i])` and `(t[j], t[j+1])` for `(t[i-1], t[j])` and `(t[i], t[j+1])`,
/// the position after the last wrapping round to 0.
pub open spec fn two_opt_improves(w: spec_fn(usize, usize) -> int, t: Seq<usize>, i: int, j: int) -> bool {
    let d = t[(j + 1) % (t.len() as int)];
    w(t[i - 1], t[j]) + w(t[i], d) < w(t[i - 1], t[i]) + w(t[j], d)
}

/// No 2-opt reversal of a segment starting at or after `lock` lowers the cost (a tour
/// of fewer than four nodes has none to offer).
pub open spec fn two_opt_stuck(w: spec_fn(usize, usize) -> int, t: Seq<usize>, lock: int) -> bool {
    t.len() < 4 || forall|i: int, j: int|
        lock <= i < t.len() - 1 && i < j < t.len() ==> !#[trigger] two_opt_improves(w, t, i, j)
}

/// `t` after reversing the segments `t[i..=j]` listed in `moves`, one after another.
pub open spec fn reversals(t: Seq<usize>, moves: Seq<(int, int)>) -> Seq<usize>
    decreases moves.len(),
{
    if moves.len() == 0 {
        t
    } else {
        reversed_segment(reversals(t, moves.drop_last()), moves.last().0, moves.last().1)
    }
}

/// Each reversal in `moves` starts at or after `lock` and lowers the cost of the tour
/// it is applied to.
pub open spec fn improving_reversals(
    w: spec_fn(usize, usize) -> int,
    t: Seq<usize>,
    moves: Seq<(int, int)>,
    lock: int,
) -> bool {
    forall|q: int|
        0 <= q < moves.len() ==> {
            let i = #[trigger] moves[q].0;
            let j = moves[q].1;
            &&& lock <= i < t.len() - 1
            &&& i < j < t.len()
            &&& two_opt_improves(w, reversals(t, moves.take(q)), i, j)
        }
}

/// Moving the segment `t[s..s+k]` to follow position `p`, in the cheaper of its two
/// orientations, would lower the cycle cost.
pub open spec fn or_opt_improves(
    w: spec_fn(usize, usize) -> int,
    t: Seq<usize>,
    k: int,
    s: int,
    p: int,
) -> bool {
    let len = t.len() as int;
    let prev = t[s - 1];
    let next = t[(s + k) % len];
    let first = t[s];
    let last = t[s + k - 1];
    let u = t[p];
    let v = t[(p + 1) % len];
    let fwd = w(u, first) + w(last, v);
    let rev = w(u, last) + w(first, v);
    let added = if fwd <= rev {
        fwd
    } else {
        rev
    };
    added + w(prev, next) < w(u, v) + w(prev, first) + w(last, next)
}

/// Whether the cheaper way to insert `t[s..s+k]` after position `p` is reversed: it
/// is when the forward insertion costs strictly more.
pub open spec fn or_opt_reversed(
    w: spec_fn(usize, usize) -> int,
    t: Seq<usize>,
    k: int,
    s: int,
    p: int,
) -> bool {
    let len = t.len() as int;
    let first = t[s];
    let last = t[s + k - 1];
    let u = t[p];
    let v = t[(p + 1) % len];
    w(u, first) + w(last, v) > w(u, last) + w(first, v)
}

/// The move `(k2, s2, p2)` comes before `(k, s, p)` in the search's scan order:
/// shorter segments first, then earlier segments, then earlier insertion points.
pub open spec fn scanned_before(k2: int, s2: int, p2: int, k: int, s: int, p: int) -> bool {
    ||| k2 < k
    ||| k2 == k && s2 < s
    ||| k2 == k && s2 == s && p2 < p
}

/// The Or-opt moves the search tries: segments of 1 to 3 nodes starting at or after
/// `lock` that leave a node of the movable region outside, and insertion edges
/// `(t[p], t[p+1])` outside the locked prefix that neither touch nor lie inside the
/// segment.
pub open spec fn or_opt_move(len: int, lock: int, k: int, s: int, p: int) -> bool {
    &&& 1 <= k <= 3
    &&& lock + k < len
    &&& lock <= s <= len - k
    &&& 0 <= p < len
    &&& p + 1 >= lock
    &&& !(s - 1 <= p < s + k)
}

/// No Or-opt move the search tries lowers the cost.
pub open spec fn or_opt_stuck(w: spec_fn(usize, usize) -> int, t: Seq<usize>, lock: int) -> bool {
    forall|k: int, s: int, p: int|
        or_opt_move(t.len() as int, lock, k, s, p) ==> !#[trigger] or_opt_improves(w, t, k, s, p)
}

/// `t` is a 2-opt + Or-opt local optimum for the positions from `lock` on.
pub open spec fn local_optimum(w: spec_fn(usize, usize) -> int, t: Seq<usize>, lock: int) -> bool {
    two_opt_stuck(w, t, lock) && or_opt_stuck(w, t, lock)
}

/// Append `src[lo..hi]` to `dst`.
pub fn extend_range(dst: &mut Vec<usize>, src: &Vec<usize>, lo: usize, hi: usize)
    requires
        lo <= hi <= src@.len(),
    ensures
        final(dst)@ == old(dst)@ + src@.subrange(lo as int, hi as int),
{
    let mut q = lo;
    while q < hi
        invariant
            lo <= q <= hi,
            hi <= src@.len(),
            dst@ == old(dst)@ + src@.subrange(lo as int, q as int),
        decreases hi - q,
    {
        dst.push(src[q]);
        proof {
            assert(src@.subrange(lo as int, q + 1) =~= src@.subrange(lo as int, q as int).push(
                src@[q as int],
            ));
        }
        q = q + 1;
    }
}

/// Append `src[lo..hi]` to `dst` in reverse order.
pub fn extend_range_rev(dst: &mut Vec<usize>, src: &Vec<usize>, lo: usize, hi: usize)
    requires
        lo <= hi <= src@.len(),
    ensures
        final(dst)@ == old(dst)@ + src@.subrange(lo as int, hi as int).reverse(),
{
    let mut q = hi;
    while q > lo
        invariant
            lo <= q <= hi,
            hi <= src@.len(),
            dst@ == old(dst)@ + src@.subrange(q as int, hi as int).reverse(),
        decreases q - lo,
    {
        dst.push(src[q - 1]);
        proof {
            assert(src@.subrange(q - 1, hi as int).reverse() =~= src@.subrange(
                q as int,
                hi as int,
            ).reverse().push(src@[q - 1]));
        }
        q = q - 1;
    }
}

/// Reverse `tour[i..=j]` in place.
fn reverse_segment(tour: &mut Vec<usize>, i: usize, j: usize)
    requires
        i <= j < old(tour)@.len(),
    ensures
        final(tour)@ == reversed_segment(old(tour)@, i as int, j as int),
{
    let len = tour.len();
    let mut rebuilt: Vec<usize> = Vec::new();
    extend_range(&mut rebuilt, tour, 0, i);
    extend_range_rev(&mut rebuilt, tour, i, j + 1);
    extend_range(&mut rebuilt, tour, j + 1, len);
    proof {
        assert(tour@.take(i as int) =~= tour@.subrange(0, i as int));
        assert(tour@.skip(j + 1) =~= tour@.subrange(j + 1, len as int));
        assert(rebuilt@ =~= reversed_segment(tour@, i as int, j as int));
    }
    *tour = rebuilt;
}

/// Move `tour[s..s+seg_len]` to sit immediately after position `p`, optionally
/// reversed, preserving every other node's relative order.
pub fn relocate(tour: &mut Vec<usize>, s: usize, seg_len: usize, p: usize, reversed: bool)
    requires
        relocatable(old(tour)@.len() as int, s as int, seg_len as int, p as int),
    ensures
        final(tour)@ == relocated(old(tour)@, s as int, seg_len as int, p as int, reversed),
{
    if seg_len == 0 {
        return;
    }
    let len = tour.len();
    let mut rebuilt: Vec<usize> = Vec::new();
    if p < s {
        extend_range(&mut rebuilt, tour, 0, p + 1);
        if reversed {
            extend_range_rev(&mut rebuilt, tour, s, s + seg_len);
        } else {
            extend_range(&mut rebuilt, tour, s, s + seg_len);
        }
        extend_range(&mut rebuilt, tour, p + 1, s);
        extend_range(&mut rebuilt, tour, s + seg_len, len);
    } else {
        extend_range(&mut rebuilt, tour, 0, s);
        extend_range(&mut rebuilt, tour, s + seg_len, p + 1);
        if reversed {
            extend_range_rev(&mut rebuilt, tour, s, s + seg_len);
        } else {
            extend_range(&mut rebuilt, tour, s, s + seg_len);
        }
        extend_range(&mut rebuilt, tour, p + 1, len);
    }
    proof {
        let t = tour@;
        assert(t.take(p + 1) =~= t.subrange(0, p + 1));
        assert(t.take(s as int) =~= t.subrange(0, s as int));
        assert(t.skip(s + seg_len) =~= t.subrange(s + seg_len, len as int));
        assert(t.skip(p + 1) =~= t.subrange(p + 1, len as int));
        assert(rebuilt@ =~= relocated(t, s as int, seg_len as int, p as int, reversed));
    }
    *tour = rebuilt;
}

/// One sweep of 2-opt segment reversals, applying every improving move it finds.
/// Returns whether any move was applied; each applied move strictly lowers the
/// cycle cost.
fn two_opt_pass(cost: &Cost, tour: &mut Vec<usize>, lock: usize) -> (improved: bool)
    requires
        search_ready(*cost, old(tour)@, lock as int),
    ensures
        same_nodes_fixed_prefix(old(tour)@, final(tour)@, lock as int),
        improved ==> cycle_sum(cost.weight(), final(tour)@) < cycle_sum(
            cost.weight(),
            old(tour)@,
        ),
        !improved ==> final(tour)@ == old(tour)@,
        !improved ==> two_opt_stuck(cost.weight(), old(tour)@, lock as int),
        improved ==> !two_opt_stuck(cost.weight(), old(tour)@, lock as int),
        exists|moves: Seq<(int, int)>|
            {
                &&& final(tour)@ == reversals(old(tour)@, moves)
                &&& improving_reversals(cost.weight(), old(tour)@, moves, lock as int)
                &&& (improved <==> moves.len() > 0)
            },
{
    let len = tour.len();
    if len < 4 {
        proof {
            let none = Seq::<(int, int)>::empty();
            assert(tour@ == reversals(tour@, none));
        }
        return false;
    }
    let ghost w = cost.weight();
    let ghost t0 = tour@;
    let ghost mut moves = Seq::<(int, int)>::empty();
    let mut improved = false;
    let mut i = lock;
    while i < len - 1
        invariant
            len == tour@.len(),
            len >= 4,
            lock <= i,
            w == cost.weight(),
            search_ready(*cost, tour@, lock as int),
            same_nodes_fixed_prefix(t0, tour@, lock as int),
            improved ==> cycle_sum(w, tour@) < cycle_sum(w, t0),
            !improved ==> tour@ == t0,
            !improved ==> forall|i2: int, j2: int|
                lock <= i2 < i && i2 < j2 < len ==> !#[trigger] two_opt_improves(w, t0, i2, j2),
            tour@ == reversals(t0, moves),
            improving_reversals(w, t0, moves, lock as int),
            improved <==> moves.len() > 0,
            improved ==> !two_opt_stuck(w, t0, lock as int),
        decreases len - i,
    {
        let mut j = i + 1;
        while j < len
            invariant
                len == tour@.len(),
                len >= 4,
                lock <= i < len - 1,
                i + 1 <= j <= len,
                w == cost.weight(),
                search_ready(*cost, tour@, lock as int),
                same_nodes_fixed_prefix(t0, tour@, lock as int),
                improved ==> cycle_sum(w, tour@) < cycle_sum(w, t0),
                !improved ==> tour@ == t0,
                !improved ==> forall|i2: int, j2: int|
                    (lock <= i2 < i && i2 < j2 < len) || (i2 == i && i < j2 < j) ==> !#[trigger] two_opt_improves(w, t0, i2, j2),
                tour@ == reversals(t0, moves),
                improving_reversals(w, t0, moves, lock as int),
                improved <==> moves.len() > 0,
                improved ==> !two_opt_stuck(w, t0, lock as int),
            decreases len - j,
        {
            let a = tour[i - 1];
            let b = tour[i];
            let c = tour[j];
            let d = tour[(j + 1) % len];
            // Reversing tour[i..=j] swaps edges (a,b)+(c,d) for (a,c)+(b,d).
            let new_pair = cost.d(a, c) as u128 + cost.d(b, d) as u128;
            let old_pair = cost.d(a, b) as u128 + cost.d(c, d) as u128;
            if new_pair < old_pair {
                let ghost before = tour@;
                proof {
                    lemma_cost_weight(*cost, before);
                    lemma_two_opt_cost(w, before, i as int, j as int);
                    lemma_reversed_segment_shape(before, i as int, j as int);
                    lemma_permutation_by_multiset(
                        before,
                        reversed_segment(before, i as int, j as int),
                        cost.nodes(),
                    );
                }
                reverse_segment(tour, i, j);
                proof {
                    assert(a == before[i - 1] && b == before[i as int] && c == before[j as int]);
                    assert(d == before[(j + 1) % (len as int)]);
                    assert(two_opt_improves(w, before, i as int, j as int));
                    let m2 = moves.push((i as int, j as int));
                    assert(m2.drop_last() =~= moves);
                    assert(tour@ == reversals(t0, m2));
                    assert forall|q: int| 0 <= q < m2.len() implies {
                        let i3 = #[trigger] m2[q].0;
                        let j3 = m2[q].1;
                        &&& lock <= i3 < t0.len() - 1
                        &&& i3 < j3 < t0.len()
                        &&& two_opt_improves(w, reversals(t0, m2.take(q)), i3, j3)
                    } by {
                        if q < moves.len() {
                            assert(m2.take(q) =~= moves.take(q));
                            assert(m2[q] == moves[q]);
                        } else {
                            assert(m2.take(q) =~= moves);
                        }
                    }
                    if !improved {
                        assert(moves.take(0) =~= moves);
                        assert(!two_opt_stuck(w, t0, lock as int));
                    }
                    moves = m2;
                }
                improved = true;
            } else {
                proof {
                    if !improved {
                        assert(a == t0[i - 1] && b == t0[i as int] && c == t0[j as int]);
                        assert(d == t0[(j + 1) % (len as int)]);
                        assert(!two_opt_improves(w, t0, i as int, j as int));
                    }
                }
            }
            j = j + 1;
        }
        i = i + 1;
    }
    improved
}

/// One sweep of Or-opt relocations (segment length 1–3, either orientation), applying
/// the first improving move found. Returns whether a move was applied; the move
/// strictly lowers the cycle cost.
fn or_opt_pass(cost: &Cost, tour: &mut Vec<usize>, lock: usize) -> (improved: bool)
    requires
        search_ready(*cost, old(tour)@, lock as int),
    ensures
        same_nodes_fixed_prefix(old(tour)@, final(tour)@, lock as int),
        improved ==> cycle_sum(cost.weight(), final(tour)@) < cycle_sum(
            cost.weight(),
            old(tour)@,
        ),
        !improved ==> final(tour)@ == old(tour)@,
        !improved ==> or_opt_stuck(cost.weight(), old(tour)@, lock as int),
        improved ==> !or_opt_stuck(cost.weight(), old(tour)@, lock as int),
        improved ==> exists|k: int, s: int, p: int|
            {
                &&& or_opt_move(old(tour)@.len() as int, lock as int, k, s, p)
                &&& or_opt_improves(cost.weight(), old(tour)@, k, s, p)
                &&& final(tour)@ == relocated(
                    old(tour)@,
                    s,
                    k,
                    p,
                    or_opt_reversed(cost.weight(), old(tour)@, k, s, p),
                )
                &&& forall|k2: int, s2: int, p2: int|
                    or_opt_move(old(tour)@.len() as int, lock as int, k2, s2, p2)
                        && scanned_before(k2, s2, p2, k, s, p) ==> !#[trigger] or_opt_improves(
                        cost.weight(),
                        old(tour)@,
                        k2,
                        s2,
                        p2,
                    )
            },
{
    let len = tour.len();
    let ghost w = cost.weight();
    let ghost t0 = tour@;
    let mut seg_len: usize = 1;
    while seg_len <= 3
        invariant
            len == tour@.len(),
            1 <= seg_len <= 4,
            w == cost.weight(),
            tour@ == t0,
            t0 == old(tour)@,
            search_ready(*cost, tour@, lock as int),
            forall|k: int, s2: int, p2: int|
                k < seg_len && or_opt_move(len as int, lock as int, k, s2, p2)
                    ==> !#[trigger] or_opt_improves(w, t0, k, s2, p2),
        ensures
            tour@ == t0,
            forall|k: int, s2: int, p2: int|
                or_opt_move(len as int, lock as int, k, s2, p2) ==> !#[trigger] or_opt_improves(
                    w,
                    t0,
                    k,
                    s2,
                    p2,
                ),
        decreases 4 - seg_len,
    {
        if len - lock <= seg_len {
            break;  // no room: the segment would be the whole movable region
        }
        let mut s = lock;
        while s <= len - seg_len
            invariant
                len == tour@.len(),
                1 <= seg_len <= 3,
                lock + seg_len < len,
                lock <= s,
                w == cost.weight(),
                tour@ == t0,
            t0 == old(tour)@,
                search_ready(*cost, tour@, lock as int),
                forall|k: int, s2: int, p2: int|
                    (k < seg_len || (k == seg_len && s2 < s)) && or_opt_move(
                        len as int,
                        lock as int,
                        k,
                        s2,
                        p2,
                    ) ==> !#[trigger] or_opt_improves(w, t0, k, s2, p2),
            decreases len - s,
        {
            let prev = tour[s - 1];
            let next = tour[(s + seg_len) % len];
            let seg_first = tour[s];
            let seg_last = tour[s + seg_len - 1];
            // Cost recovered by lifting the segment out is
            // d(prev, first) + d(last, next) - d(prev, next).
            let lifted = cost.d(prev, seg_first) as u128 + cost.d(seg_last, next) as u128;
            let closed_gap = cost.d(prev, next) as u128;
            let mut p: usize = 0;
            while p < len
                invariant
                    len == tour@.len(),
                    1 <= seg_len <= 3,
                    lock + seg_len < len,
                    lock <= s <= len - seg_len,
                    w == cost.weight(),
                    search_ready(*cost, tour@, lock as int),
                    prev == tour@[s - 1],
                    next == tour@[(s + seg_len) % (len as int)],
                    seg_first == tour@[s as int],
                    seg_last == tour@[s + seg_len - 1],
                    lifted == w(prev, seg_first) + w(seg_last, next),
                    closed_gap == w(prev, next),
                    lifted <= 2 * (u64::MAX as int),
                    closed_gap <= u64::MAX,
                    tour@ == t0,
            t0 == old(tour)@,
                    forall|k: int, s2: int, p2: int|
                        (k < seg_len || (k == seg_len && s2 < s) || (k == seg_len && s2 == s
                            && p2 < p)) && or_opt_move(len as int, lock as int, k, s2, p2)
                            ==> !#[trigger] or_opt_improves(w, t0, k, s2, p2),
                decreases len - p,
            {
                if p + 1 < lock {
                    p = p + 1;
                    continue;  // edge lies inside the locked prefix
                }
                if s - 1 <= p && p < s + seg_len {
                    p = p + 1;
                    continue;  // edge is incident to / inside the segment
                }
                let u = tour[p];
                let v = tour[(p + 1) % len];
                let base = cost.d(u, v) as u128;
                let fwd = cost.d(u, seg_first) as u128 + cost.d(seg_last, v) as u128;
                let rev = cost.d(u, seg_last) as u128 + cost.d(seg_first, v) as u128;
                let (added, reversed) = if fwd <= rev {
                    (fwd, false)
                } else {
                    (rev, true)
                };
                if added + closed_gap < base + lifted {
                    let ghost before = tour@;
                    proof {
                        lemma_cost_weight(*cost, before);
                        lemma_relocate_cost(
                            w,
                            before,
                            s as int,
                            seg_len as int,
                            p as int,
                            reversed,
                        );
                        lemma_relocated_shape(
                            before,
                            s as int,
                            seg_len as int,
                            p as int,
                            reversed,
                        );
                        lemma_permutation_by_multiset(
                            before,
                            relocated(before, s as int, seg_len as int, p as int, reversed),
                            cost.nodes(),
                        );
                    }
                    relocate(tour, s, seg_len, p, reversed);
                    proof {
                        assert(added == w(u, if reversed { seg_last } else { seg_first }) + w(
                            if reversed { seg_first } else { seg_last },
                            v,
                        ));
                        assert(base == w(u, v));
                        assert(cycle_sum(w, tour@) < cycle_sum(w, t0));
                        assert forall|q: int| 0 <= q < lock implies #[trigger] tour@[q] == t0[q] by {
                            assert(q < s && q <= p);
                        }
                        let (k, s1, p1) = (seg_len as int, s as int, p as int);
                        assert(or_opt_move(len as int, lock as int, k, s1, p1));
                        assert(or_opt_improves(w, t0, k, s1, p1));
                        assert(reversed == or_opt_reversed(w, t0, k, s1, p1));
                        assert forall|k2: int, s2: int, p2: int|
                            or_opt_move(len as int, lock as int, k2, s2, p2) && scanned_before(
                                k2,
                                s2,
                                p2,
                                k,
                                s1,
                                p1,
                            ) implies !#[trigger] or_opt_improves(w, t0, k2, s2, p2) by {}
                        assert(!or_opt_stuck(w, t0, lock as int));
                    }
                    return true;
                }
                proof {
                    assert(u == t0[p as int] && v == t0[(p + 1) % (len as int)]);
                    assert(base == w(u, v));
                    assert(fwd == w(u, seg_first) + w(seg_last, v));
                    assert(rev == w(u, seg_last) + w(seg_first, v));
                    assert(!or_opt_improves(w, t0, seg_len as int, s as int, p as int));
                }
                p = p + 1;
            }
            s = s + 1;
        }
        seg_len = seg_len + 1;
    }
    false
}

/// Drive `tour` to a 2-opt + Or-opt local optimum in place.
///
/// The tour keeps its nodes and its first `lock` positions, and its cycle cost never
/// rises.
pub fn local_search(cost: &Cost, tour: &mut Vec<usize>, lock: usize)
    requires
        search_ready(*cost, old(tour)@, lock as int),
    ensures
        same_nodes_fixed_prefix(old(tour)@, final(tour)@, lock as int),
        cycle_sum(cost.weight(), final(tour)@) <= cycle_sum(cost.weight(), old(tour)@),
        local_optimum(cost.weight(), final(tour)@, lock as int),
        !local_optimum(cost.weight(), old(tour)@, lock as int) ==> cycle_sum(
            cost.weight(),
            final(tour)@,
        ) < cycle_sum(cost.weight(), old(tour)@),
        local_optimum(cost.weight(), old(tour)@, lock as int) ==> final(tour)@ == old(tour)@,
{
    let ghost w = cost.weight();
    let ghost t0 = tour@;
    proof {
        lemma_cost_weight(*cost, tour@);
        lemma_cycle_bounds(w, tour@);
    }
    loop
        invariant
            w == cost.weight(),
            search_ready(*cost, tour@, lock as int),
            same_nodes_fixed_prefix(t0, tour@, lock as int),
            cycle_sum(w, tour@) <= cycle_sum(w, t0),
            0 <= cycle_sum(w, tour@),
            tour@ == t0 || cycle_sum(w, tour@) < cycle_sum(w, t0),
            local_optimum(w, t0, lock as int) ==> tour@ == t0,
        ensures
            local_optimum(w, tour@, lock as int),
        decreases cycle_sum(w, tour@),
    {
        let ghost before = tour@;
        let mut improved = false;
        let a = two_opt_pass(cost, tour, lock);
        improved = improved || a;
        proof {
            lemma_permutation_by_multiset(before, tour@, cost.nodes());
        }
        let b = or_opt_pass(cost, tour, lock);
        improved = improved || b;
        proof {
            lemma_permutation_by_multiset(before, tour@, cost.nodes());
            lemma_cost_weight(*cost, tour@);
            lemma_cycle_bounds(w, tour@);
        }
        if !improved {
            break;
        }
    }
}

} // verus!
