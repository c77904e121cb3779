//! Tour arithmetic: the cost of an open path and of a closed cycle over a weight
//! function, and the facts about those costs that the route search relies on.

use vstd::prelude::*;

verus! {

/// Sum of the consecutive-edge weights along `t` (no wrap-around).
pub open spec fn path_sum(w: spec_fn(usize, usize) -> int, t: Seq<usize>) -> int
    decreases t.len(),
{
    if t.len() <= 1 {
        0
    } else {
        path_sum(w, t.drop_last()) + w(t[t.len() - 2], t[t.len() - 1])
    }
}

/// Sum of every edge weight of `t` taken as a cycle (the wrap-around edge included);
/// zero for fewer than two nodes.
pub open spec fn cycle_sum(w: spec_fn(usize, usize) -> int, t: Seq<usize>) -> int {
    if t.len() < 2 {
        0
    } else {
        path_sum(w, t) + w(t[t.len() - 1], t[0])
    }
}

/// `w` gives the same weight both ways between any two nodes of `t`.
pub open spec fn symmetric_on(w: spec_fn(usize, usize) -> int, t: Seq<usize>) -> bool {
    forall|a: usize, b: usize| t.contains(a) && t.contains(b) ==> #[trigger] w(a, b) == w(b, a)
}

/// Every weight lies in `0 ..= u64::MAX`.
pub open spec fn bounded_weight(w: spec_fn(usize, usize) -> int) -> bool {
    forall|a: usize, b: usize| 0 <= #[trigger] w(a, b) <= u64::MAX
}

/// `t` lists each of `0..m` exactly once.
pub open spec fn is_permutation(t: Seq<usize>, m: nat) -> bool {
    &&& t.len() == m
    &&& forall|i: int| 0 <= i < t.len() ==> #[trigger] t[i] < m
    &&& forall|i: int, j: int| 0 <= i < j < t.len() ==> t[i] != t[j]
}

/// The sequence `0, 1, ..., m - 1`.
pub open spec fn range_seq(m: nat) -> Seq<usize> {
    Seq::new(m, |i: int| i as usize)
}

/// Splitting a path into two non-empty pieces costs the joining edge.
pub proof fn lemma_path_concat(w: spec_fn(usize, usize) -> int, x: Seq<usize>, y: Seq<usize>)
    requires
        x.len() >= 1,
        y.len() >= 1,
    ensures
        path_sum(w, x + y) == path_sum(w, x) + w(x[x.len() - 1], y[0]) + path_sum(w, y),
    decreases y.len(),
{
    let xy = x + y;
    if y.len() == 1 {
        assert(xy.drop_last() =~= x);
    } else {
        assert(xy.drop_last() =~= x + y.drop_last());
        lemma_path_concat(w, x, y.drop_last());
    }
}

/// A cycle made of two non-empty pieces.
pub proof fn lemma_cycle_concat(w: spec_fn(usize, usize) -> int, x: Seq<usize>, y: Seq<usize>)
    requires
        x.len() >= 1,
        y.len() >= 1,
    ensures
        cycle_sum(w, x + y) == path_sum(w, x) + w(x[x.len() - 1], y[0]) + path_sum(w, y) + w(
            y[y.len() - 1],
            x[0],
        ),
{
    lemma_path_concat(w, x, y);
    let xy = x + y;
    assert(xy[xy.len() - 1] == y[y.len() - 1]);
    assert(xy[0] == x[0]);
}

/// A cycle costs the same from whichever node it is read.
pub proof fn lemma_cycle_rotate(w: spec_fn(usize, usize) -> int, x: Seq<usize>, y: Seq<usize>)
    requires
        x.len() >= 1,
        y.len() >= 1,
    ensures
        cycle_sum(w, x + y) == cycle_sum(w, y + x),
{
    lemma_cycle_concat(w, x, y);
    lemma_cycle_concat(w, y, x);
}

/// Under a symmetric weight, a path costs the same walked backwards.
pub proof fn lemma_path_reverse(w: spec_fn(usize, usize) -> int, s: Seq<usize>)
    requires
        symmetric_on(w, s),
    ensures
        path_sum(w, s.reverse()) == path_sum(w, s),
    decreases s.len(),
{
    if s.len() >= 2 {
        let dl = s.drop_last();
        assert forall|a: usize, b: usize| dl.contains(a) && dl.contains(b) implies #[trigger] w(
            a,
            b,
        ) == w(b, a) by {
            let ia = choose|i: int| 0 <= i < dl.len() && dl[i] == a;
            let ib = choose|i: int| 0 <= i < dl.len() && dl[i] == b;
            assert(s[ia] == a);
            assert(s[ib] == b);
        }
        lemma_path_reverse(w, dl);
        let head = seq![s[s.len() - 1]];
        assert(s.reverse() =~= head + dl.reverse());
        lemma_path_concat(w, head, dl.reverse());
        assert(dl.reverse()[0] == s[s.len() - 2]);
        assert(s.contains(s[s.len() - 1]));
        assert(s.contains(s[s.len() - 2]));
        assert(w(s[s.len() - 1], s[s.len() - 2]) == w(s[s.len() - 2], s[s.len() - 1]));
    }
}

/// Path costs of non-negative weights are non-negative and at most `len - 1` edges.
pub proof fn lemma_path_bounds(w: spec_fn(usize, usize) -> int, t: Seq<usize>)
    requires
        bounded_weight(w),
    ensures
        0 <= path_sum(w, t),
        t.len() >= 1 ==> path_sum(w, t) <= (t.len() - 1) * u64::MAX,
    decreases t.len(),
{
    if t.len() >= 2 {
        lemma_path_bounds(w, t.drop_last());
        assert(0 <= w(t[t.len() - 2], t[t.len() - 1]) <= u64::MAX);
    }
}

/// Cycle costs of non-negative weights are non-negative and at most `len` edges.
pub proof fn lemma_cycle_bounds(w: spec_fn(usize, usize) -> int, t: Seq<usize>)
    requires
        bounded_weight(w),
    ensures
        0 <= cycle_sum(w, t) <= t.len() * u64::MAX,
{
    lemma_path_bounds(w, t);
    if t.len() >= 2 {
        assert(0 <= w(t[t.len() - 1], t[0]) <= u64::MAX);
    }
}


/// A path made of three non-empty pieces.
pub proof fn lemma_path_concat3(
    w: spec_fn(usize, usize) -> int,
    a: Seq<usize>,
    b: Seq<usize>,
    c: Seq<usize>,
)
    requires
        a.len() >= 1,
        b.len() >= 1,
        c.len() >= 1,
    ensures
        path_sum(w, a + b + c) == path_sum(w, a) + w(a[a.len() - 1], b[0]) + path_sum(w, b) + w(
            b[b.len() - 1],
            c[0],
        ) + path_sum(w, c),
{
    lemma_path_concat(w, a, b);
    lemma_path_concat(w, a + b, c);
    assert((a + b)[(a + b).len() - 1] == b[b.len() - 1]);
}

/// Every node of a sub-range of `t` is a node of `t`.
pub proof fn lemma_symmetric_subrange(
    w: spec_fn(usize, usize) -> int,
    t: Seq<usize>,
    lo: int,
    hi: int,
)
    requires
        symmetric_on(w, t),
        0 <= lo <= hi <= t.len(),
    ensures
        symmetric_on(w, t.subrange(lo, hi)),
{
    let s = t.subrange(lo, hi);
    assert forall|a: usize, b: usize| s.contains(a) && s.contains(b) implies #[trigger] w(a, b)
        == w(b, a) by {
        let ia = choose|i: int| 0 <= i < s.len() && s[i] == a;
        let ib = choose|i: int| 0 <= i < s.len() && s[i] == b;
        assert(t[lo + ia] == a);
        assert(t[lo + ib] == b);
    }
}

/// `t` with positions `i..=j` reversed (the 2-opt move).
pub open spec fn reversed_segment(t: Seq<usize>, i: int, j: int) -> Seq<usize> {
    t.take(i) + t.subrange(i, j + 1).reverse() + t.skip(j + 1)
}

/// Reversing `t[i..=j]` swaps the edges `(t[i-1], t[i])` and `(t[j], t[j+1])` for
/// `(t[i-1], t[j])` and `(t[i], t[j+1])` (indices taken round the cycle) and keeps
/// every other edge, up to direction.
pub proof fn lemma_two_opt_cost(w: spec_fn(usize, usize) -> int, t: Seq<usize>, i: int, j: int)
    requires
        1 <= i < j < t.len(),
        symmetric_on(w, t),
    ensures
        ({
            let l = t.len() as int;
            cycle_sum(w, reversed_segment(t, i, j)) + w(t[i - 1], t[i]) + w(t[j], t[(j + 1) % l])
                == cycle_sum(w, t) + w(t[i - 1], t[j]) + w(t[i], t[(j + 1) % l])
        }),
{
    let l = t.len() as int;
    let a = t.take(i);
    let s = t.subrange(i, j + 1);
    let b = t.skip(j + 1);
    let sr = s.reverse();
    lemma_symmetric_subrange(w, t, i, j + 1);
    lemma_path_reverse(w, s);
    assert(sr[0] == t[j]);
    assert(sr[sr.len() - 1] == t[i]);
    assert(a[a.len() - 1] == t[i - 1]);
    assert(a[0] == t[0]);
    if j + 1 == l {
        assert(t =~= a + s);
        assert(reversed_segment(t, i, j) =~= a + sr);
        assert((j + 1) % l == 0);
        lemma_cycle_concat(w, a, s);
        lemma_cycle_concat(w, a, sr);
    } else {
        vstd::arithmetic::div_mod::lemma_small_mod((j + 1) as nat, l as nat);
        assert(t =~= a + (s + b));
        assert(reversed_segment(t, i, j) =~= a + (sr + b));
        lemma_cycle_concat(w, a, s + b);
        lemma_cycle_concat(w, a, sr + b);
        lemma_path_concat(w, s, b);
        lemma_path_concat(w, sr, b);
        assert((s + b)[0] == t[i]);
        assert((sr + b)[0] == t[j]);
        assert((s + b)[(s + b).len() - 1] == b[b.len() - 1]);
        assert((sr + b)[(sr + b).len() - 1] == b[b.len() - 1]);
        assert(b[0] == t[j + 1]);
    }
}

/// `t` with the segment `t[s..s+k]` lifted out and re-inserted (optionally reversed)
/// right after the node that sat at position `p` (the Or-opt move).
pub open spec fn relocated(t: Seq<usize>, s: int, k: int, p: int, rev: bool) -> Seq<usize> {
    if k == 0 {
        t
    } else {
        relocated_segment(t, s, k, p, rev)
    }
}

/// A non-empty segment `t[s..s+k]` moved to follow position `p`.
pub open spec fn relocated_segment(t: Seq<usize>, s: int, k: int, p: int, rev: bool) -> Seq<usize> {
    let seg = t.subrange(s, s + k);
    let moved = if rev {
        seg.reverse()
    } else {
        seg
    };
    if p < s {
        t.take(p + 1) + moved + t.subrange(p + 1, s) + t.skip(s + k)
    } else {
        t.take(s) + t.subrange(s + k, p + 1) + moved + t.skip(p + 1)
    }
}

/// A relocation that can be carried out on a tour of `len` nodes: the segment lies in
/// the tour and, unless empty, `p` is a position outside it.
pub open spec fn relocatable(len: int, s: int, k: int, p: int) -> bool {
    &&& 0 <= s
    &&& 0 <= k
    &&& s + k <= len
    &&& k > 0 ==> 0 <= p < len && !(s <= p < s + k)
}

/// The positions an Or-opt move may use: a segment after position 0 and an insertion
/// edge `(t[p], t[p+1])` that neither touches nor lies inside the segment.
pub open spec fn relocation_ok(len: int, s: int, k: int, p: int) -> bool {
    &&& 1 <= s
    &&& 1 <= k
    &&& s + k <= len
    &&& 0 <= p < len
    &&& (p <= s - 2 || p >= s + k)
}

/// The pieces of a segment that is moved, possibly reversed.
proof fn lemma_moved_segment(w: spec_fn(usize, usize) -> int, t: Seq<usize>, s: int, k: int, rev: bool)
    requires
        1 <= k,
        0 <= s,
        s + k <= t.len(),
        rev ==> symmetric_on(w, t),
    ensures
        ({
            let seg = t.subrange(s, s + k);
            let moved = if rev {
                seg.reverse()
            } else {
                seg
            };
            &&& path_sum(w, moved) == path_sum(w, seg)
            &&& moved.len() == k
            &&& moved[0] == if rev {
                t[s + k - 1]
            } else {
                t[s]
            }
            &&& moved[moved.len() - 1] == if rev {
                t[s]
            } else {
                t[s + k - 1]
            }
            &&& seg[0] == t[s]
            &&& seg[seg.len() - 1] == t[s + k - 1]
        }),
{
    let seg = t.subrange(s, s + k);
    if rev {
        lemma_symmetric_subrange(w, t, s, s + k);
        lemma_path_reverse(w, seg);
    }
}

/// The edge exchange of an Or-opt move whose insertion point lies before the segment.
proof fn lemma_relocate_cost_before(
    w: spec_fn(usize, usize) -> int,
    t: Seq<usize>,
    s: int,
    k: int,
    p: int,
    rev: bool,
)
    requires
        relocation_ok(t.len() as int, s, k, p),
        p < s,
        rev ==> symmetric_on(w, t),
    ensures
        ({
            let l = t.len() as int;
            let prev = t[s - 1];
            let next = t[(s + k) % l];
            let sf = t[s];
            let sl = t[s + k - 1];
            let u = t[p];
            let v = t[(p + 1) % l];
            let x = if rev {
                sl
            } else {
                sf
            };
            let y = if rev {
                sf
            } else {
                sl
            };
            cycle_sum(w, relocated(t, s, k, p, rev)) + w(prev, sf) + w(sl, next) + w(u, v)
                == cycle_sum(w, t) + w(prev, next) + w(u, x) + w(y, v)
        }),
{
    let l = t.len() as int;
    let seg = t.subrange(s, s + k);
    let moved = if rev {
        seg.reverse()
    } else {
        seg
    };
    lemma_moved_segment(w, t, s, k, rev);
    let p1 = t.take(p + 1);
    let p2 = t.subrange(p + 1, s);
    let q = t.skip(s + k);
    assert(p1[p1.len() - 1] == t[p]);
    assert(p1[0] == t[0]);
    assert(p2[0] == t[p + 1]);
    assert(p2[p2.len() - 1] == t[s - 1]);
    vstd::arithmetic::div_mod::lemma_small_mod((p + 1) as nat, l as nat);
    if q.len() == 0 {
        assert(s + k == l);
        vstd::arithmetic::div_mod::lemma_mod_self_0(l);
        assert(t =~= p1 + (p2 + seg));
        assert(relocated(t, s, k, p, rev) =~= p1 + (moved + p2));
        lemma_cycle_concat(w, p1, p2 + seg);
        lemma_cycle_concat(w, p1, moved + p2);
        lemma_path_concat(w, p2, seg);
        lemma_path_concat(w, moved, p2);
        assert((p2 + seg)[0] == t[p + 1]);
        assert((p2 + seg)[(p2 + seg).len() - 1] == t[s + k - 1]);
        assert((moved + p2)[0] == moved[0]);
        assert((moved + p2)[(moved + p2).len() - 1] == t[s - 1]);
    } else {
        vstd::arithmetic::div_mod::lemma_small_mod((s + k) as nat, l as nat);
        assert(q[0] == t[s + k]);
        assert(t =~= p1 + (p2 + seg + q));
        assert(relocated(t, s, k, p, rev) =~= p1 + (moved + p2 + q));
        lemma_cycle_concat(w, p1, p2 + seg + q);
        lemma_cycle_concat(w, p1, moved + p2 + q);
        lemma_path_concat3(w, p2, seg, q);
        lemma_path_concat3(w, moved, p2, q);
        assert((p2 + seg + q)[0] == t[p + 1]);
        assert((p2 + seg + q)[(p2 + seg + q).len() - 1] == q[q.len() - 1]);
        assert((moved + p2 + q)[0] == moved[0]);
        assert((moved + p2 + q)[(moved + p2 + q).len() - 1] == q[q.len() - 1]);
    }
}

/// The edge exchange of an Or-opt move whose insertion point lies after the segment.
proof fn lemma_relocate_cost_after(
    w: spec_fn(usize, usize) -> int,
    t: Seq<usize>,
    s: int,
    k: int,
    p: int,
    rev: bool,
)
    requires
        relocation_ok(t.len() as int, s, k, p),
        p >= s + k,
        rev ==> symmetric_on(w, t),
    ensures
        ({
            let l = t.len() as int;
            let prev = t[s - 1];
            let next = t[(s + k) % l];
            let sf = t[s];
            let sl = t[s + k - 1];
            let u = t[p];
            let v = t[(p + 1) % l];
            let x = if rev {
                sl
            } else {
                sf
            };
            let y = if rev {
                sf
            } else {
                sl
            };
            cycle_sum(w, relocated(t, s, k, p, rev)) + w(prev, sf) + w(sl, next) + w(u, v)
                == cycle_sum(w, t) + w(prev, next) + w(u, x) + w(y, v)
        }),
{
    let l = t.len() as int;
    let seg = t.subrange(s, s + k);
    let moved = if rev {
        seg.reverse()
    } else {
        seg
    };
    lemma_moved_segment(w, t, s, k, rev);
    let pp = t.take(s);
    let q1 = t.subrange(s + k, p + 1);
    let q2 = t.skip(p + 1);
    assert(pp[pp.len() - 1] == t[s - 1]);
    assert(pp[0] == t[0]);
    assert(q1[0] == t[s + k]);
    assert(q1[q1.len() - 1] == t[p]);
    vstd::arithmetic::div_mod::lemma_small_mod((s + k) as nat, l as nat);
    if q2.len() == 0 {
        assert(p + 1 == l);
        vstd::arithmetic::div_mod::lemma_mod_self_0(l);
        assert(t =~= pp + (seg + q1));
        assert(relocated(t, s, k, p, rev) =~= pp + (q1 + moved));
        lemma_cycle_concat(w, pp, seg + q1);
        lemma_cycle_concat(w, pp, q1 + moved);
        lemma_path_concat(w, seg, q1);
        lemma_path_concat(w, q1, moved);
        assert((seg + q1)[0] == t[s]);
        assert((seg + q1)[(seg + q1).len() - 1] == t[p]);
        assert((q1 + moved)[0] == t[s + k]);
        assert((q1 + moved)[(q1 + moved).len() - 1] == moved[moved.len() - 1]);
    } else {
        vstd::arithmetic::div_mod::lemma_small_mod((p + 1) as nat, l as nat);
        assert(q2[0] == t[p + 1]);
        assert(t =~= pp + (seg + q1 + q2));
        assert(relocated(t, s, k, p, rev) =~= pp + (q1 + moved + q2));
        lemma_cycle_concat(w, pp, seg + q1 + q2);
        lemma_cycle_concat(w, pp, q1 + moved + q2);
        lemma_path_concat3(w, seg, q1, q2);
        lemma_path_concat3(w, q1, moved, q2);
        assert((seg + q1 + q2)[0] == t[s]);
        assert((seg + q1 + q2)[(seg + q1 + q2).len() - 1] == q2[q2.len() - 1]);
        assert((q1 + moved + q2)[0] == t[s + k]);
        assert((q1 + moved + q2)[(q1 + moved + q2).len() - 1] == q2[q2.len() - 1]);
    }
}

/// Relocating a segment trades the edges `(prev, first)`, `(last, next)` and `(u, v)`
/// for `(prev, next)`, `(u, x)` and `(y, v)`, where `x`/`y` are the moved segment's
/// new ends.
pub proof fn lemma_relocate_cost(
    w: spec_fn(usize, usize) -> int,
    t: Seq<usize>,
    s: int,
    k: int,
    p: int,
    rev: bool,
)
    requires
        relocation_ok(t.len() as int, s, k, p),
        rev ==> symmetric_on(w, t),
    ensures
        ({
            let l = t.len() as int;
            let prev = t[s - 1];
            let next = t[(s + k) % l];
            let sf = t[s];
            let sl = t[s + k - 1];
            let u = t[p];
            let v = t[(p + 1) % l];
            let x = if rev {
                sl
            } else {
                sf
            };
            let y = if rev {
                sf
            } else {
                sl
            };
            cycle_sum(w, relocated(t, s, k, p, rev)) + w(prev, sf) + w(sl, next) + w(u, v)
                == cycle_sum(w, t) + w(prev, next) + w(u, x) + w(y, v)
        }),
{
    if p < s {
        lemma_relocate_cost_before(w, t, s, k, p, rev);
    } else {
        lemma_relocate_cost_after(w, t, s, k, p, rev);
    }
}

/// A sequence with the same multiset of elements as a permutation of `0..m` is one too.
pub proof fn lemma_permutation_by_multiset(t: Seq<usize>, t2: Seq<usize>, m: nat)
    requires
        is_permutation(t, m),
        t2.to_multiset() == t.to_multiset(),
    ensures
        is_permutation(t2, m),
{
    broadcast use vstd::seq_lib::group_to_multiset_ensures;

    assert(t.no_duplicates());
    t.lemma_multiset_has_no_duplicates();
    t2.lemma_multiset_has_no_duplicates_conv();
    assert(t2.len() == t2.to_multiset().len());
    assert(t.len() == t.to_multiset().len());
    assert forall|i: int, j: int| 0 <= i < j < t2.len() implies t2[i] != t2[j] by {
        assert(t2.no_duplicates());
    }
    assert forall|i: int| 0 <= i < t2.len() implies #[trigger] t2[i] < m by {
        assert(t2.contains(t2[i]));
        assert(t2.to_multiset().count(t2[i]) > 0);
        assert(t.to_multiset().count(t2[i]) > 0);
        assert(t.contains(t2[i]));
        let q = choose|q: int| 0 <= q < t.len() && t[q] == t2[i];
        assert(t[q] < m);
    }
}

/// Three consecutive pieces of `t` put back together in another order keep its
/// multiset of elements.
pub proof fn lemma_multiset_concat3(a: Seq<usize>, b: Seq<usize>, c: Seq<usize>)
    ensures
        (a + b + c).to_multiset() == (a + c + b).to_multiset(),
        (a + b + c).to_multiset() == (b + a + c).to_multiset(),
{
    broadcast use vstd::multiset::group_multiset_axioms;

    vstd::seq_lib::lemma_multiset_commutative(a + b, c);
    vstd::seq_lib::lemma_multiset_commutative(a, b);
    vstd::seq_lib::lemma_multiset_commutative(a + c, b);
    vstd::seq_lib::lemma_multiset_commutative(a, c);
    vstd::seq_lib::lemma_multiset_commutative(b + a, c);
    vstd::seq_lib::lemma_multiset_commutative(b, a);
    assert((a + b + c).to_multiset() =~= (a + c + b).to_multiset());
    assert((a + b + c).to_multiset() =~= (b + a + c).to_multiset());
}

/// The 2-opt move keeps the multiset of nodes and every position before `i`.
pub proof fn lemma_reversed_segment_shape(t: Seq<usize>, i: int, j: int)
    requires
        0 <= i <= j < t.len(),
    ensures
        reversed_segment(t, i, j).len() == t.len(),
        reversed_segment(t, i, j).to_multiset() == t.to_multiset(),
        forall|q: int| 0 <= q < i ==> #[trigger] reversed_segment(t, i, j)[q] == t[q],
{
    broadcast use vstd::multiset::group_multiset_axioms;

    let a = t.take(i);
    let s = t.subrange(i, j + 1);
    let b = t.skip(j + 1);
    assert(t =~= a + s + b);
    s.lemma_reverse_to_multiset();
    vstd::seq_lib::lemma_multiset_commutative(a + s, b);
    vstd::seq_lib::lemma_multiset_commutative(a, s);
    vstd::seq_lib::lemma_multiset_commutative(a + s.reverse(), b);
    vstd::seq_lib::lemma_multiset_commutative(a, s.reverse());
    assert(reversed_segment(t, i, j).to_multiset() =~= t.to_multiset());
}

/// The Or-opt move keeps the multiset of nodes and every position before `s` and
/// up to `p`.
pub proof fn lemma_relocated_shape(t: Seq<usize>, s: int, k: int, p: int, rev: bool)
    requires
        relocation_ok(t.len() as int, s, k, p),
    ensures
        relocated(t, s, k, p, rev).len() == t.len(),
        relocated(t, s, k, p, rev).to_multiset() == t.to_multiset(),
        forall|q: int| 0 <= q < s && q <= p ==> #[trigger] relocated(t, s, k, p, rev)[q] == t[q],
{
    broadcast use vstd::multiset::group_multiset_axioms;

    let seg = t.subrange(s, s + k);
    let moved = if rev {
        seg.reverse()
    } else {
        seg
    };
    seg.lemma_reverse_to_multiset();
    assert(moved.to_multiset() == seg.to_multiset());
    if p < s {
        let p1 = t.take(p + 1);
        let p2 = t.subrange(p + 1, s);
        let q = t.skip(s + k);
        assert(t =~= p1 + p2 + seg + q);
        lemma_multiset_concat3(p2, seg, q);
        lemma_multiset_concat3(p1, p2 + seg, q);
        lemma_multiset_concat3(p1, seg + p2, q);
        vstd::seq_lib::lemma_multiset_commutative(p2, seg);
        vstd::seq_lib::lemma_multiset_commutative(moved, p2);
        vstd::seq_lib::lemma_multiset_commutative(p1 + (moved + p2), q);
        vstd::seq_lib::lemma_multiset_commutative(p1, moved + p2);
        vstd::seq_lib::lemma_multiset_commutative(p1 + (p2 + seg), q);
        vstd::seq_lib::lemma_multiset_commutative(p1, p2 + seg);
        assert(p1 + moved + p2 + q =~= p1 + (moved + p2) + q);
        assert(p1 + p2 + seg + q =~= p1 + (p2 + seg) + q);
        assert(relocated(t, s, k, p, rev).to_multiset() =~= t.to_multiset());
    } else {
        let pp = t.take(s);
        let q1 = t.subrange(s + k, p + 1);
        let q2 = t.skip(p + 1);
        assert(t =~= pp + seg + q1 + q2);
        vstd::seq_lib::lemma_multiset_commutative(seg, q1);
        vstd::seq_lib::lemma_multiset_commutative(q1, moved);
        vstd::seq_lib::lemma_multiset_commutative(pp + (q1 + moved), q2);
        vstd::seq_lib::lemma_multiset_commutative(pp, q1 + moved);
        vstd::seq_lib::lemma_multiset_commutative(pp + (seg + q1), q2);
        vstd::seq_lib::lemma_multiset_commutative(pp, seg + q1);
        assert(pp + q1 + moved + q2 =~= pp + (q1 + moved) + q2);
        assert(pp + seg + q1 + q2 =~= pp + (seg + q1) + q2);
        assert(relocated(t, s, k, p, rev).to_multiset() =~= t.to_multiset());
    }
}

/// Where the leg leaving position `i` of `order` goes: the next stop, or, after the
/// last stop, back to the first (the return leg of a closed tour).
pub open spec fn leg_target(order: Seq<usize>, i: int) -> usize {
    if i + 1 < order.len() {
        order[i + 1]
    } else {
        order[0]
    }
}

/// Total weight of the first `k` legs of `order`.
pub open spec fn legs_sum(w: spec_fn(usize, usize) -> int, order: Seq<usize>, k: int) -> int
    decreases k,
{
    if k <= 0 {
        0
    } else {
        legs_sum(w, order, k - 1) + w(order[k - 1], leg_target(order, k - 1))
    }
}

/// The first `k < len` legs are the open path through the first `k + 1` stops; all
/// `len` legs are the whole path plus the return leg.
pub proof fn lemma_legs_sum(w: spec_fn(usize, usize) -> int, order: Seq<usize>, k: int)
    requires
        1 <= order.len(),
        0 <= k <= order.len(),
    ensures
        k < order.len() ==> legs_sum(w, order, k) == path_sum(w, order.take(k + 1)),
        k == order.len() ==> legs_sum(w, order, k) == path_sum(w, order) + w(
            order[order.len() - 1],
            order[0],
        ),
    decreases k,
{
    if k > 0 {
        lemma_legs_sum(w, order, k - 1);
        if k < order.len() {
            let t = order.take(k + 1);
            assert(t.drop_last() =~= order.take(k));
        } else {
            assert(order.take(k) =~= order);
        }
    }
}

/// With weights in `0 ..= u64::MAX`, `k` legs weigh at most `k` times the maximum.
pub proof fn lemma_legs_sum_bounds(w: spec_fn(usize, usize) -> int, order: Seq<usize>, k: int)
    requires
        bounded_weight(w),
        0 <= k,
    ensures
        0 <= legs_sum(w, order, k) <= k * u64::MAX,
    decreases k,
{
    if k > 0 {
        lemma_legs_sum_bounds(w, order, k - 1);
        assert(0 <= w(order[k - 1], leg_target(order, k - 1)) <= u64::MAX);
    }
}

/// Up to `2^64` legs of at most `u64::MAX` each fit in a `u128`.
pub proof fn lemma_legs_fit_u128(k: int)
    requires
        0 <= k <= u64::MAX + 1,
    ensures
        k * u64::MAX < u128::MAX,
{
    assert(k * u64::MAX <= (u64::MAX + 1) * u64::MAX) by (nonlinear_arith)
        requires
            0 <= k <= u64::MAX + 1,
    ;
}

} // verus!
