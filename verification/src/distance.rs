//! The dense cost matrix the route search works on.
//!
//! Perceived walking costs are held as non-negative integers (fixed-point units);
//! sums of costs along a tour are held in `u128`, which cannot overflow.

use vstd::prelude::*;

verus! {

/// A dense `N × N` matrix of perceived costs, stored row-major in full so a future
/// asymmetric model is a data change, not a structural one.
pub struct DistanceMatrix {
    n: usize,
    data: Vec<u64>,
}

impl DistanceMatrix {
    #[verifier::type_invariant]
    spec fn inv(self) -> bool {
        &&& self.data@.len() == self.n * self.n
        &&& self.n * self.n <= usize::MAX
    }

    /// Number of nodes.
    pub closed spec fn size(self) -> nat {
        self.n as nat
    }

    /// Cost of the edge from `i` to `j`.
    pub closed spec fn entry(self, i: int, j: int) -> int {
        self.data@[i * self.n + j] as int
    }

    /// Every cost equals its mirror image.
    pub open spec fn is_symmetric(self) -> bool {
        forall|i: int, j: int|
            0 <= i < self.size() && 0 <= j < self.size() ==> #[trigger] self.entry(i, j)
                == self.entry(j, i)
    }

    /// Every cost fits in a `u64`.
    pub proof fn lemma_entry_bounds(self, i: int, j: int)
        ensures
            0 <= self.entry(i, j) <= u64::MAX,
    {
    }

    /// Build an `n × n` matrix from a cost function `f(i, j)`.
    pub fn from_fn<F: Fn(usize, usize) -> u64>(n: usize, f: F) -> (m: Self)
        requires
            n * n <= usize::MAX,
            forall|i: usize, j: usize| i < n && j < n ==> call_requires(f, (i, j)),
        ensures
            m.size() == n,
            forall|i: usize, j: usize|
                i < n && j < n ==> call_ensures(f, (i, j), #[trigger] (m.entry(i as int, j as int) as u64)),
    {
        let mut data: Vec<u64> = Vec::new();
        let total = n * n;
        let mut i: usize = 0;
        while i < n
            invariant
                i <= n,
                total == n * n,
                n * n <= usize::MAX,
                data@.len() == i * n,
                forall|i: usize, j: usize| i < n && j < n ==> call_requires(f, (i, j)),
                forall|a: usize, b: usize|
                    a < i && b < n ==> call_ensures(f, (a, b), #[trigger] data@[a * n + b]),
            decreases n - i,
        {
            let mut j: usize = 0;
            while j < n
                invariant
                    i < n,
                    j <= n,
                    total == n * n,
                    n * n <= usize::MAX,
                    data@.len() == i * n + j,
                    forall|i: usize, j: usize| i < n && j < n ==> call_requires(f, (i, j)),
                    forall|a: usize, b: usize|
                        (a < i && b < n) || (a == i && b < j) ==> call_ensures(
                            f,
                            (a, b),
                            #[trigger] data@[a * n + b],
                        ),
                decreases n - j,
            {
                proof {
                    lemma_index_in_bounds(i as int, j as int, n as int);
                }
                let v = f(i, j);
                let ghost old_data = data@;
                data.push(v);
                proof {
                    assert forall|a: usize, b: usize|
                        (a < i && b < n) || (a == i && b < j + 1) implies call_ensures(
                        f,
                        (a, b),
                        #[trigger] data@[a * n + b],
                    ) by {
                        lemma_index_in_bounds(a as int, b as int, n as int);
                        if a == i && b == j {
                        } else {
                            lemma_row_major_lt(a as int, b as int, i as int, j as int, n as int);
                            assert(data@[a * n + b] == old_data[a * n + b]);
                        }
                    }
                }
                j = j + 1;
            }
            proof {
                assert((i + 1) * n == i * n + n) by (nonlinear_arith);
            }
            i = i + 1;
        }
        let m = DistanceMatrix { n, data };
        proof {
            assert forall|a: usize, b: usize| a < n && b < n implies call_ensures(
                f,
                (a, b),
                #[trigger] (m.entry(a as int, b as int) as u64),
            ) by {
                lemma_index_in_bounds(a as int, b as int, n as int);
                assert(m.data@[a * n + b] as int as u64 == m.data@[a * n + b]);
            }
        }
        m
    }

    /// Number of nodes.
    pub fn len(&self) -> (r: usize)
        ensures
            r == self.size(),
            r * r <= usize::MAX,
    {
        proof {
            use_type_invariant(self);
        }
        self.n
    }

    /// Whether the matrix has no nodes.
    pub fn is_empty(&self) -> (r: bool)
        ensures
            r == (self.size() == 0),
    {
        self.n == 0
    }

    /// Cost of the edge from `i` to `j`.
    pub fn get(&self, i: usize, j: usize) -> (r: u64)
        requires
            i < self.size(),
            j < self.size(),
        ensures
            r == self.entry(i as int, j as int),
    {
        proof {
            use_type_invariant(self);
            lemma_index_in_bounds(i as int, j as int, self.n as int);
        }
        self.data[i * self.n + j]
    }

    /// Whether every cost equals its mirror image (what the route search asks of its
    /// matrix).
    pub fn symmetric(&self) -> (b: bool)
        ensures
            b == self.is_symmetric(),
    {
        let n = self.len();
        let mut i: usize = 0;
        while i < n
            invariant
                n == self.size(),
                i <= n,
                forall|a: int, c: int| 0 <= a < i && 0 <= c < n ==> #[trigger] self.entry(a, c)
                    == self.entry(c, a),
            decreases n - i,
        {
            let mut j: usize = 0;
            while j < n
                invariant
                    n == self.size(),
                    i < n,
                    j <= n,
                    forall|a: int, c: int|
                        (0 <= a < i && 0 <= c < n) || (a == i && 0 <= c < j) ==> #[trigger] self.entry(
                            a,
                            c,
                        ) == self.entry(c, a),
                decreases n - j,
            {
                if self.get(i, j) != self.get(j, i) {
                    return false;
                }
                j = j + 1;
            }
            i = i + 1;
        }
        true
    }
}

/// Row-major indices of an `n × n` matrix lie inside it.
pub proof fn lemma_index_in_bounds(i: int, j: int, n: int)
    requires
        0 <= i < n,
        0 <= j < n,
    ensures
        0 <= i * n + j < n * n,
        0 <= i * n,
{
    assert(0 <= i * n + j < n * n) by (nonlinear_arith)
        requires
            0 <= i < n,
            0 <= j < n,
    ;
    assert(0 <= i * n) by (nonlinear_arith)
        requires
            0 <= i,
            0 <= n,
    ;
}

/// Row-major order: an earlier cell has a smaller index.
proof fn lemma_row_major_lt(a: int, b: int, i: int, j: int, n: int)
    requires
        0 <= b < n,
        0 <= j < n,
        a < i || (a == i && b < j),
        0 <= a,
    ensures
        a * n + b < i * n + j,
{
    if a < i {
        assert(a * n + n <= i * n) by (nonlinear_arith)
            requires
                a < i,
                0 <= n,
        ;
    }
}

} // verus!
