//! Compact weighted adjacency in compressed sparse row form.
//!
//! Built once from a node count and a list of weighted edges by a
//! two-pass counting sort; each node's neighbors then sit in one
//! contiguous block, in the reverse of insertion order (a consequence
//! of the backward placement pass, kept as a documented contract).

use vstd::prelude::*;

verus! {

/// Number of edges among the first `k` whose source is `u`.
pub open spec fn src_count<T>(edges: Seq<(usize, usize, T)>, u: int, k: int) -> int
    decreases k,
{
    if k <= 0 {
        0int
    } else {
        src_count(edges, u, k - 1) + if edges[k - 1].0 == u {
            1int
        } else {
            0int
        }
    }
}

/// Number of edges among the first `k` whose source is below `u`.
pub open spec fn below_count<T>(edges: Seq<(usize, usize, T)>, u: int, k: int) -> int
    decreases k,
{
    if k <= 0 {
        0int
    } else {
        below_count(edges, u, k - 1) + if edges[k - 1].0 < u {
            1int
        } else {
            0int
        }
    }
}

/// Adjacency row of node `u` after the first `k` edges: the
/// `(target, weight)` pairs of the edges with source `u`, newest first.
pub open spec fn row_of<T>(edges: Seq<(usize, usize, T)>, u: int, k: int) -> Seq<(usize, T)>
    decreases k,
{
    if k <= 0 {
        Seq::empty()
    } else {
        (if edges[k - 1].0 == u {
            seq![(edges[k - 1].1, edges[k - 1].2)]
        } else {
            Seq::empty()
        }) + row_of(edges, u, k - 1)
    }
}

/// Counts are non-negative and bounded by the prefix length, and a
/// row's length is its source count.
proof fn lemma_count_bounds<T>(edges: Seq<(usize, usize, T)>, u: int, k: int)
    ensures
        0 <= src_count(edges, u, k),
        0 <= below_count(edges, u, k),
        k >= 0 ==> src_count(edges, u, k) <= k,
        k >= 0 ==> below_count(edges, u, k) <= k,
        row_of(edges, u, k).len() == src_count(edges, u, k),
    decreases k,
{
    if k > 0 {
        lemma_count_bounds(edges, u, k - 1);
    }
}

/// Counting below `u + 1` splits into counting below `u` and at `u`.
proof fn lemma_below_split<T>(edges: Seq<(usize, usize, T)>, u: int, k: int)
    ensures
        below_count(edges, u + 1, k) == below_count(edges, u, k) + src_count(edges, u, k),
    decreases k,
{
    if k > 0 {
        lemma_below_split(edges, u, k - 1);
    }
}

/// `below_count` is monotone in the node bound.
proof fn lemma_below_mono<T>(edges: Seq<(usize, usize, T)>, a: int, b: int, k: int)
    requires
        a <= b,
    ensures
        below_count(edges, a, k) <= below_count(edges, b, k),
    decreases k,
{
    if k > 0 {
        lemma_below_mono(edges, a, b, k - 1);
    }
}

/// `src_count` is monotone in the prefix length.
proof fn lemma_src_count_mono<T>(edges: Seq<(usize, usize, T)>, u: int, k1: int, k2: int)
    requires
        k1 <= k2,
    ensures
        src_count(edges, u, k1) <= src_count(edges, u, k2),
    decreases k2 - k1,
{
    if k2 > k1 {
        lemma_src_count_mono(edges, u, k1, k2 - 1);
    }
}

/// Nothing has a source below zero.
proof fn lemma_below_zero<T>(edges: Seq<(usize, usize, T)>, k: int)
    ensures
        below_count(edges, 0, k) == 0,
    decreases k,
{
    if k > 0 {
        lemma_below_zero(edges, k - 1);
    }
}

/// Compressed sparse row adjacency: a flat array of `(target, weight)`
/// pairs and a prefix-offset array, one block per source node.
pub struct Csr<T> {
    values: Vec<(usize, T)>,
    pref: Vec<usize>,
    edges: Ghost<Seq<(usize, usize, T)>>,
}

impl<T: Copy> Csr<T> {
    /// The directed edge list this structure was built from.
    pub closed spec fn spec_edges(&self) -> Seq<(usize, usize, T)> {
        self.edges@
    }

    /// Number of nodes.
    pub closed spec fn spec_nodes(&self) -> nat {
        (self.pref@.len() - 1) as nat
    }

    /// The adjacency: one row per node, reverse insertion order.
    pub open spec fn view(&self) -> Seq<Seq<(usize, T)>> {
        Seq::new(
            self.spec_nodes(),
            |u: int| row_of(self.spec_edges(), u, self.spec_edges().len() as int),
        )
    }

    /// Well-formed: offsets follow the counting sort and each block
    /// holds its node's adjacency row.
    pub closed spec fn inv(&self) -> bool {
        let n = self.spec_nodes() as int;
        let m = self.edges@.len() as int;
        &&& self.pref@.len() >= 1
        &&& self.values@.len() == m
        &&& forall|u: int|
            0 <= u <= n ==> #[trigger] self.pref@[u] == below_count(self.edges@, u, m)
        &&& forall|e: int| 0 <= e < m ==> (#[trigger] self.edges@[e]).0 < n
        &&& forall|u: int|
            0 <= u < n ==> #[trigger] self.values@.subrange(
                below_count(self.edges@, u, m),
                below_count(self.edges@, u + 1, m),
            ) == row_of(self.edges@, u, m)
    }

    /// Builds the adjacency of a directed graph: every edge `(u, v, w)`
    /// appears exactly once, in node `u`'s row.
    pub fn from_directed_edges(n: usize, edges: Vec<(usize, usize, T)>) -> (r: Self)
        requires
            forall|e: int| 0 <= e < edges@.len() ==> (#[trigger] edges@[e]).0 < n,
            n < usize::MAX,
        ensures
            r.inv(),
            r.spec_nodes() == n,
            r.spec_edges() == edges@,
            r@.len() == n,
            forall|u: int|
                0 <= u < n ==> #[trigger] r@[u] == row_of(edges@, u, edges@.len() as int),
    {
        let ghost es = edges@;
        let m = edges.len();
        let mut pref: Vec<usize> = Vec::new();
        let mut i: usize = 0;
        while i <= n
            invariant
                pref@.len() == i,
                i <= n + 1,
                n < usize::MAX,
                forall|u: int| 0 <= u < i ==> pref@[u] == 0,
            decreases n + 1 - i,
        {
            pref.push(0);
            i = i + 1;
        }
        // first pass: out-degree per source
        let mut k: usize = 0;
        while k < m
            invariant
                pref@.len() == n + 1,
                k <= m,
                m == es.len(),
                es == edges@,
                forall|e: int| 0 <= e < es.len() ==> (#[trigger] es[e]).0 < n,
                forall|u: int| 0 <= u <= n ==> #[trigger] pref@[u] == src_count(es, u, k as int),
            decreases m - k,
        {
            let u = edges[k].0;
            proof {
                lemma_count_bounds(es, u as int, k as int);
            }
            let c = pref[u];
            pref[u] = c + 1;
            k = k + 1;
        }
        // second pass: inclusive prefix sums
        proof {
            lemma_below_zero(es, m as int);
            lemma_below_split(es, 0, m as int);
        }
        let mut i: usize = 0;
        while i < n
            invariant
                pref@.len() == n + 1,
                i <= n,
                m == es.len(),
                forall|u: int|
                    0 <= u <= i ==> #[trigger] pref@[u] == below_count(es, u + 1, m as int),
                forall|u: int| i < u <= n ==> #[trigger] pref@[u] == src_count(es, u, m as int),
            decreases n - i,
        {
            proof {
                lemma_below_split(es, i + 1 as int, m as int);
                lemma_count_bounds(es, i + 2 as int, m as int);
            }
            let a = pref[i];
            let b = pref[i + 1];
            pref[i + 1] = a + b;
            i = i + 1;
        }
        // third pass: place each edge backward in its source's block
        let mut values: Vec<(usize, T)> = Vec::new();
        if m > 0 {
            let fill = (edges[0].1, edges[0].2);
            let mut i: usize = 0;
            while i < m
                invariant
                    values@.len() == i,
                    i <= m,
                decreases m - i,
            {
                values.push(fill);
                i = i + 1;
            }
        }
        proof {
            assert forall|u: int|
                0 <= u < n implies #[trigger] values@.subrange(
                below_count(es, u + 1, m as int) - src_count(es, u, 0),
                below_count(es, u + 1, m as int),
            ) == row_of(es, u, 0) by {
                lemma_count_bounds(es, u + 1 as int, m as int);
                assert(values@.subrange(
                    below_count(es, u + 1, m as int),
                    below_count(es, u + 1, m as int),
                ) =~= Seq::<(usize, T)>::empty());
            }
        }
        let mut k: usize = 0;
        while k < m
            invariant
                pref@.len() == n + 1,
                values@.len() == m,
                k <= m,
                m == es.len(),
                es == edges@,
                forall|e: int| 0 <= e < es.len() ==> (#[trigger] es[e]).0 < n,
                forall|u: int|
                    0 <= u <= n ==> #[trigger] pref@[u] == below_count(es, u + 1, m as int)
                        - src_count(es, u, k as int),
                forall|u: int|
                    0 <= u < n ==> #[trigger] values@.subrange(
                        below_count(es, u + 1, m as int) - src_count(es, u, k as int),
                        below_count(es, u + 1, m as int),
                    ) == row_of(es, u, k as int),
            decreases m - k,
        {
            let (u, v, w) = edges[k];
            let ghost mm = m as int;
            proof {
                assert(es[k as int].0 == u);
                assert(src_count(es, u as int, k + 1) == src_count(es, u as int, k as int) + 1);
                lemma_below_split(es, u as int, mm);
                lemma_src_count_mono(es, u as int, k + 1, mm);
                lemma_count_bounds(es, u as int, k as int);
                lemma_count_bounds(es, u as int, mm);
                lemma_count_bounds(es, u + 1 as int, mm);
                lemma_below_mono(es, 0, u as int, mm);
                lemma_below_zero(es, mm);
            }
            let ghost vold = values@;
            let p = pref[u] - 1;
            pref[u] = p;
            values[p] = (v, w);
            proof {
                assert(values@ == vold.update(p as int, (v, w)));
                assert forall|u2: int|
                    0 <= u2 <= n implies #[trigger] pref@[u2] == below_count(es, u2 + 1, mm)
                        - src_count(es, u2, k + 1) by {
                    if u2 != u {
                        assert(src_count(es, u2, k + 1) == src_count(es, u2, k as int));
                    }
                }
                assert forall|u2: int|
                    0 <= u2 < n implies #[trigger] values@.subrange(
                    below_count(es, u2 + 1, mm) - src_count(es, u2, k + 1),
                    below_count(es, u2 + 1, mm),
                ) == row_of(es, u2, k + 1) by {
                    lemma_below_split(es, u2, mm);
                    lemma_src_count_mono(es, u2, k + 1, mm);
                    lemma_count_bounds(es, u2, k as int);
                    lemma_count_bounds(es, u2, mm);
                    lemma_count_bounds(es, u2 + 1, mm);
                    if u2 == u {
                        assert(values@.subrange(
                            below_count(es, u2 + 1, mm) - src_count(es, u2, k + 1),
                            below_count(es, u2 + 1, mm),
                        ) =~= seq![(v, w)] + vold.subrange(
                            below_count(es, u2 + 1, mm) - src_count(es, u2, k as int),
                            below_count(es, u2 + 1, mm),
                        ));
                        assert(row_of(es, u2, k + 1) =~= seq![(v, w)] + row_of(es, u2, k as int));
                    } else {
                        assert(src_count(es, u2, k + 1) == src_count(es, u2, k as int));
                        if u2 < u {
                            lemma_below_mono(es, u2 + 1, u as int, mm);
                        } else {
                            lemma_below_mono(es, u + 1, u2, mm);
                        }
                        assert(values@.subrange(
                            below_count(es, u2 + 1, mm) - src_count(es, u2, k as int),
                            below_count(es, u2 + 1, mm),
                        ) =~= vold.subrange(
                            below_count(es, u2 + 1, mm) - src_count(es, u2, k as int),
                            below_count(es, u2 + 1, mm),
                        ));
                    }
                }
            }
            k = k + 1;
        }
        let r = Csr { values, pref, edges: Ghost(es) };
        proof {
            assert forall|u: int| 0 <= u <= n as int implies #[trigger] r.pref@[u] == below_count(
                es,
                u,
                m as int,
            ) by {
                lemma_below_split(es, u, m as int);
            }
            assert forall|u: int|
                0 <= u < n as int implies #[trigger] r.values@.subrange(
                below_count(es, u, m as int),
                below_count(es, u + 1, m as int),
            ) == row_of(es, u, m as int) by {
                lemma_below_split(es, u, m as int);
                assert(r.values@.subrange(
                    below_count(es, u + 1, m as int) - src_count(es, u, m as int),
                    below_count(es, u + 1, m as int),
                ) == row_of(es, u, m as int));
            }
            assert forall|u: int| 0 <= u < n as int implies #[trigger] r@[u] == row_of(
                es,
                u,
                m as int,
            ) by {}
        }
        r
    }

    /// Builds the adjacency of an undirected graph: every edge
    /// `(u, v, w)` appears in both endpoints' rows (twice in the same
    /// row for a self-loop).
    pub fn from_undirected_edges(n: usize, edges: Vec<(usize, usize, T)>) -> (r: Self)
        requires
            forall|e: int|
                0 <= e < edges@.len() ==> (#[trigger] edges@[e]).0 < n && edges@[e].1 < n,
            n < usize::MAX,
            edges@.len() <= usize::MAX / 2,
        ensures
            r.inv(),
            r.spec_nodes() == n,
            r.spec_edges() == doubled(edges@),
            r@.len() == n,
            forall|u: int|
                0 <= u < n ==> #[trigger] r@[u] == row_of(
                    doubled(edges@),
                    u,
                    2 * edges@.len() as int,
                ),
    {
        let m = edges.len();
        let mut both: Vec<(usize, usize, T)> = Vec::new();
        let mut k: usize = 0;
        while k < m
            invariant
                both@.len() == 2 * k as int,
                k <= m,
                m == edges@.len(),
                m <= usize::MAX / 2,
                both@ == doubled(edges@).take(2 * k as int),
                forall|e: int|
                    0 <= e < edges@.len() ==> (#[trigger] edges@[e]).0 < n && edges@[e].1 < n,
            decreases m - k,
        {
            let (u, v, w) = edges[k];
            both.push((u, v, w));
            both.push((v, u, w));
            proof {
                assert(both@ =~= doubled(edges@).take(2 * (k + 1) as int));
            }
            k = k + 1;
        }
        proof {
            assert(both@ =~= doubled(edges@));
            assert forall|e: int|
                0 <= e < both@.len() implies (#[trigger] both@[e]).0 < n by {}
        }
        Self::from_directed_edges(n, both)
    }

    /// Number of nodes.
    pub fn num_nodes(&self) -> (r: usize)
        requires
            self.inv(),
        ensures
            r == self.spec_nodes(),
    {
        self.pref.len() - 1
    }

    /// Number of neighbors of node `u`.
    pub fn degree(&self, u: usize) -> (d: usize)
        requires
            self.inv(),
            u < self.spec_nodes(),
        ensures
            d == self@[u as int].len(),
    {
        let np = self.pref.len();
        proof {
            let m = self.edges@.len() as int;
            lemma_below_mono(self.edges@, u as int, u + 1 as int, m);
            lemma_below_split(self.edges@, u as int, m);
            lemma_count_bounds(self.edges@, u as int, m);
        }
        self.pref[u + 1] - self.pref[u]
    }

    /// The `k`-th neighbor of node `u`, as a `(target, weight)` pair.
    pub fn neighbor(&self, u: usize, k: usize) -> (e: (usize, T))
        requires
            self.inv(),
            u < self.spec_nodes(),
            k < self@[u as int].len(),
        ensures
            e == self@[u as int][k as int],
    {
        let np = self.pref.len();
        let nv = self.values.len();
        proof {
            let m = self.edges@.len() as int;
            lemma_below_split(self.edges@, u as int, m);
            lemma_count_bounds(self.edges@, u as int, m);
            lemma_below_mono(self.edges@, u + 1 as int, self.spec_nodes() as int, m);
            lemma_count_bounds(self.edges@, self.spec_nodes() as int, m);
            lemma_below_mono(self.edges@, 0, u as int, m);
            lemma_below_zero(self.edges@, m);
            assert(self.values@.subrange(
                below_count(self.edges@, u as int, m),
                below_count(self.edges@, u + 1 as int, m),
            ) == row_of(self.edges@, u as int, m));
            assert(below_count(self.edges@, u + 1 as int, m) <= m) by {
                lemma_count_bounds(self.edges@, u + 1 as int, m);
            }
        }
        self.values[self.pref[u] + k]
    }

    /// All neighbors of node `u`, newest insertion first.
    pub fn neighbors_vec(&self, u: usize) -> (v: Vec<(usize, T)>)
        requires
            self.inv(),
            u < self.spec_nodes(),
        ensures
            v@ == self@[u as int],
    {
        let d = self.degree(u);
        let mut v: Vec<(usize, T)> = Vec::new();
        let mut k: usize = 0;
        while k < d
            invariant
                self.inv(),
                u < self.spec_nodes(),
                d == self@[u as int].len(),
                v@.len() == k,
                k <= d,
                forall|t: int| 0 <= t < k ==> v@[t] == self@[u as int][t],
            decreases d - k,
        {
            let e = self.neighbor(u, k);
            v.push(e);
            k = k + 1;
        }
        proof {
            assert(v@ =~= self@[u as int]);
        }
        v
    }
}

/// The directed edge list of an undirected graph: each input edge once
/// in each direction, in input order.
pub open spec fn doubled<T>(edges: Seq<(usize, usize, T)>) -> Seq<(usize, usize, T)> {
    Seq::new(
        2 * edges.len(),
        |j: int|
            if j % 2 == 0 {
                edges[j / 2]
            } else {
                (edges[j / 2].1, edges[j / 2].0, edges[j / 2].2)
            },
    )
}

} // verus!
