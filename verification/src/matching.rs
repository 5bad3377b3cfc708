//! Bipartite matching by alternating-path search (Kuhn's algorithm).
//!
//! The result is verified to be a matching (each side used at most
//! once, only along recorded edges) and maximal (no recorded edge has
//! both endpoints free). Maximum cardinality is what the algorithm is
//! for, but is not part of the verified contract.

use vstd::prelude::*;

verus! {

/// Number of positions among the first `k` that are not the sentinel.
pub open spec fn matched_count(w: Seq<usize>, k: int) -> int
    decreases k,
{
    if k <= 0 {
        0int
    } else {
        matched_count(w, k - 1) + if w[k - 1] != usize::MAX {
            1int
        } else {
            0int
        }
    }
}

/// Matched counts are bounded and grow pointwise.
proof fn lemma_matched_count_le(a: Seq<usize>, b: Seq<usize>, k: int)
    requires
        forall|t: int| 0 <= t < k ==> (a[t] != usize::MAX ==> #[trigger] b[t] != usize::MAX),
    ensures
        matched_count(a, k) <= matched_count(b, k),
        k >= 0 ==> 0 <= matched_count(a, k) <= k,
    decreases k,
{
    if k > 0 {
        lemma_matched_count_le(a, b, k - 1);
    }
}

/// A pointwise-strict improvement raises the count.
proof fn lemma_matched_count_lt(a: Seq<usize>, b: Seq<usize>, k: int, u: int)
    requires
        forall|t: int| 0 <= t < k ==> (a[t] != usize::MAX ==> #[trigger] b[t] != usize::MAX),
        0 <= u < k,
        a[u] == usize::MAX,
        b[u] != usize::MAX,
    ensures
        matched_count(a, k) < matched_count(b, k),
    decreases k,
{
    if u == k - 1 {
        lemma_matched_count_le(a, b, k - 1);
    } else {
        lemma_matched_count_lt(a, b, k - 1, u);
    }
}

/// Number of unvisited entries among the first `k`.
pub open spec fn unvisited_count(c: Seq<bool>, k: int) -> int
    decreases k,
{
    if k <= 0 {
        0int
    } else {
        unvisited_count(c, k - 1) + if !c[k - 1] {
            1int
        } else {
            0int
        }
    }
}

/// Unvisited counts are bounded and shrink pointwise.
proof fn lemma_unvisited_le(a: Seq<bool>, b: Seq<bool>, k: int)
    requires
        forall|t: int| 0 <= t < k ==> (a[t] ==> #[trigger] b[t]),
    ensures
        unvisited_count(b, k) <= unvisited_count(a, k),
        k >= 0 ==> 0 <= unvisited_count(b, k) <= k,
    decreases k,
{
    if k > 0 {
        lemma_unvisited_le(a, b, k - 1);
    }
}

/// Newly visiting one entry strictly shrinks the count.
proof fn lemma_unvisited_lt(a: Seq<bool>, b: Seq<bool>, k: int, u: int)
    requires
        forall|t: int| 0 <= t < k ==> (a[t] ==> #[trigger] b[t]),
        0 <= u < k,
        !a[u],
        b[u],
    ensures
        unvisited_count(b, k) < unvisited_count(a, k),
    decreases k,
{
    if u == k - 1 {
        lemma_unvisited_le(a, b, k - 1);
    } else {
        lemma_unvisited_lt(a, b, k - 1, u);
    }
}

/// Candidate pairings between `n` left nodes and `m` right nodes.
pub struct BipartiteMatching {
    n: usize,
    m: usize,
    adj: Vec<Vec<usize>>,
}

impl BipartiteMatching {
    /// Number of left nodes.
    pub closed spec fn spec_n(&self) -> nat {
        self.n as nat
    }

    /// Number of right nodes.
    pub closed spec fn spec_m(&self) -> nat {
        self.m as nat
    }

    /// The recorded candidate edges, as one list per left node.
    pub closed spec fn view(&self) -> Seq<Seq<usize>> {
        Seq::new(self.adj@.len(), |u: int| self.adj@[u]@)
    }

    /// There is a recorded edge from left `u` to right `v`.
    pub open spec fn spec_edge(&self, u: int, v: int) -> bool {
        0 <= u < self@.len() && self@[u].contains(v as usize)
    }

    /// Well-formed: one adjacency list per left node, targets in range.
    pub closed spec fn inv(&self) -> bool {
        &&& self.adj@.len() == self.n as int
        &&& forall|u: int, k: int|
            0 <= u < self.n as int && 0 <= k < self.adj@[u]@.len() ==> #[trigger] self.adj@[u]@[k]
                < self.m
        &&& self.m < usize::MAX
        &&& self.n < usize::MAX
    }

    /// Fresh instance with no candidate edges.
    pub fn new(n: usize, m: usize) -> (r: Self)
        requires
            n < usize::MAX,
            m < usize::MAX,
        ensures
            r.inv(),
            r.spec_n() == n,
            r.spec_m() == m,
            forall|u: int| 0 <= u < n ==> #[trigger] r@[u] == Seq::<usize>::empty(),
    {
        let mut adj: Vec<Vec<usize>> = Vec::new();
        let mut i: usize = 0;
        while i < n
            invariant
                adj@.len() == i,
                i <= n,
                forall|u: int| 0 <= u < i ==> #[trigger] adj@[u]@ == Seq::<usize>::empty(),
            decreases n - i,
        {
            adj.push(Vec::new());
            i = i + 1;
        }
        BipartiteMatching { n, m, adj }
    }

    /// Records a candidate pairing of left `u` with right `v`.
    pub fn add_edge(&mut self, u: usize, v: usize)
        requires
            old(self).inv(),
            u < old(self).spec_n(),
            v < old(self).spec_m(),
        ensures
            final(self).inv(),
            final(self).spec_n() == old(self).spec_n(),
            final(self).spec_m() == old(self).spec_m(),
            final(self)@[u as int] == old(self)@[u as int].push(v),
            forall|u2: int|
                0 <= u2 < old(self).spec_n() && u2 != u ==> #[trigger] final(self)@[u2] == old(
                    self,
                )@[u2],
    {
        let row = &mut self.adj[u];
        row.push(v);
        proof {
            assert(final(self)@[u as int] =~= old(self)@[u as int].push(v));
        }
    }

    /// The pairings are a matching: partners are recorded edges and the
    /// two directions agree (which makes the left-to-right map injective
    /// on its matched part).
    pub open spec fn mutual(&self, wife: Seq<usize>, hubby: Seq<usize>) -> bool {
        &&& wife.len() == self.spec_n()
        &&& hubby.len() == self.spec_m()
        &&& forall|u: int|
            0 <= u < wife.len() && #[trigger] wife[u] != usize::MAX ==> wife[u] < hubby.len()
                && hubby[wife[u] as int] == u && self.spec_edge(u, wife[u] as int)
        &&& forall|v: int|
            0 <= v < hubby.len() && #[trigger] hubby[v] != usize::MAX ==> hubby[v] < wife.len()
                && wife[hubby[v] as int] == v
    }

    /// One alternating-path search from the left node `u`, re-routing
    /// existing pairings where that frees a right node. On success the
    /// node's previous partner slot (if any) is left cleared for the
    /// caller, which overwrites it at once.
    fn augment(
        &self,
        u: usize,
        check: &mut Vec<bool>,
        wife: &mut Vec<usize>,
        hubby: &mut Vec<usize>,
    ) -> (r: bool)
        requires
            self.inv(),
            u < self.spec_n(),
            old(check)@.len() == self.spec_n(),
            !old(check)@[u as int],
            self.mutual(old(wife)@, old(hubby)@),
        ensures
            final(check)@.len() == old(check)@.len(),
            self.mutual(final(wife)@, final(hubby)@),
            forall|t: int|
                0 <= t < final(check)@.len() && old(check)@[t] ==> #[trigger] final(check)@[t],
            final(check)@[u as int],
            unvisited_count(final(check)@, self.spec_n() as int) < unvisited_count(
                old(check)@,
                self.spec_n() as int,
            ),
            // partners of already-visited nodes are untouched
            forall|u2: int|
                0 <= u2 < self.spec_n() && #[trigger] old(check)@[u2] ==> final(wife)@[u2] == old(
                    wife,
                )@[u2],
            forall|v2: int|
                0 <= v2 < self.spec_m() && old(hubby)@[v2] != usize::MAX && #[trigger] old(
                    check,
                )@[old(hubby)@[v2] as int] ==> final(hubby)@[v2] == old(hubby)@[v2],
            forall|t: int|
                0 <= t < old(wife)@.len() && #[trigger] old(wife)@[t] != usize::MAX
                    ==> final(wife)@[t] != usize::MAX,
            r ==> final(wife)@[u as int] != usize::MAX,
            r ==> (old(wife)@[u as int] != usize::MAX ==> final(hubby)@[old(wife)@[u as int] as int]
                == usize::MAX),
            r ==> forall|v2: int|
                0 <= v2 < self.spec_m() && #[trigger] old(hubby)@[v2] != usize::MAX && (old(
                    wife,
                )@[u as int] == usize::MAX || v2 != old(wife)@[u as int]) ==> final(hubby)@[v2]
                    != usize::MAX,
            !r ==> final(wife)@ == old(wife)@ && final(hubby)@ == old(hubby)@,
            !r ==> forall|w: int, k: int|
                #![trigger final(check)@[w], self@[w][k]]
                0 <= w < self.spec_n() && final(check)@[w] && !old(check)@[w] && 0 <= k
                    < self@[w].len() ==> final(hubby)@[self@[w][k] as int] != usize::MAX,
        decreases unvisited_count(old(check)@, self.spec_n() as int),
    {
        let ghost c0 = check@;
        let ghost w0 = wife@;
        let ghost h0 = hubby@;
        check[u] = true;
        proof {
            lemma_unvisited_lt(c0, check@, self.spec_n() as int, u as int);
        }
        let deg = self.adj[u].len();
        let mut k: usize = 0;
        while k < deg
            invariant
                self.inv(),
                u < self.spec_n(),
                deg == self@[u as int].len(),
                k <= deg,
                check@.len() == self.spec_n(),
                self.mutual(wife@, hubby@),
                check@[u as int],
                forall|t: int| 0 <= t < check@.len() && c0[t] ==> #[trigger] check@[t],
                !c0[u as int],
                c0 == old(check)@,
                c0.len() == self.spec_n(),
                w0 == old(wife)@,
                h0 == old(hubby)@,
                unvisited_count(check@, self.spec_n() as int) < unvisited_count(
                    c0,
                    self.spec_n() as int,
                ),
                wife@ == w0,
                hubby@ == h0,
                forall|k2: int|
                    0 <= k2 < k ==> hubby@[#[trigger] self@[u as int][k2] as int] != usize::MAX,
                forall|w: int, k2: int|
                    #![trigger check@[w], self@[w][k2]]
                    0 <= w < self.spec_n() && check@[w] && !c0[w] && w != u as int && 0 <= k2
                        < self@[w].len() ==> hubby@[self@[w][k2] as int] != usize::MAX,
            decreases deg - k,
        {
            let v = self.adj[u][k];
            proof {
                assert(self@[u as int][k as int] == v);
                assert(self@[u as int].contains(v));
            }
            let h = hubby[v];
            let mut can_take = h == usize::MAX;
            let ghost cmid = check@;
            if !can_take {
                if !check[h] {
                    proof {
                        lemma_unvisited_le(c0, check@, self.spec_n() as int);
                    }
                    can_take = self.augment(h, check, wife, hubby);
                    proof {
                        lemma_unvisited_le(cmid, check@, self.spec_n() as int);
                        lemma_unvisited_lt(c0, check@, self.spec_n() as int, u as int);
                        if can_take {
                            // the sub-search cleared this right node: its
                            // previous partner was exactly v
                            assert(w0[h as int] == v);
                            assert(hubby@[v as int] == usize::MAX);
                        } else {
                            assert(wife@ == w0 && hubby@ == h0);
                        }
                    }
                }
            }
            if can_take {
                let ghost wpre = wife@;
                let ghost hpre = hubby@;
                let vo = wife[u];
                if vo != usize::MAX {
                    proof {
                        assert(hpre[vo as int] == u as int);
                    }
                    hubby[vo] = usize::MAX;
                }
                wife[u] = v;
                hubby[v] = u;
                proof {
                    let wn = wife@;
                    let hn = hubby@;
                    assert(self.mutual(wn, hn)) by {
                        assert forall|u2: int|
                            0 <= u2 < wn.len() && #[trigger] wn[u2] != usize::MAX implies wn[u2]
                                < hn.len() && hn[wn[u2] as int] == u2 && self.spec_edge(
                            u2,
                            wn[u2] as int,
                        ) by {
                            if u2 != u as int {
                                assert(wn[u2] == wpre[u2]);
                                if wpre[u2] == vo && vo != usize::MAX {
                                    assert(hpre[vo as int] == u2);
                                    assert(hpre[vo as int] == u as int);
                                }
                                if wpre[u2] == v {
                                    assert(hpre[v as int] == u2);
                                    assert(hpre[v as int] == usize::MAX);
                                }
                            }
                        }
                        assert forall|v2: int|
                            0 <= v2 < hn.len() && #[trigger] hn[v2] != usize::MAX implies hn[v2]
                                < wn.len() && wn[hn[v2] as int] == v2 by {
                            if v2 != v as int && !(vo != usize::MAX && v2 == vo as int) {
                                assert(hn[v2] == hpre[v2]);
                                if hpre[v2] == u as int {
                                    assert(wpre[u as int] == v2);
                                }
                            }
                        }
                    }
                    // protected slots kept their owners through any
                    // recursion, and the two slots written here were not
                    // protected
                    assert forall|v2: int|
                        0 <= v2 < self.spec_m() && h0[v2] != usize::MAX && #[trigger] c0[h0[v2] as int]
                            implies hubby@[v2] == h0[v2] by {
                        assert(cmid[h0[v2] as int]);
                        assert(hpre[v2] == h0[v2]);
                        if v2 == v as int {
                            assert(hpre[v2] == usize::MAX);
                        }
                        if vo != usize::MAX && v2 == vo as int {
                            assert(hpre[vo as int] == u as int);
                            assert(c0[u as int]);
                        }
                    }
                    assert forall|u2: int|
                        0 <= u2 < self.spec_n() && #[trigger] c0[u2] implies wife@[u2] == w0[u2]
                        by {
                        assert(cmid[u2]);
                        assert(u2 != u as int);
                        assert(wpre[u2] == w0[u2]);
                    }
                    assert forall|t: int|
                        0 <= t < w0.len() && #[trigger] w0[t] != usize::MAX implies wife@[t]
                        != usize::MAX by {
                        if t != u as int {
                            assert(wife@[t] == wpre[t]);
                        }
                    }
                    assert forall|v2: int|
                        0 <= v2 < self.spec_m() && #[trigger] h0[v2] != usize::MAX && (w0[u as int]
                            == usize::MAX || v2 != w0[u as int]) implies hubby@[v2] != usize::MAX
                        by {
                        if v2 != v as int && !(vo != usize::MAX && v2 == vo as int) {
                            assert(hubby@[v2] == hpre[v2]);
                        }
                    }
                }
                return true;
            }
            proof {
                assert(hubby@[self@[u as int][k as int] as int] != usize::MAX);
            }
            k = k + 1;
        }
        false
    }

    /// Computes a maximal matching: each left node's partner, or the
    /// sentinel `usize::MAX` where it stays unmatched. The result pairs
    /// only along recorded edges, never reuses a right node, and leaves
    /// no recorded edge with both endpoints free.
    pub fn maximum_matching(&self) -> (r: Vec<usize>)
        requires
            self.inv(),
        ensures
            r@.len() == self.spec_n(),
            forall|u: int|
                0 <= u < self.spec_n() && #[trigger] r@[u] != usize::MAX ==> r@[u]
                    < self.spec_m() && self.spec_edge(u, r@[u] as int),
            forall|u1: int, u2: int|
                0 <= u1 < u2 < self.spec_n() && #[trigger] r@[u1] != usize::MAX
                    ==> r@[u1] != #[trigger] r@[u2],
            forall|u: int, k: int|
                #![trigger r@[u], self@[u][k]]
                0 <= u < self.spec_n() && 0 <= k < self@[u].len() && r@[u] == usize::MAX
                    ==> exists|u2: int| 0 <= u2 < self.spec_n() && #[trigger] r@[u2]
                    == self@[u][k],
    {
        let n = self.n;
        let m = self.m;
        let mut check: Vec<bool> = Vec::new();
        let mut wife: Vec<usize> = Vec::new();
        let mut hubby: Vec<usize> = Vec::new();
        let mut i: usize = 0;
        while i < n
            invariant
                check@.len() == i,
                wife@.len() == i,
                i <= n,
                forall|t: int| 0 <= t < i ==> !check@[t],
                forall|t: int| 0 <= t < i ==> wife@[t] == usize::MAX,
            decreases n - i,
        {
            check.push(false);
            wife.push(usize::MAX);
            i = i + 1;
        }
        let mut i: usize = 0;
        while i < m
            invariant
                hubby@.len() == i,
                i <= m,
                forall|t: int| 0 <= t < i ==> hubby@[t] == usize::MAX,
            decreases m - i,
        {
            hubby.push(usize::MAX);
            i = i + 1;
        }
        loop
            invariant_except_break
                self.inv(),
                n == self.spec_n(),
                m == self.spec_m(),
                check@.len() == n,
                self.mutual(wife@, hubby@),
                forall|t: int| 0 <= t < n ==> !check@[t],
            ensures
                self.mutual(wife@, hubby@),
                forall|u: int, k: int|
                    #![trigger wife@[u], self@[u][k]]
                    0 <= u < self.spec_n() && 0 <= k < self@[u].len() && wife@[u] == usize::MAX
                        ==> hubby@[self@[u][k] as int] != usize::MAX,
            decreases self.spec_n() - matched_count(wife@, self.spec_n() as int),
        {
            let ghost w0 = wife@;
            let ghost h0 = hubby@;
            let mut found = false;
            let mut i: usize = 0;
            while i < n && !found
                invariant
                    self.inv(),
                    n == self.spec_n(),
                    m == self.spec_m(),
                    check@.len() == n,
                    self.mutual(wife@, hubby@),
                    i <= n,
                    found ==> matched_count(w0, n as int) < matched_count(wife@, n as int),
                    forall|t: int|
                        0 <= t < n && #[trigger] w0[t] != usize::MAX ==> wife@[t] != usize::MAX,
                    !found ==> wife@ == w0 && hubby@ == h0,
                    !found ==> forall|w: int, k: int|
                        #![trigger check@[w], self@[w][k]]
                        0 <= w < n && check@[w] && 0 <= k < self@[w].len()
                            ==> hubby@[self@[w][k] as int] != usize::MAX,
                    !found ==> forall|t: int|
                        0 <= t < i ==> #[trigger] wife@[t] != usize::MAX || check@[t],
                decreases n - i,
            {
                if wife[i] == usize::MAX && !check[i] {
                    let ok = self.augment(i, &mut check, &mut wife, &mut hubby);
                    if ok {
                        found = true;
                        proof {
                            lemma_matched_count_lt(w0, wife@, n as int, i as int);
                        }
                    }
                }
                i = i + 1;
            }
            if !found {
                proof {
                    assert forall|u: int, k: int|
                        0 <= u < self.spec_n() && 0 <= k < self@[u].len() && #[trigger] wife@[u]
                            == usize::MAX implies hubby@[#[trigger] self@[u][k] as int]
                        != usize::MAX by {
                        assert(check@[u]);
                    }
                }
                break;
            }
            let mut t: usize = 0;
            while t < n
                invariant
                    self.inv(),
                    n == self.spec_n(),
                    m == self.spec_m(),
                    check@.len() == n,
                    self.mutual(wife@, hubby@),
                    matched_count(w0, n as int) < matched_count(wife@, n as int),
                    t <= n,
                    forall|k: int| 0 <= k < t ==> !check@[k],
                decreases n - t,
            {
                check[t] = false;
                t = t + 1;
            }
            proof {
                lemma_matched_count_le(wife@, wife@, n as int);
                lemma_matched_count_le(w0, w0, n as int);
            }
        }
        proof {
            assert forall|u1: int, u2: int|
                0 <= u1 < u2 < self.spec_n() && #[trigger] wife@[u1] != usize::MAX implies wife@[u1]
                != #[trigger] wife@[u2] by {
                if wife@[u2] != usize::MAX && wife@[u1] == wife@[u2] {
                    assert(hubby@[wife@[u1] as int] == u1);
                    assert(hubby@[wife@[u2] as int] == u2);
                }
            }
            assert forall|u: int, k: int|
                #![trigger wife@[u], self@[u][k]]
                0 <= u < self.spec_n() && 0 <= k < self@[u].len() && wife@[u] == usize::MAX
                    implies exists|u2: int|
                0 <= u2 < self.spec_n() && #[trigger] wife@[u2] == self@[u][k] by {
                let v = self@[u][k];
                assert(hubby@[v as int] != usize::MAX);
                let u2 = hubby@[v as int] as int;
                assert(wife@[u2] == v);
            }
        }
        wife
    }
}

} // verus!
