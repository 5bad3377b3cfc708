//! Disjoint-set union with full path compression and union by size.
//!
//! One signed entry per element: a non-negative entry is a parent
//! pointer, a negative entry `-s` marks a root whose component has
//! `s` members. The abstract state is the map from each element to its
//! component's representative; a ghost distance certificate decreasing
//! toward each root keeps every parent walk terminating.

use vstd::prelude::*;

verus! {

/// Number of elements among the first `k` whose representative is `r`.
pub open spec fn class_count(rt: Seq<int>, r: int, k: int) -> int
    decreases k,
{
    if k <= 0 {
        0int
    } else {
        class_count(rt, r, k - 1) + if rt[k - 1] == r {
            1int
        } else {
            0int
        }
    }
}

/// Number of representatives (components) among the first `k` elements.
pub open spec fn root_count(rt: Seq<int>, k: int) -> int
    decreases k,
{
    if k <= 0 {
        0int
    } else {
        root_count(rt, k - 1) + if rt[k - 1] == k - 1 {
            1int
        } else {
            0int
        }
    }
}

/// Class counts are non-negative and bounded.
proof fn lemma_class_count_bounds(rt: Seq<int>, r: int, k: int)
    ensures
        0 <= class_count(rt, r, k),
        k >= 0 ==> class_count(rt, r, k) <= k,
    decreases k,
{
    if k > 0 {
        lemma_class_count_bounds(rt, r, k - 1);
    }
}

/// Two different classes together have at most `k` members.
proof fn lemma_class_count_disjoint(rt: Seq<int>, a: int, b: int, k: int)
    requires
        a != b,
        k >= 0,
    ensures
        class_count(rt, a, k) + class_count(rt, b, k) <= k,
    decreases k,
{
    if k > 0 {
        lemma_class_count_disjoint(rt, a, b, k - 1);
    } else {
        lemma_class_count_bounds(rt, a, k);
        lemma_class_count_bounds(rt, b, k);
    }
}

/// Counting in the identity assignment: every element is alone.
proof fn lemma_class_count_identity(n: nat, r: int, k: int)
    requires
        k <= n,
    ensures
        class_count(Seq::new(n, |x: int| x), r, k) == if 0 <= r < k {
            1int
        } else {
            0int
        },
    decreases k,
{
    if k > 0 {
        lemma_class_count_identity(n, r, k - 1);
    }
}

/// Merging class `rv` into class `ru` adds the counts.
proof fn lemma_class_count_merge(rt: Seq<int>, ru: int, rv: int, r: int, k: int)
    requires
        ru != rv,
        k <= rt.len(),
    ensures
        class_count(Seq::new(rt.len(), |x: int| if rt[x] == rv { ru } else { rt[x] }), r, k)
            == if r == ru {
            class_count(rt, ru, k) + class_count(rt, rv, k)
        } else if r == rv {
            0int
        } else {
            class_count(rt, r, k)
        },
    decreases k,
{
    if k > 0 {
        lemma_class_count_merge(rt, ru, rv, r, k - 1);
    }
}

/// Merging two distinct classes removes exactly one representative.
proof fn lemma_root_count_merge(rt: Seq<int>, ru: int, rv: int, k: int)
    requires
        ru != rv,
        k <= rt.len(),
        forall|x: int| 0 <= x < rt.len() ==> #[trigger] rt[rt[x]] == rt[x],
        0 <= ru < rt.len(),
        0 <= rv < rt.len(),
        rt[ru] == ru,
        rt[rv] == rv,
    ensures
        root_count(Seq::new(rt.len(), |x: int| if rt[x] == rv { ru } else { rt[x] }), k)
            == root_count(rt, k) - if rv < k {
            1int
        } else {
            0int
        },
    decreases k,
{
    if k > 0 {
        lemma_root_count_merge(rt, ru, rv, k - 1);
        let rt2 = Seq::new(rt.len(), |x: int| if rt[x] == rv { ru } else { rt[x] });
        if rt[k - 1] == k - 1 {
            assert(rt2[k - 1] == if k - 1 == rv { ru } else { k - 1 });
        } else {
            assert(rt[rt[k - 1]] == rt[k - 1]);
            assert(rt2[k - 1] != k - 1);
        }
    }
}

/// Disjoint-set union over `n` elements.
pub struct DisjointSet {
    p: Vec<i32>,
    rt: Ghost<Seq<int>>,
    dist: Ghost<Seq<int>>,
}

impl DisjointSet {
    /// The abstract state: each element's representative.
    pub closed spec fn view(&self) -> Seq<int> {
        self.rt@
    }

    /// Representative of element `u`.
    pub open spec fn rep(&self, u: int) -> int {
        self@[u]
    }

    /// Two elements lie in the same component.
    pub open spec fn spec_same(&self, u: int, v: int) -> bool {
        self.rep(u) == self.rep(v)
    }

    /// Number of members of `u`'s component.
    pub open spec fn spec_size_of(&self, u: int) -> int {
        class_count(self@, self.rep(u), self@.len() as int)
    }

    /// Number of components.
    pub open spec fn spec_components(&self) -> int {
        root_count(self@, self@.len() as int)
    }

    /// Number of elements.
    pub closed spec fn spec_len(&self) -> nat {
        self.p@.len() as nat
    }

    /// Well-formed: parent entries agree with the representative map,
    /// sizes sit in the root entries, and the ghost distance decreases
    /// strictly toward each root.
    pub closed spec fn inv(&self) -> bool {
        let n = self.p@.len() as int;
        &&& self.rt@.len() == n
        &&& self.dist@.len() == n
        &&& n <= i32::MAX as int
        &&& forall|u: int| 0 <= u < n ==> 0 <= #[trigger] self.rt@[u] < n
        &&& forall|u: int| 0 <= u < n ==> #[trigger] self.rt@[self.rt@[u]] == self.rt@[u]
        &&& forall|u: int| 0 <= u < n ==> #[trigger] self.dist@[u] >= 0
        &&& forall|u: int|
            0 <= u < n && self.p@[u] >= 0 ==> 0 <= #[trigger] self.p@[u] < n && self.rt@[self.p@[u] as int]
                == self.rt@[u] && self.dist@[self.p@[u] as int] < self.dist@[u]
        &&& forall|u: int|
            0 <= u < n && #[trigger] self.p@[u] < 0 ==> self.rt@[u] == u && -self.p@[u]
                == class_count(self.rt@, u, n)
        &&& forall|u: int| 0 <= u < n ==> self.p@[#[trigger] self.rt@[u]] < 0
    }

    /// Under the invariant, a non-root element sits strictly farther
    /// out than its representative.
    proof fn lemma_above_root(&self, u: int)
        requires
            self.inv(),
            0 <= u < self.spec_len(),
            self.rt@[u] != u,
        ensures
            self.dist@[u] > self.dist@[self.rt@[u]],
        decreases self.dist@[u],
    {
        assert(self.p@[u] >= 0);
        let w = self.p@[u] as int;
        if w == self.rt@[u] {
        } else {
            self.lemma_above_root(w);
        }
    }

    /// Fresh structure of `n` singleton components.
    pub fn new(n: usize) -> (r: Self)
        requires
            n <= i32::MAX as usize,
        ensures
            r.inv(),
            r.spec_len() == n,
            r@ == Seq::new(n as nat, |x: int| x),
            r@.len() == n,
    {
        let mut p: Vec<i32> = Vec::new();
        let mut i: usize = 0;
        while i < n
            invariant
                p@.len() == i,
                i <= n,
                forall|k: int| 0 <= k < i ==> p@[k] == -1,
            decreases n - i,
        {
            p.push(-1);
            i = i + 1;
        }
        let r = DisjointSet {
            p,
            rt: Ghost(Seq::new(n as nat, |x: int| x)),
            dist: Ghost(Seq::new(n as nat, |x: int| 0int)),
        };
        proof {
            assert forall|u: int| 0 <= u < n && #[trigger] r.p@[u] < 0 implies r.rt@[u] == u
                && -r.p@[u] == class_count(r.rt@, u, n as int) by {
                lemma_class_count_identity(n as nat, u, n as int);
            }
        }
        r
    }

    /// Number of elements.
    pub fn len(&self) -> (r: usize)
        ensures
            r == self.spec_len(),
    {
        self.p.len()
    }

    /// The representative map holds one entry per element.
    pub proof fn lemma_view_len(&self)
        requires
            self.inv(),
        ensures
            self@.len() == self.spec_len(),
    {
    }

    /// Representative of `u`'s component, compressing every visited
    /// element to point straight at the root.
    pub fn find(&mut self, u: usize) -> (r: usize)
        requires
            old(self).inv(),
            u < old(self).spec_len(),
        ensures
            final(self).inv(),
            final(self).spec_len() == old(self).spec_len(),
            final(self)@ == old(self)@,
            final(self)@.len() == old(self).spec_len(),
            r == old(self).rep(u as int),
    {
        let n = self.p.len();
        let mut root = u;
        while self.p[root] >= 0
            invariant
                self.inv(),
                self@ == old(self)@,
                self.p@ == old(self).p@,
                n == self.spec_len(),
                root < n,
                self.rt@[root as int] == self.rt@[u as int],
                u < n,
            decreases self.dist@[root as int],
        {
            root = self.p[root] as usize;
        }
        proof {
            assert(self.rt@[root as int] == root);
        }
        let mut cur = u;
        while self.p[cur] >= 0
            invariant
                self.inv(),
                self@ == old(self)@,
                n == self.spec_len(),
                cur < n,
                root < n,
                self.rt@[cur as int] == self.rt@[u as int],
                root == self.rt@[u as int],
                u < n,
                self.p@[root as int] < 0,
            decreases self.dist@[cur as int],
        {
            let next = self.p[cur] as usize;
            proof {
                self.lemma_above_root(cur as int);
            }
            self.p[cur] = root as i32;
            cur = next;
        }
        root
    }

    /// Unites the components of `u` and `v`; reports whether they were
    /// distinct (a no-op returns false). The smaller component's root is
    /// attached under the larger's.
    pub fn unite(&mut self, u: usize, v: usize) -> (r: bool)
        requires
            old(self).inv(),
            u < old(self).spec_len(),
            v < old(self).spec_len(),
        ensures
            final(self).inv(),
            final(self).spec_len() == old(self).spec_len(),
            final(self)@.len() == old(self)@.len(),
            final(self)@.len() == old(self).spec_len(),
            r == !old(self).spec_same(u as int, v as int),
            final(self).spec_same(u as int, v as int),
            final(self).spec_components() == old(self).spec_components() - if r {
                1int
            } else {
                0int
            },
            // the larger component's root survives; the first argument's
            // root on ties
            final(self).rep(u as int) == if class_count(
                old(self)@,
                old(self).rep(v as int),
                old(self)@.len() as int,
            ) > class_count(old(self)@, old(self).rep(u as int), old(self)@.len() as int) {
                old(self).rep(v as int)
            } else {
                old(self).rep(u as int)
            },
            forall|x: int|
                0 <= x < old(self).spec_len() ==> final(self).rep(x) == if old(self).rep(x)
                    == old(self).rep(u as int) || old(self).rep(x) == old(self).rep(v as int) {
                    final(self).rep(u as int)
                } else {
                    old(self).rep(x)
                },
    {
        let n = self.p.len();
        let mut ru = self.find(u);
        let mut rv = self.find(v);
        if ru == rv {
            return false;
        }
        proof {
            assert(self.rt@[ru as int] == ru);
            assert(self.rt@[rv as int] == rv);
        }
        if self.p[ru] > self.p[rv] {
            let t = ru;
            ru = rv;
            rv = t;
        }
        let ghost rt0 = self.rt@;
        let ghost d0 = self.dist@;
        let su = self.p[ru];
        let sv = self.p[rv];
        proof {
            lemma_class_count_disjoint(rt0, ru as int, rv as int, n as int);
            lemma_class_count_bounds(rt0, ru as int, n as int);
            lemma_class_count_bounds(rt0, rv as int, n as int);
        }
        self.p[ru] = su + sv;
        self.p[rv] = ru as i32;
        proof {
            self.rt@ = Seq::new(
                rt0.len(),
                |x: int| if rt0[x] == rv as int { ru as int } else { rt0[x] },
            );
            self.dist@ = Seq::new(
                d0.len(),
                |x: int|
                    if rt0[x] == rv as int {
                        d0[x] + d0[ru as int] + 1
                    } else {
                        d0[x]
                    },
            );
            assert forall|x: int|
                0 <= x < n && self.p@[x] >= 0 implies 0 <= #[trigger] self.p@[x] < n
                    && self.rt@[self.p@[x] as int] == self.rt@[x] && self.dist@[self.p@[x] as int]
                    < self.dist@[x] by {}
            assert forall|x: int|
                0 <= x < n && #[trigger] self.p@[x] < 0 implies self.rt@[x] == x && -self.p@[x]
                    == class_count(self.rt@, x, n as int) by {
                lemma_class_count_merge(rt0, ru as int, rv as int, x, n as int);
            }
            lemma_root_count_merge(rt0, ru as int, rv as int, n as int);
        }
        true
    }

    /// Two elements lie in the same component.
    pub fn same(&mut self, u: usize, v: usize) -> (r: bool)
        requires
            old(self).inv(),
            u < old(self).spec_len(),
            v < old(self).spec_len(),
        ensures
            final(self).inv(),
            final(self).spec_len() == old(self).spec_len(),
            final(self)@ == old(self)@,
            final(self)@.len() == old(self).spec_len(),
            r == old(self).spec_same(u as int, v as int),
    {
        let a = self.find(u);
        let b = self.find(v);
        a == b
    }

    /// Number of members of `u`'s component.
    pub fn size_of(&mut self, u: usize) -> (r: usize)
        requires
            old(self).inv(),
            u < old(self).spec_len(),
        ensures
            final(self).inv(),
            final(self).spec_len() == old(self).spec_len(),
            final(self)@ == old(self)@,
            final(self)@.len() == old(self).spec_len(),
            r == old(self).spec_size_of(u as int),
    {
        let root = self.find(u);
        proof {
            lemma_class_count_bounds(self.rt@, root as int, self.spec_len() as int);
        }
        (-self.p[root]) as usize
    }

    /// Number of components (linear scan, not cached).
    pub fn num_components(&self) -> (r: usize)
        requires
            self.inv(),
        ensures
            r == self.spec_components(),
    {
        let n = self.p.len();
        let mut c: usize = 0;
        let mut i: usize = 0;
        while i < n
            invariant
                self.inv(),
                n == self.spec_len(),
                i <= n,
                c == root_count(self.rt@, i as int),
                c <= i,
            decreases n - i,
        {
            proof {
                if self.rt@[i as int] == i as int {
                    assert(self.p@[self.rt@[i as int]] < 0);
                }
            }
            if self.p[i] < 0 {
                c = c + 1;
            }
            i = i + 1;
        }
        c
    }

    /// Resets every element to a singleton component.
    pub fn clear(&mut self)
        requires
            old(self).inv(),
        ensures
            final(self).inv(),
            final(self).spec_len() == old(self).spec_len(),
            final(self)@ == Seq::new(old(self).spec_len(), |x: int| x),
            final(self)@.len() == old(self).spec_len(),
    {
        let n = self.p.len();
        let mut i: usize = 0;
        while i < n
            invariant
                self.p@.len() == n,
                i <= n,
                forall|k: int| 0 <= k < i ==> self.p@[k] == -1,
            decreases n - i,
        {
            self.p[i] = -1;
            i = i + 1;
        }
        proof {
            self.rt@ = Seq::new(n as nat, |x: int| x);
            self.dist@ = Seq::new(n as nat, |x: int| 0int);
            assert(old(self).inv());
            assert(n <= i32::MAX as int);
            assert forall|x: int| 0 <= x < n && #[trigger] self.p@[x] < 0 implies self.rt@[x] == x
                && -self.p@[x] == class_count(self.rt@, x, n as int) by {
                lemma_class_count_identity(n as nat, x, n as int);
            }
        }
    }
}

} // verus!
