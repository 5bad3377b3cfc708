//! Range-aggregate tree over a generic monoid: an iterative segment
//! tree whose leaf count is the least power of two at or above the
//! requested size.
//!
//! Leaves may be written directly and the internal nodes recomputed in
//! one pass with `build`, or maintained incrementally with `set`.
//! `prod` answers any half-open range in logarithmic time.

use vstd::prelude::*;
use core::marker::PhantomData;
use crate::monoid::{Monoid, mfold};

verus! {

/// `n` is a power of two.
pub open spec fn is_pow2(n: nat) -> bool
    decreases n,
{
    if n == 0 {
        false
    } else if n == 1 {
        true
    } else {
        n % 2 == 0 && is_pow2(n / 2)
    }
}

/// Least power of two at or above `n`.
pub(crate) fn next_pow2(n: usize) -> (p: usize)
    requires
        n <= usize::MAX / 4,
    ensures
        is_pow2(p as nat),
        p >= n,
        p >= 1,
        p <= usize::MAX / 2,
        p == 1 || p / 2 < n,
{
    let mut p: usize = 1;
    while p < n
        invariant
            is_pow2(p as nat),
            p >= 1,
            n <= usize::MAX / 4,
            p == 1 || p / 2 < n,
            p <= usize::MAX / 2,
        decreases 2 * n - p,
    {
        p = p * 2;
    }
    p
}

/// Two powers of two with one at most the other and less than its
/// double are equal.
pub(crate) proof fn lemma_pow2_sandwich(a: nat, b: nat)
    requires
        is_pow2(a),
        is_pow2(b),
        a <= b < 2 * a,
    ensures
        a == b,
    decreases a,
{
    if a > 1 {
        lemma_pow2_sandwich(a / 2, b / 2);
    }
}

/// Iterative segment tree: `2 * size` backing slots, slot 0 unused,
/// logical leaf `i` stored at slot `i + size`.
pub struct SegmentTree<X, M: Monoid<X>> {
    size: usize,
    data: Vec<X>,
    _m: PhantomData<M>,
}

/// Fold of the stored node values over the index interval `[l, r)`.
pub(crate) open spec fn node_fold<X, M: Monoid<X>>(data: Seq<X>, l: int, r: int) -> X
    decreases r - l,
{
    if l >= r {
        M::id()
    } else {
        M::op(node_fold::<X, M>(data, l, r - 1), data[r - 1])
    }
}

/// A node-value fold peels its first element from the left.
pub(crate) proof fn lemma_node_fold_first<X, M: Monoid<X>>(data: Seq<X>, l: int, r: int)
    requires
        0 <= l < r <= data.len(),
    ensures
        node_fold::<X, M>(data, l, r) == M::op(data[l], node_fold::<X, M>(data, l + 1, r)),
    decreases r - l,
{
    if l == r - 1 {
        assert(node_fold::<X, M>(data, l, l) == M::id());
        assert(node_fold::<X, M>(data, l + 1, r) == M::id());
        M::id_left(data[l]);
        M::id_right(data[l]);
    } else {
        lemma_node_fold_first::<X, M>(data, l, r - 1);
        M::op_assoc(data[l], node_fold::<X, M>(data, l + 1, r - 1), data[r - 1]);
    }
}

/// Where parents are consistent with their children, a fold over a
/// block of siblings equals the fold over their parents.
pub(crate) proof fn lemma_node_fold_halve<X, M: Monoid<X>>(data: Seq<X>, l: int, r: int)
    requires
        2 <= l <= r <= data.len(),
        l % 2 == 0,
        r % 2 == 0,
        forall|j: int|
            l / 2 <= j < r / 2 ==> #[trigger] data[j] == M::op(data[2 * j], data[2 * j + 1]),
    ensures
        node_fold::<X, M>(data, l / 2, r / 2) == node_fold::<X, M>(data, l, r),
    decreases r - l,
{
    if l == r {
        assert(node_fold::<X, M>(data, l, r) == M::id());
        assert(node_fold::<X, M>(data, l / 2, r / 2) == M::id());
    } else {
        lemma_node_fold_halve::<X, M>(data, l, r - 2);
        assert((r - 2) / 2 == r / 2 - 1);
        assert(node_fold::<X, M>(data, l / 2, r / 2)
            == M::op(node_fold::<X, M>(data, l / 2, r / 2 - 1), data[r / 2 - 1]));
        assert(node_fold::<X, M>(data, l, r)
            == M::op(node_fold::<X, M>(data, l, r - 1), data[r - 1]));
        assert(node_fold::<X, M>(data, l, r - 1)
            == M::op(node_fold::<X, M>(data, l, r - 2), data[r - 2]));
        assert(data[r / 2 - 1] == M::op(data[r - 2], data[r - 1]));
        M::op_assoc(node_fold::<X, M>(data, l, r - 2), data[r - 2], data[r - 1]);
    }
}

/// A fold over leaf slots is the fold of the corresponding elements.
pub(crate) proof fn lemma_node_fold_leaves<X, M: Monoid<X>>(data: Seq<X>, size: int, a: int, b: int)
    requires
        data.len() == 2 * size,
        0 <= a <= b <= size,
    ensures
        node_fold::<X, M>(data, size + a, size + b)
            == mfold::<X, M>(data.subrange(size, 2 * size).subrange(a, b)),
    decreases b - a,
{
    let view = data.subrange(size, 2 * size);
    if a == b {
    } else {
        lemma_node_fold_leaves::<X, M>(data, size, a, b - 1);
        let s = view.subrange(a, b);
        assert(s.drop_last() =~= view.subrange(a, b - 1));
        assert(s.last() == data[size + b - 1]);
    }
}

impl<X: Copy, M: Monoid<X>> SegmentTree<X, M> {
    /// Number of leaves (the padded, power-of-two size).
    pub closed spec fn spec_size(&self) -> nat {
        self.size as nat
    }

    /// Basic shape: power-of-two leaf count, `2 * size` slots.
    pub closed spec fn inv(&self) -> bool {
        &&& is_pow2(self.size as nat)
        &&& self.data@.len() == 2 * self.size as int
        &&& self.size >= 1
        &&& self.size <= usize::MAX / 2
    }

    /// The logical contents: the sequence of all leaf values.
    pub closed spec fn view(&self) -> Seq<X> {
        self.data@.subrange(self.size as int, 2 * self.size as int)
    }

    /// Every internal node holds the combine of its two children.
    /// Broken by direct leaf writes; restored by `build` or `set`.
    pub closed spec fn built(&self) -> bool {
        forall|j: int|
            1 <= j < self.size as int ==> #[trigger] self.data@[j] == M::op(
                self.data@[2 * j],
                self.data@[2 * j + 1],
            )
    }

    /// Fresh tree of at least `size` leaves, every leaf the identity.
    pub fn new(size: usize) -> (r: Self)
        requires
            size <= usize::MAX / 4,
        ensures
            r.inv(),
            r.built(),
            is_pow2(r.spec_size()),
            r.spec_size() >= size,
            r.spec_size() == 1 || r.spec_size() < 2 * size,
            r@ == Seq::new(r.spec_size(), |i: int| M::id()),
    {
        let size = next_pow2(size);
        let e = M::identity();
        let mut data: Vec<X> = Vec::new();
        let mut i: usize = 0;
        while i < 2 * size
            invariant
                e == M::id(),
                data@.len() == i,
                i <= 2 * size,
                size <= usize::MAX / 2,
                forall|k: int| 0 <= k < i ==> data@[k] == M::id(),
            decreases 2 * size - i,
        {
            data.push(e);
            i = i + 1;
        }
        let r = SegmentTree { size, data, _m: PhantomData };
        proof {
            assert(r@ =~= Seq::new(r.spec_size(), |i: int| M::id()));
            assert forall|j: int| 1 <= j < r.size as int implies #[trigger] r.data@[j] == M::op(
                r.data@[2 * j],
                r.data@[2 * j + 1],
            ) by {
                M::id_left(M::id());
            }
        }
        r
    }

    /// Number of leaves.
    pub fn len(&self) -> (r: usize)
        ensures
            r == self.spec_size(),
    {
        self.size
    }

    /// The leaf row holds one value per leaf.
    pub proof fn lemma_view_len(&self)
        requires
            self.inv(),
        ensures
            self@.len() == self.spec_size(),
    {
    }

    /// Reads logical leaf `i`.
    pub fn get(&self, i: usize) -> (r: X)
        requires
            self.inv(),
            i < self.spec_size(),
        ensures
            r == self@[i as int],
    {
        self.data[i + self.size]
    }

    /// Writes logical leaf `i` directly, leaving internal nodes stale;
    /// call `build` before querying again.
    pub fn set_leaf(&mut self, i: usize, x: X)
        requires
            old(self).inv(),
            i < old(self).spec_size(),
        ensures
            final(self).inv(),
            final(self).spec_size() == old(self).spec_size(),
            final(self)@ == old(self)@.update(i as int, x),
    {
        let idx = i + self.size;
        self.data[idx] = x;
        proof {
            assert(self@ =~= old(self)@.update(i as int, x));
        }
    }

    /// Recomputes every internal node bottom-up from the leaves.
    pub fn build(&mut self)
        requires
            old(self).inv(),
        ensures
            final(self).inv(),
            final(self).built(),
            final(self).spec_size() == old(self).spec_size(),
            final(self)@ == old(self)@,
    {
        let mut i: usize = self.size;
        while i > 1
            invariant
                self.inv(),
                self.size == old(self).size,
                1 <= i <= self.size,
                self@ == old(self)@,
                forall|j: int|
                    i <= j < self.size as int ==> #[trigger] self.data@[j] == M::op(
                        self.data@[2 * j],
                        self.data@[2 * j + 1],
                    ),
            decreases i,
        {
            i = i - 1;
            let v = M::combine(self.data[2 * i], self.data[2 * i + 1]);
            self.data[i] = v;
            proof {
                assert(self@ =~= old(self)@);
            }
        }
    }

    /// Overwrites logical leaf `i` and recomputes its ancestors.
    pub fn set(&mut self, i: usize, x: X)
        requires
            old(self).inv(),
            old(self).built(),
            i < old(self).spec_size(),
        ensures
            final(self).inv(),
            final(self).built(),
            final(self).spec_size() == old(self).spec_size(),
            final(self)@ == old(self)@.update(i as int, x),
    {
        let mut cur = i + self.size;
        self.data[cur] = x;
        proof {
            assert(self@ =~= old(self)@.update(i as int, x));
        }
        while cur != 1
            invariant
                self.inv(),
                self.size == old(self).size,
                1 <= cur < 2 * self.size as int,
                self@ == old(self)@.update(i as int, x),
                forall|j: int|
                    1 <= j < self.size as int && !is_strict_ancestor(j, cur as int)
                        ==> #[trigger] self.data@[j] == M::op(
                        self.data@[2 * j],
                        self.data@[2 * j + 1],
                    ),
            decreases cur,
        {
            cur = cur / 2;
            let v = M::combine(self.data[2 * cur], self.data[2 * cur + 1]);
            self.data[cur] = v;
            proof {
                assert(self@ =~= old(self)@.update(i as int, x));
                assert forall|j: int|
                    1 <= j < self.size as int && !is_strict_ancestor(j, cur as int)
                        implies #[trigger] self.data@[j] == M::op(
                        self.data@[2 * j],
                        self.data@[2 * j + 1],
                    ) by {
                    if j != cur {
                        assert(!is_strict_ancestor(j, 2 * cur as int));
                        assert(!is_strict_ancestor(j, 2 * cur + 1 as int));
                    }
                }
            }
        }
    }

    /// Combined value of the half-open leaf range `[l, r)`, combining
    /// left-to-right so the monoid need not be commutative.
    pub fn prod(&self, l: usize, r: usize) -> (res: X)
        requires
            self.inv(),
            self.built(),
            l <= r,
            r <= self.spec_size(),
        ensures
            res == mfold::<X, M>(self@.subrange(l as int, r as int)),
    {
        let mut lo = l + self.size;
        let mut hi = r + self.size;
        let mut res_l = M::identity();
        let mut res_r = M::identity();
        proof {
            lemma_node_fold_leaves::<X, M>(self.data@, self.size as int, l as int, r as int);
            M::id_left(M::op(node_fold::<X, M>(self.data@, lo as int, hi as int), M::id()));
            M::id_right(node_fold::<X, M>(self.data@, lo as int, hi as int));
        }
        while lo != hi
            invariant
                self.inv(),
                self.built(),
                1 <= lo <= hi <= 2 * self.size as int,
                M::op(res_l, M::op(node_fold::<X, M>(self.data@, lo as int, hi as int), res_r))
                    == mfold::<X, M>(self@.subrange(l as int, r as int)),
            decreases hi - lo,
        {
            let ghost pre_l = lo as int;
            let ghost pre_r = hi as int;
            let ghost pre_res_l = res_l;
            let ghost pre_res_r = res_r;
            if lo % 2 == 1 {
                proof {
                    lemma_node_fold_first::<X, M>(self.data@, lo as int, hi as int);
                    M::op_assoc(
                        self.data@[lo as int],
                        node_fold::<X, M>(self.data@, lo + 1 as int, hi as int),
                        res_r,
                    );
                    M::op_assoc(
                        res_l,
                        self.data@[lo as int],
                        M::op(node_fold::<X, M>(self.data@, lo + 1 as int, hi as int), res_r),
                    );
                }
                res_l = M::combine(res_l, self.data[lo]);
                lo = lo + 1;
            }
            if hi % 2 == 1 {
                proof {
                    M::op_assoc(
                        node_fold::<X, M>(self.data@, lo as int, hi - 1 as int),
                        self.data@[hi - 1 as int],
                        res_r,
                    );
                }
                hi = hi - 1;
                res_r = M::combine(self.data[hi], res_r);
            }
            proof {
                lemma_node_fold_halve::<X, M>(self.data@, lo as int, hi as int);
            }
            lo = lo / 2;
            hi = hi / 2;
        }
        proof {
            M::id_left(res_r);
        }
        M::combine(res_l, res_r)
    }

    /// Resets every leaf (and every internal node) to the identity.
    pub fn clear(&mut self)
        requires
            old(self).inv(),
        ensures
            final(self).inv(),
            final(self).built(),
            final(self).spec_size() == old(self).spec_size(),
            final(self)@ == Seq::new(old(self).spec_size(), |i: int| M::id()),
    {
        let e = M::identity();
        let mut i: usize = 1;
        let n = 2 * self.size;
        while i < n
            invariant
                e == M::id(),
                self.inv(),
                self.size == old(self).size,
                n == 2 * self.size as int,
                1 <= i <= n,
                self@.len() == old(self)@.len(),
                forall|k: int| 1 <= k < i ==> self.data@[k] == M::id(),
            decreases n - i,
        {
            self.data[i] = e;
            i = i + 1;
        }
        proof {
            assert(self@ =~= Seq::new(old(self).spec_size(), |i: int| M::id()));
            assert forall|j: int| 1 <= j < self.size as int implies #[trigger] self.data@[j]
                == M::op(self.data@[2 * j], self.data@[2 * j + 1]) by {
                M::id_left(M::id());
            }
        }
    }
}

/// `a` is a proper ancestor of node `d` in the implicit binary heap
/// layout (some strictly positive number of halvings of `d` reach `a`).
pub open spec fn is_strict_ancestor(a: int, d: int) -> bool
    decreases d,
{
    if d <= a {
        false
    } else if d <= 0 {
        false
    } else {
        d / 2 == a || is_strict_ancestor(a, d / 2)
    }
}

} // verus!
