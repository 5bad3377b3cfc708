//! Lazy-propagation range tree: a value monoid together with an action
//! type whose pending applications sit in per-node tags and are pushed
//! down only when a later operation descends past them.
//!
//! `apply` maps an action over a half-open range and `product` folds
//! one, both descending from the root: a pending tag is pushed to its
//! children just before a descent passes it, an action is recorded on
//! the few covering nodes, and `apply` recomputes the nodes it passed
//! on the way back up.
//!
//! The contracts speak of the tag-resolved contents (`view`): each
//! stored leaf with every pending ancestor tag applied, nearest
//! first. `apply` maps the action over exactly `[l, r)` of that
//! sequence; `product` folds `[l, r)` of it and changes nothing
//! (its pushes only normalize the representation).

use vstd::prelude::*;
use core::marker::PhantomData;
use crate::monoid::{Monoid, mfold, lemma_mfold_concat};
use crate::seg::{is_pow2, next_pow2, is_strict_ancestor, lemma_pow2_sandwich};

verus! {

/// An action monoid over the value monoid `M` on `X`: a neutral
/// action, an application of actions to values, and a composition
/// folding a new action into a pending one (pending first, new
/// second). Application must distribute over the monoid's combine, so
/// an action may be applied to a stored aggregate.
pub trait Action<X, U, M: Monoid<X>>: Sized {
    /// The neutral action, as a mathematical value.
    spec fn off() -> U;

    /// Action application, as a mathematical function.
    spec fn map(x: X, f: U) -> X;

    /// Action composition, as a mathematical function.
    spec fn comp(f: U, g: U) -> U;

    /// Executable neutral action.
    fn neutral() -> (r: U)
        ensures
            r == Self::off(),
    ;

    /// Executable action application.
    fn apply_one(x: X, f: U) -> (r: X)
        ensures
            r == Self::map(x, f),
    ;

    /// Executable action composition.
    fn compose(f: U, g: U) -> (r: U)
        ensures
            r == Self::comp(f, g),
    ;

    /// The neutral action changes nothing.
    proof fn map_off(x: X)
        ensures
            Self::map(x, Self::off()) == x,
    ;

    /// Applying two actions in order is applying their composition.
    proof fn map_comp(x: X, f: U, g: U)
        ensures
            Self::map(Self::map(x, f), g) == Self::map(x, Self::comp(f, g)),
    ;

    /// The neutral action is neutral for composition as well.
    proof fn comp_off(f: U)
        ensures
            Self::comp(f, Self::off()) == f,
    ;

    /// Application distributes over the monoid's combine.
    proof fn map_op(a: X, b: X, f: U)
        ensures
            Self::map(M::op(a, b), f) == M::op(Self::map(a, f), Self::map(b, f)),
    ;
}

/// Range assignment over the maximum monoid: the action `Some(c)` sets
/// every value in its range to `c`, `None` leaves them alone.
pub struct SetI32;

impl Action<i32, Option<i32>, crate::monoid::MaxI32> for SetI32 {
    open spec fn off() -> Option<i32> {
        None
    }

    open spec fn map(x: i32, f: Option<i32>) -> i32 {
        match f {
            None => x,
            Some(c) => c,
        }
    }

    open spec fn comp(f: Option<i32>, g: Option<i32>) -> Option<i32> {
        match g {
            None => f,
            Some(c) => g,
        }
    }

    fn neutral() -> (r: Option<i32>) {
        None
    }

    fn apply_one(x: i32, f: Option<i32>) -> (r: i32) {
        match f {
            None => x,
            Some(c) => c,
        }
    }

    fn compose(f: Option<i32>, g: Option<i32>) -> (r: Option<i32>) {
        match g {
            None => f,
            Some(c) => g,
        }
    }

    proof fn map_off(x: i32) {
    }

    proof fn map_comp(x: i32, f: Option<i32>, g: Option<i32>) {
    }

    proof fn comp_off(f: Option<i32>) {
    }

    proof fn map_op(a: i32, b: i32, f: Option<i32>) {
    }
}

/// `a` is `s` itself or one of its ancestors in the implicit heap
/// layout.
pub open spec fn in_subtree(a: int, s: int) -> bool {
    a == s || is_strict_ancestor(a, s)
}

/// Pending tags on the path from `s` (exclusive) to the root, applied
/// to `x` nearest ancestor first.
pub open spec fn up_chain<X, U, M: Monoid<X>, A: Action<X, U, M>>(lazy: Seq<U>, x: X, s: int) -> X
    decreases s,
{
    if s <= 1 {
        x
    } else {
        up_chain::<X, U, M, A>(lazy, A::map(x, lazy[s / 2]), s / 2)
    }
}

/// Pending tags on the path from `s` (exclusive) down to `a`
/// (inclusive), applied to `x` nearest first: the low part of the
/// chain, split at an ancestor.
pub open spec fn dn_chain<X, U, M: Monoid<X>, A: Action<X, U, M>>(
    lazy: Seq<U>,
    x: X,
    s: int,
    a: int,
) -> X
    decreases s,
{
    if s <= a || s <= 1 {
        x
    } else {
        dn_chain::<X, U, M, A>(lazy, A::map(x, lazy[s / 2]), s / 2, a)
    }
}

/// The aggregate a node stands for: its subtree's stored leaves with
/// every tag at or below the node applied.
pub open spec fn agg<X, U, M: Monoid<X>, A: Action<X, U, M>>(
    tree: Seq<X>,
    lazy: Seq<U>,
    size: int,
    j: int,
) -> X
    decreases 2 * size - j,
{
    if j < 1 || j >= 2 * size {
        tree[j]
    } else if j >= size {
        tree[j]
    } else {
        A::map(
            M::op(
                agg::<X, U, M, A>(tree, lazy, size, 2 * j),
                agg::<X, U, M, A>(tree, lazy, size, 2 * j + 1),
            ),
            lazy[j],
        )
    }
}

/// Node `j` of a tree with `size` leaves covers exactly the logical
/// leaves `[nl, nr)`.
pub open spec fn covers_range(size: int, j: int, nl: int, nr: int) -> bool
    decreases nr - nl,
{
    if nr <= nl {
        false
    } else if nr == nl + 1 {
        j == size + nl && 0 <= nl < size
    } else {
        covers_range(size, 2 * j, nl, (nl + nr) / 2) && covers_range(
            size,
            2 * j + 1,
            (nl + nr) / 2,
            nr,
        )
    }
}

/// Leaf count of a tree with `h` levels: two to the `h - 1`.
pub open spec fn pow2_levels(h: nat) -> nat
    decreases h,
{
    if h <= 1 {
        1
    } else {
        2 * pow2_levels((h - 1) as nat)
    }
}

/// A proper descendant's index is at least double its ancestor's.
proof fn lemma_anc_double(a: int, d: int)
    requires
        is_strict_ancestor(a, d),
    ensures
        2 * a <= d,
        0 <= a < d,
    decreases d,
{
    if d / 2 == a {
    } else {
        lemma_anc_double(a, d / 2);
    }
}

/// Being in a subtree is transitive.
proof fn lemma_subtree_trans(a: int, b: int, c: int)
    requires
        in_subtree(a, b),
        in_subtree(b, c),
    ensures
        in_subtree(a, c),
    decreases c,
{
    if b == c || a == b {
    } else {
        // a strictly above b, b strictly above c
        if c / 2 == b {
            lemma_anc_double(a, b);
        } else {
            lemma_subtree_trans(a, b, c / 2);
        }
    }
}

/// The proper descendants of `j` are exactly the two child subtrees.
proof fn lemma_anc_split(j: int, s: int)
    requires
        j >= 1,
    ensures
        is_strict_ancestor(j, s) <==> (in_subtree(2 * j, s) || in_subtree(2 * j + 1, s)),
    decreases s,
{
    if s > j {
        if s / 2 == j {
        } else {
            lemma_anc_split(j, s / 2);
        }
    }
}

/// A node aligned to the power-of-two layout covers one contiguous
/// block of leaves: node `j` of width `w` covers `[nl, nl + w)` when
/// `j * w == size + nl`.
proof fn lemma_covers_aligned(size: int, j: int, nl: int, w: int)
    requires
        is_pow2(size as nat),
        is_pow2(w as nat),
        j >= 1,
        1 <= w <= size,
        0 <= nl,
        nl + w <= size,
        j * w == size + nl,
    ensures
        covers_range(size, j, nl, nl + w),
    decreases w,
{
    vstd::arithmetic::mul::lemma_mul_nonnegative(j, w);
    if w == 1 {
        vstd::arithmetic::mul::lemma_mul_basics(j);
    } else {
        vstd::arithmetic::mul::lemma_mul_is_distributive_add_other_way(w / 2, 2 * j, 1);
        vstd::arithmetic::mul::lemma_mul_is_associative(2, j, w / 2);
        vstd::arithmetic::mul::lemma_mul_is_commutative(2, j);
        vstd::arithmetic::mul::lemma_mul_is_associative(j, 2, w / 2);
        assert((2 * j) * (w / 2) == j * w);
        assert((2 * j + 1) * (w / 2) == j * w + w / 2);
        lemma_covers_aligned(size, 2 * j, nl, w / 2);
        lemma_covers_aligned(size, 2 * j + 1, nl + w / 2, w / 2);
        assert((nl + (nl + w)) / 2 == nl + w / 2);
    }
}

/// The leaves under a covering node are exactly its block.
proof fn lemma_covers_leaves(size: int, j: int, nl: int, nr: int)
    requires
        covers_range(size, j, nl, nr),
    ensures
        0 <= nl < nr <= size,
        1 <= j < 2 * size,
        nr - nl >= 2 ==> 1 <= j < size,
        nr - nl == 1 ==> j == size + nl,
        forall|i: int| 0 <= i < size ==> (#[trigger] in_subtree(j, size + i) <==> nl <= i < nr),
    decreases nr - nl,
{
    if nr == nl + 1 {
        assert forall|i: int| 0 <= i < size implies (#[trigger] in_subtree(j, size + i) <==> nl
            <= i < nr) by {
            if in_subtree(j, size + i) && size + i != j {
                lemma_anc_double(j, size + i);
            }
        }
    } else {
        let mid = (nl + nr) / 2;
        lemma_covers_leaves(size, 2 * j, nl, mid);
        lemma_covers_leaves(size, 2 * j + 1, mid, nr);
        assert forall|i: int| 0 <= i < size implies (#[trigger] in_subtree(j, size + i) <==> nl
            <= i < nr) by {
            lemma_anc_split(j, size + i);
            assert(in_subtree(2 * j, size + i) || in_subtree(2 * j + 1, size + i) <==> mid
                <= i < nr || nl <= i < mid);
            if in_subtree(j, size + i) && j == size + i {
                assert(false) by {
                    assert(in_subtree(2 * j, size + i) || in_subtree(2 * j + 1, size + i));
                    if in_subtree(2 * j, size + i) {
                        if 2 * j != size + i {
                            lemma_anc_double(2 * j, size + i);
                        }
                    } else {
                        if 2 * j + 1 != size + i {
                            lemma_anc_double(2 * j + 1, size + i);
                        }
                    }
                }
            }
        }
    }
}

/// Lazy-propagation range tree: `2 * size` value slots (slot 0 unused)
/// and one pending tag per internal node; leaves never hold a tag.
pub struct LazySeg<X, U, M: Monoid<X>, A: Action<X, U, M>> {
    size: usize,
    height: usize,
    tree: Vec<X>,
    lazy: Vec<U>,
    _m: PhantomData<M>,
    _a: PhantomData<A>,
}

impl<X: Copy, U: Copy, M: Monoid<X>, A: Action<X, U, M>> LazySeg<X, U, M, A> {
    /// Number of leaves (the padded, power-of-two size).
    pub closed spec fn spec_size(&self) -> nat {
        self.size as nat
    }

    /// Number of levels.
    pub closed spec fn spec_height(&self) -> nat {
        self.height as nat
    }

    /// Shape: power-of-two leaf count, `2 * size` value slots, one tag
    /// per internal node.
    pub closed spec fn inv(&self) -> bool {
        &&& is_pow2(self.size as nat)
        &&& self.tree@.len() == 2 * self.size as int
        &&& self.lazy@.len() == self.size as int
        &&& self.size >= 1
        &&& self.size <= usize::MAX / 2
        &&& self.height >= 1
    }

    /// The stored leaf row (pending ancestor tags not yet applied).
    pub closed spec fn leaf_row(&self) -> Seq<X> {
        self.tree@.subrange(self.size as int, 2 * self.size as int)
    }

    /// No tag is pending anywhere: the stored leaf row is current.
    pub closed spec fn tags_off(&self) -> bool {
        forall|j: int| 1 <= j < self.size as int ==> #[trigger] self.lazy@[j] == A::off()
    }

    /// The logical contents: each stored leaf with every pending
    /// ancestor tag applied, nearest first.
    pub closed spec fn view(&self) -> Seq<X> {
        Seq::new(
            self.spec_size(),
            |i: int| up_chain::<X, U, M, A>(
                self.lazy@,
                self.tree@[self.size + i],
                self.size + i,
            ),
        )
    }

    /// Every internal node's stored value is its subtree's aggregate
    /// (tags included). Broken by direct leaf writes; restored by
    /// `build`; preserved by `apply` and `product`.
    pub closed spec fn built(&self) -> bool {
        forall|j: int|
            1 <= j < self.size as int ==> #[trigger] self.tree@[j] == agg::<X, U, M, A>(
                self.tree@,
                self.lazy@,
                self.size as int,
                j,
            )
    }

    /// Aggregate consistency everywhere except at the proper ancestors
    /// of node `j` (the nodes a descent through `j` has yet to repair).
    pub closed spec fn wf_except(&self, j: int) -> bool {
        forall|k: int|
            1 <= k < self.size as int && !is_strict_ancestor(k, j) ==> #[trigger] self.tree@[k]
                == agg::<X, U, M, A>(self.tree@, self.lazy@, self.size as int, k)
    }

    /// No tag is pending at a proper ancestor of node `j`.
    pub closed spec fn anc_off(&self, j: int) -> bool {
        forall|a: int|
            1 <= a < self.size as int && is_strict_ancestor(a, j) ==> #[trigger] self.lazy@[a]
                == A::off()
    }

    /// Fresh tree of at least `size` leaves (the least power of two at
    /// or above it), every value the identity and every tag neutral.
    pub fn new(size: usize) -> (r: Self)
        requires
            size <= usize::MAX / 4,
        ensures
            r.inv(),
            is_pow2(r.spec_size()),
            r.spec_size() >= size,
            r.spec_size() == 1 || r.spec_size() / 2 < size,
            pow2_levels(r.spec_height()) == r.spec_size(),
            r.leaf_row() == Seq::new(r.spec_size(), |i: int| M::id()),
            r@ == Seq::new(r.spec_size(), |i: int| M::id()),
            r.tags_off(),
            r.built(),
    {
        let size = next_pow2(size);
        // height: one more level than the doublings from one leaf
        let mut height: usize = 1;
        let mut w: usize = 1;
        while 2 * w <= size
            invariant
                1 <= w,
                w <= size,
                height >= 1,
                height <= w,
                is_pow2(w as nat),
                w as nat == pow2_levels(height as nat),
                size <= usize::MAX / 2,
            decreases size - w,
        {
            w = w * 2;
            height = height + 1;
        }
        proof {
            lemma_pow2_sandwich(w as nat, size as nat);
        }
        let e = M::identity();
        let off = A::neutral();
        let mut tree: Vec<X> = Vec::new();
        let mut i: usize = 0;
        while i < 2 * size
            invariant
                e == M::id(),
                tree@.len() == i,
                i <= 2 * size,
                size <= usize::MAX / 2,
                forall|k: int| 0 <= k < i ==> tree@[k] == M::id(),
            decreases 2 * size - i,
        {
            tree.push(e);
            i = i + 1;
        }
        let mut lazy: Vec<U> = Vec::new();
        let mut i: usize = 0;
        while i < size
            invariant
                off == A::off(),
                lazy@.len() == i,
                i <= size,
                forall|j: int| 0 <= j < i ==> #[trigger] lazy@[j] == A::off(),
            decreases size - i,
        {
            lazy.push(off);
            i = i + 1;
        }
        let r = LazySeg { size, height, tree, lazy, _m: PhantomData, _a: PhantomData };
        proof {
            assert(r.leaf_row() =~= Seq::new(r.spec_size(), |i: int| M::id()));
            assert forall|j: int| 1 <= j < r.size as int implies #[trigger] r.tree@[j]
                == agg::<X, U, M, A>(r.tree@, r.lazy@, r.size as int, j) by {
                lemma_agg_all_id::<X, U, M, A>(r.tree@, r.lazy@, r.size as int, j);
            }
            assert(r@ =~= Seq::new(r.spec_size(), |i: int| M::id())) by {
                assert forall|i: int| 0 <= i < r.size as int implies r@[i] == M::id() by {
                    lemma_chain_off::<X, U, M, A>(
                        r.lazy@,
                        r.tree@[r.size + i],
                        r.size + i,
                        r.size as int,
                    );
                }
            }
        }
        r
    }

    /// Number of leaves.
    pub fn len(&self) -> (r: usize)
        ensures
            r == self.spec_size(),
    {
        self.size
    }

    /// The logical contents hold one value per leaf, as does the
    /// stored leaf row.
    pub proof fn lemma_view_len(&self)
        requires
            self.inv(),
        ensures
            self@.len() == self.spec_size(),
            self.leaf_row().len() == self.spec_size(),
    {
    }

    /// Reads the stored value of leaf `i`; equal to the logical value
    /// while no tag is pending (as right after `new` or `build`).
    pub fn get_leaf(&self, i: usize) -> (r: X)
        requires
            self.inv(),
            i < self.spec_size(),
        ensures
            r == self.leaf_row()[i as int],
            self.tags_off() ==> r == self@[i as int],
    {
        proof {
            if self.tags_off() {
                lemma_chain_off::<X, U, M, A>(
                    self.lazy@,
                    self.tree@[self.size + i],
                    self.size + i,
                    self.size as int,
                );
            }
        }
        self.tree[i + self.size]
    }

    /// Writes leaf `i` directly, leaving internal nodes stale; call
    /// `build` before querying again.
    pub fn set_leaf(&mut self, i: usize, x: X)
        requires
            old(self).inv(),
            i < old(self).spec_size(),
        ensures
            final(self).inv(),
            final(self).spec_size() == old(self).spec_size(),
            final(self).spec_height() == old(self).spec_height(),
            final(self).leaf_row() == old(self).leaf_row().update(i as int, x),
            final(self).tags_off() == old(self).tags_off(),
            old(self).tags_off() ==> final(self)@ == old(self)@.update(i as int, x),
    {
        let idx = i + self.size;
        self.tree[idx] = x;
        proof {
            assert(self.leaf_row() =~= old(self).leaf_row().update(i as int, x));
            if old(self).tags_off() {
                assert(self@ =~= old(self)@.update(i as int, x)) by {
                    assert forall|t: int| 0 <= t < self.size as int implies self@[t] == old(
                        self,
                    )@.update(i as int, x)[t] by {
                        lemma_chain_off::<X, U, M, A>(
                            self.lazy@,
                            self.tree@[self.size + t],
                            self.size + t,
                            self.size as int,
                        );
                        lemma_chain_off::<X, U, M, A>(
                            old(self).lazy@,
                            old(self).tree@[self.size + t],
                            self.size + t,
                            self.size as int,
                        );
                    }
                }
            }
        }
    }

    /// Recomputes every internal node bottom-up from the leaves; with
    /// no pending tags this makes the whole tree consistent again.
    pub fn build(&mut self)
        requires
            old(self).inv(),
            old(self).tags_off(),
        ensures
            final(self).inv(),
            final(self).spec_size() == old(self).spec_size(),
            final(self).spec_height() == old(self).spec_height(),
            final(self).leaf_row() == old(self).leaf_row(),
            final(self).tags_off(),
            final(self).built(),
            final(self)@ == old(self).leaf_row(),
    {
        let mut i: usize = self.size;
        while i > 1
            invariant
                self.inv(),
                self.size == old(self).size,
                self.height == old(self).height,
                self.lazy@ == old(self).lazy@,
                self.tags_off(),
                1 <= i <= self.size,
                self.leaf_row() == old(self).leaf_row(),
                forall|j: int|
                    i <= j < self.size as int ==> #[trigger] self.tree@[j] == agg::<X, U, M, A>(
                        self.tree@,
                        self.lazy@,
                        self.size as int,
                        j,
                    ),
            decreases i,
        {
            i = i - 1;
            let ghost pre = self.tree@;
            let v = M::combine(self.tree[2 * i], self.tree[2 * i + 1]);
            self.tree[i] = v;
            proof {
                assert(self.leaf_row() =~= old(self).leaf_row());
                // writing an internal node leaves every processed
                // subtree's aggregate as it was
                assert forall|j: int|
                    i <= j < self.size as int implies #[trigger] self.tree@[j]
                    == agg::<X, U, M, A>(self.tree@, self.lazy@, self.size as int, j) by {
                    assert forall|k: int|
                        1 <= k < 2 * self.size as int && #[trigger] in_subtree(2 * j, k)
                        implies pre[k] == self.tree@[k] && (k < self.size as int
                        ==> self.lazy@[k] == self.lazy@[k]) by {
                        if k == i as int && is_strict_ancestor(2 * j, k) {
                            lemma_anc_double(2 * j, k);
                        }
                    }
                    assert forall|k: int|
                        1 <= k < 2 * self.size as int && #[trigger] in_subtree(2 * j + 1, k)
                        implies pre[k] == self.tree@[k] && (k < self.size as int
                        ==> self.lazy@[k] == self.lazy@[k]) by {
                        if k == i as int && is_strict_ancestor(2 * j + 1, k) {
                            lemma_anc_double(2 * j + 1, k);
                        }
                    }
                    lemma_agg_frame::<X, U, M, A>(
                        pre,
                        self.lazy@,
                        self.tree@,
                        self.lazy@,
                        self.size as int,
                        2 * j,
                    );
                    lemma_agg_frame::<X, U, M, A>(
                        pre,
                        self.lazy@,
                        self.tree@,
                        self.lazy@,
                        self.size as int,
                        2 * j + 1,
                    );
                    if j > i {
                        assert forall|k: int|
                            1 <= k < 2 * self.size as int && #[trigger] in_subtree(j, k)
                            implies pre[k] == self.tree@[k] && (k < self.size as int
                            ==> self.lazy@[k] == self.lazy@[k]) by {
                            if k == i as int && is_strict_ancestor(j, k) {
                                lemma_anc_double(j, k);
                            }
                        }
                        lemma_agg_frame::<X, U, M, A>(
                            pre,
                            self.lazy@,
                            self.tree@,
                            self.lazy@,
                            self.size as int,
                            j,
                        );
                    } else {
                        A::map_off(
                            M::op(
                                agg::<X, U, M, A>(self.tree@, self.lazy@, self.size as int, 2 * i),
                                agg::<X, U, M, A>(
                                    self.tree@,
                                    self.lazy@,
                                    self.size as int,
                                    2 * i + 1,
                                ),
                            ),
                        );
                    }
                }
            }
        }
        proof {
            assert forall|t: int| 0 <= t < self.size as int implies self@[t] == old(
                self,
            ).leaf_row()[t] by {
                lemma_chain_off::<X, U, M, A>(
                    self.lazy@,
                    self.tree@[self.size + t],
                    self.size + t,
                    self.size as int,
                );
            }
            assert(self@ =~= old(self).leaf_row());
        }
    }

    /// Applies the tag to a node's value and folds it into the node's
    /// pending tag where the node is internal.
    fn all_apply(&mut self, j: usize, f: U)
        requires
            old(self).inv(),
            1 <= j < 2 * old(self).spec_size(),
        ensures
            final(self).inv(),
            final(self).spec_size() == old(self).spec_size(),
            final(self).spec_height() == old(self).spec_height(),
            final(self).tree@ == old(self).tree@.update(
                j as int,
                A::map(old(self).tree@[j as int], f),
            ),
            j < old(self).spec_size() ==> final(self).lazy@ == old(self).lazy@.update(
                j as int,
                A::comp(old(self).lazy@[j as int], f),
            ),
            j >= old(self).spec_size() ==> final(self).lazy@ == old(self).lazy@,
    {
        let v = self.tree[j];
        self.tree[j] = A::apply_one(v, f);
        if j < self.size {
            let t = self.lazy[j];
            self.lazy[j] = A::compose(t, f);
        }
    }

    /// Propagates a node's pending tag to both children and clears it:
    /// the logical contents are untouched and every aggregate at or
    /// outside the node stays what it was.
    fn push(&mut self, j: usize)
        requires
            old(self).inv(),
            1 <= j < old(self).spec_size(),
        ensures
            final(self).inv(),
            final(self).spec_size() == old(self).spec_size(),
            final(self).spec_height() == old(self).spec_height(),
            final(self)@ == old(self)@,
            final(self).lazy@[j as int] == A::off(),
            forall|k: int|
                0 <= k < 2 * old(self).spec_size() && k != 2 * j && k != 2 * j + 1
                    ==> final(self).tree@[k] == old(self).tree@[k],
            forall|k: int|
                0 <= k < old(self).spec_size() && k != j as int && k != 2 * j && k != 2 * j + 1
                    ==> final(self).lazy@[k] == old(self).lazy@[k],
            forall|k: int|
                1 <= k < 2 * old(self).spec_size() && !(is_strict_ancestor(j as int, k) && k != j)
                    ==> agg::<X, U, M, A>(
                    final(self).tree@,
                    final(self).lazy@,
                    old(self).spec_size() as int,
                    k,
                ) == agg::<X, U, M, A>(
                    old(self).tree@,
                    old(self).lazy@,
                    old(self).spec_size() as int,
                    k,
                ),
            forall|k: int|
                1 <= k < old(self).spec_size() && !is_strict_ancestor(k, j as int) && old(
                    self,
                ).tree@[k] == agg::<X, U, M, A>(
                    old(self).tree@,
                    old(self).lazy@,
                    old(self).spec_size() as int,
                    k,
                ) ==> final(self).tree@[k] == agg::<X, U, M, A>(
                    final(self).tree@,
                    final(self).lazy@,
                    old(self).spec_size() as int,
                    k,
                ),
        decreases 0int,
    {
        let ghost t1 = self.tree@;
        let ghost l1 = self.lazy@;
        let ghost sz = self.size as int;
        let f = self.lazy[j];
        self.all_apply(2 * j, f);
        self.all_apply(2 * j + 1, f);
        let off = A::neutral();
        self.lazy[j] = off;
        proof {
            let t2 = self.tree@;
            let l2 = self.lazy@;
            assert(t2 == t1.update(2 * j as int, A::map(t1[2 * j as int], f)).update(
                2 * j + 1 as int,
                A::map(t1[2 * j + 1 as int], f),
            ));
            assert(2 * j < sz ==> l2 == l1.update(
                2 * j as int,
                A::comp(l1[2 * j as int], f),
            ).update(2 * j + 1 as int, A::comp(l1[2 * j + 1 as int], f)).update(
                j as int,
                A::off(),
            ));
            assert(2 * j >= sz ==> l2 == l1.update(j as int, A::off())) by {
                if 2 * j >= sz {
                    assert(2 * j + 1 >= sz);
                }
            }
            lemma_push_shape::<X, U, M, A>(t1, l1, t2, l2, sz, j as int);
            assert(self@ =~= old(self)@);
        }
    }

    /// Maps `f` over the logical values covered by node `j` that also
    /// lie in `[l, r)`, descending recursively: a pending tag is pushed
    /// ahead of the descent and the nodes passed are recomputed on the
    /// way back up.
    #[verifier::rlimit(100)]
    #[verifier::spinoff_prover]
    fn apply_rec(&mut self, j: usize, nl: usize, nr: usize, l: usize, r: usize, f: U)
        requires
            old(self).inv(),
            covers_range(old(self).spec_size() as int, j as int, nl as int, nr as int),
            l <= r <= old(self).spec_size(),
            old(self).wf_except(j as int),
            old(self).anc_off(j as int),
        ensures
            final(self).inv(),
            final(self).spec_size() == old(self).spec_size(),
            final(self).spec_height() == old(self).spec_height(),
            final(self).wf_except(j as int),
            forall|k: int|
                0 <= k < 2 * old(self).spec_size() && !in_subtree(j as int, k)
                    ==> final(self).tree@[k] == old(self).tree@[k] && (k
                    < old(self).spec_size() ==> final(self).lazy@[k] == old(self).lazy@[k]),
            forall|i: int|
                0 <= i < old(self).spec_size() ==> final(self)@[i] == (if nl <= i < nr && l <= i
                    < r {
                    A::map(old(self)@[i], f)
                } else {
                    old(self)@[i]
                }),
        decreases nr - nl,
    {
        proof {
            lemma_covers_leaves(self.size as int, j as int, nl as int, nr as int);
        }
        if r <= nl || nr <= l {
            return;
        }
        if l <= nl && nr <= r {
            let ghost t1 = self.tree@;
            let ghost l1 = self.lazy@;
            self.all_apply(j, f);
            proof {
                lemma_cover_apply::<X, U, M, A>(
                    t1,
                    l1,
                    self.tree@,
                    self.lazy@,
                    self.size as int,
                    j as int,
                    f,
                );
                assert forall|k: int|
                    1 <= k < self.size as int && !is_strict_ancestor(k, j as int)
                        implies #[trigger] self.tree@[k] == agg::<X, U, M, A>(
                    self.tree@,
                    self.lazy@,
                    self.size as int,
                    k,
                ) by {
                    if k != j as int {
                        assert(!in_subtree(k, j as int));
                    }
                }
            }
            return;
        }
        let mid = nl + (nr - nl) / 2;
        proof {
            assert(mid == (nl + nr) / 2);
        }
        let ghost s0 = *self;
        self.push(j);
        let ghost s1 = *self;
        proof {
            lemma_descend_ready::<X, U, M, A>(s0, s1, j as int);
        }
        self.apply_rec(2 * j, nl, mid, l, r, f);
        let ghost s2 = *self;
        proof {
            lemma_sibling_ready::<X, U, M, A>(s1, s2, j as int);
        }
        self.apply_rec(2 * j + 1, mid, nr, l, r, f);
        let ghost s3 = *self;
        proof {
            assert(!in_subtree(2 * j as int, j as int)) by {
                if is_strict_ancestor(2 * j as int, j as int) {
                    lemma_anc_double(2 * j as int, j as int);
                }
            }
            assert(!in_subtree(2 * j + 1 as int, j as int)) by {
                if is_strict_ancestor(2 * j + 1 as int, j as int) {
                    lemma_anc_double(2 * j + 1 as int, j as int);
                }
            }
            assert(s3.lazy@[j as int] == A::off());
        }
        let v = M::combine(self.tree[2 * j], self.tree[2 * j + 1]);
        self.tree[j] = v;
        proof {
            lemma_repair::<X, U, M, A>(s3, *self, j as int);
            // everything that changed sits under this node
            assert forall|k: int|
                0 <= k < 2 * s0.spec_size() && !in_subtree(j as int, k) implies self.tree@[k]
                == s0.tree@[k] && (k < s0.spec_size() ==> self.lazy@[k] == s0.lazy@[k]) by {
                lemma_anc_split(j as int, k);
                assert(!in_subtree(2 * j as int, k) && !in_subtree(2 * j + 1 as int, k));
            }
            // the logical contents transform range by range
            assert forall|i: int| 0 <= i < s0.spec_size() implies self@[i] == (if nl <= i < nr
                && l <= i < r {
                A::map(s0@[i], f)
            } else {
                s0@[i]
            }) by {
                assert(self@[i] == s3@[i]);
                assert(s3@[i] == (if mid <= i < nr && l <= i < r {
                    A::map(s2@[i], f)
                } else {
                    s2@[i]
                }));
                assert(s2@[i] == (if nl <= i < mid && l <= i < r {
                    A::map(s1@[i], f)
                } else {
                    s1@[i]
                }));
                assert(s1@[i] == s0@[i]);
            }
        }
    }

    /// Folds the logical values covered by node `j` that also lie in
    /// `[l, r)`, in index order, descending recursively; pushes only
    /// normalize the representation, the contents stay what they were.
    #[verifier::rlimit(100)]
    #[verifier::spinoff_prover]
    fn product_rec(&mut self, j: usize, nl: usize, nr: usize, l: usize, r: usize) -> (res: X)
        requires
            old(self).inv(),
            covers_range(old(self).spec_size() as int, j as int, nl as int, nr as int),
            l <= r <= old(self).spec_size(),
            old(self).wf_except(j as int),
            old(self).anc_off(j as int),
        ensures
            final(self).inv(),
            final(self).spec_size() == old(self).spec_size(),
            final(self).spec_height() == old(self).spec_height(),
            final(self).wf_except(j as int),
            final(self)@ == old(self)@,
            forall|k: int|
                0 <= k < 2 * old(self).spec_size() && !in_subtree(j as int, k)
                    ==> final(self).tree@[k] == old(self).tree@[k] && (k
                    < old(self).spec_size() ==> final(self).lazy@[k] == old(self).lazy@[k]),
            forall|k: int|
                1 <= k < 2 * old(self).spec_size() && !(in_subtree(j as int, k) && k != j)
                    ==> #[trigger] agg::<X, U, M, A>(
                    final(self).tree@,
                    final(self).lazy@,
                    old(self).spec_size() as int,
                    k,
                ) == agg::<X, U, M, A>(
                    old(self).tree@,
                    old(self).lazy@,
                    old(self).spec_size() as int,
                    k,
                ),
            res == (if clip_lo(l as int, nl as int) < clip_hi(r as int, nr as int) {
                mfold::<X, M>(
                    old(self)@.subrange(
                        clip_lo(l as int, nl as int),
                        clip_hi(r as int, nr as int),
                    ),
                )
            } else {
                M::id()
            }),
        decreases nr - nl,
    {
        proof {
            lemma_covers_leaves(self.size as int, j as int, nl as int, nr as int);
        }
        if r <= nl || nr <= l {
            return M::identity();
        }
        if l <= nl && nr <= r {
            proof {
                lemma_cover_read::<X, U, M, A>(
                    self.tree@,
                    self.lazy@,
                    self.size as int,
                    j as int,
                    nl as int,
                    nr as int,
                );
                assert(self@ =~= Seq::new(
                    self.spec_size(),
                    |i: int| up_chain::<X, U, M, A>(
                        self.lazy@,
                        self.tree@[self.size + i],
                        self.size + i,
                    ),
                ));
            }
            return self.tree[j];
        }
        let mid = nl + (nr - nl) / 2;
        proof {
            assert(mid == (nl + nr) / 2);
        }
        let ghost s0 = *self;
        self.push(j);
        let ghost s1 = *self;
        proof {
            lemma_descend_ready::<X, U, M, A>(s0, s1, j as int);
        }
        let left = self.product_rec(2 * j, nl, mid, l, r);
        let ghost s2 = *self;
        proof {
            lemma_sibling_ready::<X, U, M, A>(s1, s2, j as int);
        }
        let right = self.product_rec(2 * j + 1, mid, nr, l, r);
        proof {
            // nothing outside this node's subtree moved
            assert forall|k: int|
                0 <= k < 2 * s0.spec_size() && !in_subtree(j as int, k) implies self.tree@[k]
                == s0.tree@[k] && (k < s0.spec_size() ==> self.lazy@[k] == s0.lazy@[k]) by {
                lemma_anc_split(j as int, k);
                assert(!in_subtree(2 * j as int, k) && !in_subtree(2 * j + 1 as int, k));
            }
            assert(self@ == s0@);
            // this node's own aggregate survives the pushes below it
            assert forall|k: int|
                1 <= k < 2 * s0.spec_size() && !(in_subtree(j as int, k) && k != j)
                    implies #[trigger] agg::<X, U, M, A>(
                self.tree@,
                self.lazy@,
                s0.spec_size() as int,
                k,
            ) == agg::<X, U, M, A>(s0.tree@, s0.lazy@, s0.spec_size() as int, k) by {
                if k != j as int {
                    assert(!(in_subtree(2 * j as int, k) && k != 2 * j)) by {
                        if in_subtree(2 * j as int, k) && k != 2 * j {
                            lemma_subtree_trans(j as int, 2 * j as int, k);
                        }
                    }
                    assert(!(in_subtree(2 * j + 1 as int, k) && k != 2 * j + 1)) by {
                        if in_subtree(2 * j + 1 as int, k) && k != 2 * j + 1 {
                            lemma_subtree_trans(j as int, 2 * j + 1 as int, k);
                        }
                    }
                }
            }
            // restore this node's exception set
            assert forall|k: int|
                1 <= k < s0.spec_size() && !is_strict_ancestor(k, j as int)
                    implies #[trigger] self.tree@[k] == agg::<X, U, M, A>(
                self.tree@,
                self.lazy@,
                s0.spec_size() as int,
                k,
            ) by {
                if k == j as int {
                    assert(!in_subtree(2 * j as int, j as int)) by {
                        if is_strict_ancestor(2 * j as int, j as int) {
                            lemma_anc_double(2 * j as int, j as int);
                        }
                    }
                    assert(!in_subtree(2 * j + 1 as int, j as int)) by {
                        if is_strict_ancestor(2 * j + 1 as int, j as int) {
                            lemma_anc_double(2 * j + 1 as int, j as int);
                        }
                    }
                    assert(self.tree@[k] == s0.tree@[k]);
                } else {
                    lemma_anc_sibling_same(j as int, k);
                }
            }
            // combine the clipped halves
            let lo = clip_lo(l as int, nl as int);
            let hi = clip_hi(r as int, nr as int);
            let hi1 = clip_hi(r as int, mid as int);
            let lo2 = clip_lo(l as int, mid as int);
            if lo < hi {
                if hi1 <= lo {
                    M::id_left(mfold::<X, M>(s0@.subrange(lo, hi)));
                } else if hi <= lo2 {
                    M::id_right(mfold::<X, M>(s0@.subrange(lo, hi)));
                } else {
                    assert(s0@.subrange(lo, hi) =~= s0@.subrange(lo, mid as int) + s0@.subrange(
                        mid as int,
                        hi,
                    ));
                    lemma_mfold_concat::<X, M>(
                        s0@.subrange(lo, mid as int),
                        s0@.subrange(mid as int, hi),
                    );
                }
            } else {
                M::id_left(M::id());
            }
        }
        M::combine(left, right)
    }

    /// Maps the action `f` over the logical values in `[l, r)`: the
    /// contents become exactly the old contents with `f` applied there
    /// and nothing else changed.
    pub fn apply(&mut self, l: usize, r: usize, f: U)
        requires
            old(self).inv(),
            old(self).built(),
            l <= r,
            r <= old(self).spec_size(),
        ensures
            final(self).inv(),
            final(self).built(),
            final(self).spec_size() == old(self).spec_size(),
            final(self).spec_height() == old(self).spec_height(),
            final(self)@ == Seq::new(
                old(self).spec_size(),
                |i: int| if l <= i < r {
                    A::map(old(self)@[i], f)
                } else {
                    old(self)@[i]
                },
            ),
    {
        proof {
            lemma_root_facts::<X, U, M, A>(*old(self));
        }
        let n = self.size;
        self.apply_rec(1, 0, n, l, r, f);
        proof {
            assert forall|k: int| 1 <= k < self.size as int implies #[trigger] self.tree@[k]
                == agg::<X, U, M, A>(self.tree@, self.lazy@, self.size as int, k) by {
                assert(!is_strict_ancestor(k, 1int));
            }
            assert(self@ =~= Seq::new(
                old(self).spec_size(),
                |i: int| if l <= i < r {
                    A::map(old(self)@[i], f)
                } else {
                    old(self)@[i]
                },
            ));
        }
    }

    /// Folds the logical values in `[l, r)` in index order, combining
    /// left to right so the monoid need not be commutative; the
    /// contents are unchanged (the pushes only normalize the
    /// representation), and the empty range yields the identity.
    pub fn product(&mut self, l: usize, r: usize) -> (res: X)
        requires
            old(self).inv(),
            old(self).built(),
            l <= r,
            r <= old(self).spec_size(),
        ensures
            final(self).inv(),
            final(self).built(),
            final(self).spec_size() == old(self).spec_size(),
            final(self).spec_height() == old(self).spec_height(),
            final(self)@ == old(self)@,
            res == mfold::<X, M>(old(self)@.subrange(l as int, r as int)),
    {
        proof {
            lemma_root_facts::<X, U, M, A>(*old(self));
        }
        let n = self.size;
        let res = self.product_rec(1, 0, n, l, r);
        proof {
            assert forall|k: int| 1 <= k < self.size as int implies #[trigger] self.tree@[k]
                == agg::<X, U, M, A>(self.tree@, self.lazy@, self.size as int, k) by {
                assert(!is_strict_ancestor(k, 1int));
            }
            if l == r {
                assert(old(self)@.subrange(l as int, r as int) =~= Seq::<X>::empty());
            }
        }
        res
    }
}


/// Larger of a query bound and a block's left edge.
pub open spec fn clip_lo(l: int, nl: int) -> int {
    if l > nl {
        l
    } else {
        nl
    }
}

/// Smaller of a query bound and a block's right edge.
pub open spec fn clip_hi(r: int, nr: int) -> int {
    if r < nr {
        r
    } else {
        nr
    }
}

/// The chain of a slot reads only the tags at its proper ancestors.
proof fn lemma_chain_cong<X, U, M: Monoid<X>, A: Action<X, U, M>>(
    l1: Seq<U>,
    l2: Seq<U>,
    x: X,
    s: int,
)
    requires
        forall|a: int| is_strict_ancestor(a, s) ==> l1[a] == #[trigger] l2[a],
    ensures
        up_chain::<X, U, M, A>(l1, x, s) == up_chain::<X, U, M, A>(l2, x, s),
    decreases s,
{
    if s > 1 {
        assert(is_strict_ancestor(s / 2, s));
        assert forall|a: int| is_strict_ancestor(a, s / 2) implies l1[a] == #[trigger] l2[a] by {
            assert(is_strict_ancestor(a, s));
        }
        lemma_chain_cong::<X, U, M, A>(l1, l2, A::map(x, l1[s / 2]), s / 2);
    }
}

/// With every proper ancestor's tag neutral, the chain changes nothing.
proof fn lemma_chain_off<X, U, M: Monoid<X>, A: Action<X, U, M>>(
    lz: Seq<U>,
    x: X,
    s: int,
    size: int,
)
    requires
        forall|a: int| 1 <= a < size && #[trigger] is_strict_ancestor(a, s) ==> lz[a] == A::off(),
        1 <= s < 2 * size,
    ensures
        up_chain::<X, U, M, A>(lz, x, s) == x,
    decreases s,
{
    if s > 1 {
        assert(is_strict_ancestor(s / 2, s));
        A::map_off(x);
        assert forall|a: int| 1 <= a < size && #[trigger] is_strict_ancestor(a, s / 2) implies lz[a]
            == A::off() by {
            assert(is_strict_ancestor(a, s));
        }
        lemma_chain_off::<X, U, M, A>(lz, A::map(x, lz[s / 2]), s / 2, size);
    }
}

/// A slot's chain splits at any of its ancestors: the tags up to and
/// including the ancestor first, then the chain from the ancestor on.
proof fn lemma_chain_factor<X, U, M: Monoid<X>, A: Action<X, U, M>>(lz: Seq<U>, x: X, s: int, a: int)
    requires
        in_subtree(a, s),
        a >= 1,
    ensures
        up_chain::<X, U, M, A>(lz, x, s) == up_chain::<X, U, M, A>(
            lz,
            dn_chain::<X, U, M, A>(lz, x, s, a),
            a,
        ),
    decreases s,
{
    if s != a {
        lemma_anc_double(a, s);
        assert(in_subtree(a, s / 2));
        lemma_chain_factor::<X, U, M, A>(lz, A::map(x, lz[s / 2]), s / 2, a);
    }
}

/// The low part of a chain reads only the tags on its own stretch.
proof fn lemma_dn_cong<X, U, M: Monoid<X>, A: Action<X, U, M>>(
    l1: Seq<U>,
    l2: Seq<U>,
    x: X,
    s: int,
    a: int,
)
    requires
        in_subtree(a, s),
        a >= 1,
        forall|b: int|
            in_subtree(a, b) && #[trigger] is_strict_ancestor(b, s) ==> l1[b] == l2[b],
    ensures
        dn_chain::<X, U, M, A>(l1, x, s, a) == dn_chain::<X, U, M, A>(l2, x, s, a),
    decreases s,
{
    if s != a {
        lemma_anc_double(a, s);
        assert(in_subtree(a, s / 2));
        assert(is_strict_ancestor(s / 2, s));
        assert(l1[s / 2] == l2[s / 2]);
        assert forall|b: int|
            in_subtree(a, b) && #[trigger] is_strict_ancestor(b, s / 2) implies l1[b] == l2[b] by {
            assert(is_strict_ancestor(b, s));
        }
        lemma_dn_cong::<X, U, M, A>(l1, l2, A::map(x, l1[s / 2]), s / 2, a);
    }
}

/// The low part of a chain splits at an intermediate ancestor.
proof fn lemma_dn_split<X, U, M: Monoid<X>, A: Action<X, U, M>>(
    lz: Seq<U>,
    x: X,
    s: int,
    c: int,
    a: int,
)
    requires
        in_subtree(c, s),
        in_subtree(a, c),
        a >= 1,
        c >= 1,
    ensures
        dn_chain::<X, U, M, A>(lz, x, s, a) == dn_chain::<X, U, M, A>(
            lz,
            dn_chain::<X, U, M, A>(lz, x, s, c),
            c,
            a,
        ),
    decreases s,
{
    if s != c {
        lemma_anc_double(c, s);
        if a != c {
            lemma_anc_double(a, c);
        }
        assert(in_subtree(c, s / 2));
        lemma_dn_split::<X, U, M, A>(lz, A::map(x, lz[s / 2]), s / 2, c, a);
    }
}

/// Two nodes above a common descendant are comparable.
proof fn lemma_comparable(a: int, b: int, d: int)
    requires
        in_subtree(a, d),
        in_subtree(b, d),
    ensures
        in_subtree(a, b) || in_subtree(b, a),
    decreases d,
{
    if a != d && b != d {
        lemma_comparable(a, b, d / 2);
    }
}

/// A node's aggregate reads only its own subtree.
proof fn lemma_agg_frame<X, U, M: Monoid<X>, A: Action<X, U, M>>(
    t1: Seq<X>,
    l1: Seq<U>,
    t2: Seq<X>,
    l2: Seq<U>,
    size: int,
    j: int,
)
    requires
        1 <= j < 2 * size,
        forall|k: int|
            1 <= k < 2 * size && #[trigger] in_subtree(j, k) ==> t1[k] == t2[k] && (k < size
                ==> l1[k] == l2[k]),
    ensures
        agg::<X, U, M, A>(t1, l1, size, j) == agg::<X, U, M, A>(t2, l2, size, j),
    decreases 2 * size - j,
{
    assert(in_subtree(j, j));
    if 1 <= j < size {
        assert(in_subtree(j, 2 * j) && in_subtree(j, 2 * j + 1)) by {
            lemma_anc_split(j, 2 * j);
            lemma_anc_split(j, 2 * j + 1);
        }
        assert forall|k: int|
            1 <= k < 2 * size && #[trigger] in_subtree(2 * j, k) implies t1[k] == t2[k] && (k
            < size ==> l1[k] == l2[k]) by {
            lemma_subtree_trans(j, 2 * j, k);
        }
        assert forall|k: int|
            1 <= k < 2 * size && #[trigger] in_subtree(2 * j + 1, k) implies t1[k] == t2[k] && (k
            < size ==> l1[k] == l2[k]) by {
            lemma_subtree_trans(j, 2 * j + 1, k);
        }
        lemma_agg_frame::<X, U, M, A>(t1, l1, t2, l2, size, 2 * j);
        lemma_agg_frame::<X, U, M, A>(t1, l1, t2, l2, size, 2 * j + 1);
    }
}

/// With identity values and neutral tags everywhere, every aggregate
/// is the identity.
proof fn lemma_agg_all_id<X, U, M: Monoid<X>, A: Action<X, U, M>>(
    tree: Seq<X>,
    lazy: Seq<U>,
    size: int,
    j: int,
)
    requires
        forall|k: int| 0 <= k < tree.len() ==> tree[k] == M::id(),
        forall|k: int| 0 <= k < lazy.len() ==> #[trigger] lazy[k] == A::off(),
        tree.len() == 2 * size,
        lazy.len() == size,
        1 <= j < 2 * size,
    ensures
        agg::<X, U, M, A>(tree, lazy, size, j) == M::id(),
    decreases 2 * size - j,
{
    if j < size {
        lemma_agg_all_id::<X, U, M, A>(tree, lazy, size, 2 * j);
        lemma_agg_all_id::<X, U, M, A>(tree, lazy, size, 2 * j + 1);
        M::id_left(M::id());
        A::map_off(M::op(M::id(), M::id()));
    }
}

/// Applying one action to every element of a nonempty sequence maps
/// its fold (the action distributes over the combine).
proof fn lemma_map_fold<X, U, M: Monoid<X>, A: Action<X, U, M>>(s: Seq<X>, f: U)
    requires
        s.len() >= 1,
    ensures
        mfold::<X, M>(s.map_values(|x: X| A::map(x, f))) == A::map(mfold::<X, M>(s), f),
    decreases s.len(),
{
    let ms = s.map_values(|x: X| A::map(x, f));
    assert(ms.len() == s.len());
    if s.len() == 1 {
        assert(ms.drop_last() =~= Seq::<X>::empty());
        assert(s.drop_last() =~= Seq::<X>::empty());
        assert(mfold::<X, M>(Seq::<X>::empty()) == M::id());
        M::id_left(A::map(s[0], f));
        M::id_left(s[0]);
        assert(ms.last() == A::map(s[0], f));
        assert(s.last() == s[0]);
    } else {
        lemma_map_fold::<X, U, M, A>(s.drop_last(), f);
        assert(ms.drop_last() =~= s.drop_last().map_values(|x: X| A::map(x, f)));
        assert(ms.last() == A::map(s.last(), f));
        A::map_op(mfold::<X, M>(s.drop_last()), s.last(), f);
    }
}

/// The leaves `[nl, nr)` of a tree, each with the tags at or below
/// node `j` applied: the values node `j` aggregates.
spec fn dn_row<X, U, M: Monoid<X>, A: Action<X, U, M>>(
    tree: Seq<X>,
    lazy: Seq<U>,
    size: int,
    j: int,
    nl: int,
    nr: int,
) -> Seq<X> {
    Seq::new(
        (nr - nl) as nat,
        |u: int| dn_chain::<X, U, M, A>(lazy, tree[size + nl + u], size + nl + u, j),
    )
}

/// A covering node's aggregate is the fold, in index order, of its
/// leaves with the tags at or below the node applied.
proof fn lemma_agg_fold<X, U, M: Monoid<X>, A: Action<X, U, M>>(
    tree: Seq<X>,
    lazy: Seq<U>,
    size: int,
    j: int,
    nl: int,
    nr: int,
)
    requires
        covers_range(size, j, nl, nr),
    ensures
        agg::<X, U, M, A>(tree, lazy, size, j) == mfold::<X, M>(
            dn_row::<X, U, M, A>(tree, lazy, size, j, nl, nr),
        ),
    decreases nr - nl,
{
    lemma_covers_leaves(size, j, nl, nr);
    let body = dn_row::<X, U, M, A>(tree, lazy, size, j, nl, nr);
    if nr == nl + 1 {
        assert(body.drop_last() =~= Seq::<X>::empty());
        assert(mfold::<X, M>(Seq::<X>::empty()) == M::id());
        assert(body.last() == tree[size + nl]);
        M::id_left(tree[size + nl]);
        assert(mfold::<X, M>(body) == M::op(M::id(), tree[size + nl]));
    } else {
        let mid = (nl + nr) / 2;
        lemma_agg_fold::<X, U, M, A>(tree, lazy, size, 2 * j, nl, mid);
        lemma_agg_fold::<X, U, M, A>(tree, lazy, size, 2 * j + 1, mid, nr);
        lemma_covers_leaves(size, 2 * j, nl, mid);
        lemma_covers_leaves(size, 2 * j + 1, mid, nr);
        let lseq = dn_row::<X, U, M, A>(tree, lazy, size, 2 * j, nl, mid);
        let rseq = dn_row::<X, U, M, A>(tree, lazy, size, 2 * j + 1, mid, nr);
        assert(agg::<X, U, M, A>(tree, lazy, size, 2 * j) == mfold::<X, M>(lseq));
        assert(agg::<X, U, M, A>(tree, lazy, size, 2 * j + 1) == mfold::<X, M>(rseq));
        assert(body =~= (lseq + rseq).map_values(|x: X| A::map(x, lazy[j]))) by {
            assert forall|u: int| 0 <= u < nr - nl implies body[u] == A::map(
                (lseq + rseq)[u],
                lazy[j],
            ) by {
                let i0 = nl + u;
                let s0 = size + nl + u;
                let c: int = if u < mid - nl {
                    2 * j
                } else {
                    2 * j + 1
                };
                assert(in_subtree(c, size + i0));
                assert(in_subtree(c, s0));
                assert(in_subtree(j, c)) by {
                    lemma_anc_split(j, c);
                }
                lemma_dn_split::<X, U, M, A>(lazy, tree[s0], s0, c, j);
                lemma_anc_double(j, c);
                let yv = dn_chain::<X, U, M, A>(lazy, tree[s0], s0, c);
                assert(dn_chain::<X, U, M, A>(lazy, A::map(yv, lazy[j]), j, j) == A::map(
                    yv,
                    lazy[j],
                ));
                assert(dn_chain::<X, U, M, A>(lazy, yv, c, j) == A::map(yv, lazy[j]));
            }
        }
        lemma_map_fold::<X, U, M, A>(lseq + rseq, lazy[j]);
        lemma_mfold_concat::<X, M>(lseq, rseq);
        assert(mfold::<X, M>(body) == mfold::<X, M>(
            (lseq + rseq).map_values(|x: X| A::map(x, lazy[j])),
        ));
        assert(mfold::<X, M>(lseq + rseq) == M::op(mfold::<X, M>(lseq), mfold::<X, M>(rseq)));
        assert(1 <= j < size);
        assert(agg::<X, U, M, A>(tree, lazy, size, j) == A::map(
            M::op(
                agg::<X, U, M, A>(tree, lazy, size, 2 * j),
                agg::<X, U, M, A>(tree, lazy, size, 2 * j + 1),
            ),
            lazy[j],
        ));
        assert(mfold::<X, M>(body) == A::map(mfold::<X, M>(lseq + rseq), lazy[j]));
        assert(agg::<X, U, M, A>(tree, lazy, size, j) == mfold::<X, M>(body));
    }
}

/// The two subtrees of a node's children are disjoint.
proof fn lemma_sibling_disjoint(k: int, idx: int)
    requires
        k >= 1,
    ensures
        !(in_subtree(2 * k, idx) && in_subtree(2 * k + 1, idx)),
{
    if in_subtree(2 * k, idx) && in_subtree(2 * k + 1, idx) {
        lemma_comparable(2 * k, 2 * k + 1, idx);
        if in_subtree(2 * k, 2 * k + 1) && 2 * k != 2 * k + 1 {
            lemma_anc_double(2 * k, 2 * k + 1);
        }
        if in_subtree(2 * k + 1, 2 * k) && 2 * k != 2 * k + 1 {
            lemma_anc_double(2 * k + 1, 2 * k);
        }
    }
}

/// Aggregates at and outside a reworked subtree are untouched once the
/// subtree's own aggregate is: induction up the ancestor chain.
proof fn lemma_agg_preserve<X, U, M: Monoid<X>, A: Action<X, U, M>>(
    t1: Seq<X>,
    l1: Seq<U>,
    t2: Seq<X>,
    l2: Seq<U>,
    size: int,
    c: int,
    k: int,
)
    requires
        forall|idx: int|
            0 <= idx < 2 * size && !#[trigger] in_subtree(c, idx) ==> t2[idx] == t1[idx] && (idx
                < size ==> l1[idx] == l2[idx]),
        agg::<X, U, M, A>(t1, l1, size, c) == agg::<X, U, M, A>(t2, l2, size, c),
        !(in_subtree(c, k) && k != c),
        c >= 1,
        1 <= k < 2 * size,
        c < 2 * size,
    ensures
        agg::<X, U, M, A>(t1, l1, size, k) == agg::<X, U, M, A>(t2, l2, size, k),
    decreases 2 * size - k,
{
    if k == c {
    } else if !in_subtree(k, c) {
        assert forall|idx: int|
            1 <= idx < 2 * size && #[trigger] in_subtree(k, idx) implies t1[idx] == t2[idx] && (
            idx < size ==> l1[idx] == l2[idx]) by {
            if in_subtree(c, idx) {
                lemma_comparable(k, c, idx);
                if in_subtree(c, k) {
                    assert(k == c);
                }
            }
        }
        lemma_agg_frame::<X, U, M, A>(t1, l1, t2, l2, size, k);
    } else {
        // k is a proper ancestor of c, hence internal
        lemma_anc_double(k, c);
        assert(k < size) by {
            if k >= size {
                assert(2 * k <= c);
            }
        }
        lemma_anc_split(k, c);
        let child: int = if in_subtree(2 * k, c) {
            2 * k
        } else {
            2 * k + 1
        };
        let other: int = if in_subtree(2 * k, c) {
            2 * k + 1
        } else {
            2 * k
        };
        assert(in_subtree(child, c));
        assert(!(in_subtree(c, child) && child != c)) by {
            if in_subtree(c, child) && child != c {
                lemma_anc_double(c, child);
                lemma_anc_double(child, c);
            }
        }
        assert(1 <= child < 2 * size && 1 <= other < 2 * size) by {
            lemma_anc_double(k, c);
        }
        lemma_agg_preserve::<X, U, M, A>(t1, l1, t2, l2, size, c, child);
        assert forall|idx: int|
            1 <= idx < 2 * size && #[trigger] in_subtree(other, idx) implies t1[idx] == t2[idx]
            && (idx < size ==> l1[idx] == l2[idx]) by {
            if in_subtree(c, idx) {
                lemma_subtree_trans(child, c, idx);
                lemma_sibling_disjoint(k, idx);
            }
        }
        lemma_agg_frame::<X, U, M, A>(t1, l1, t2, l2, size, other);
        assert(l1[k] == l2[k]) by {
            if in_subtree(c, k) {
                assert(k == c);
            }
        }
    }
}

/// Pushing one node's tag to its children changes no logical value and
/// no aggregate at or outside the node, and keeps every consistent
/// non-ancestor consistent.
proof fn lemma_push_shape<X, U, M: Monoid<X>, A: Action<X, U, M>>(
    t1: Seq<X>,
    l1: Seq<U>,
    t2: Seq<X>,
    l2: Seq<U>,
    size: int,
    j: int,
)
    requires
        1 <= j < size,
        is_pow2(size as nat),
        t1.len() == 2 * size,
        l1.len() == size,
        t2 == t1.update(2 * j, A::map(t1[2 * j], l1[j])).update(
            2 * j + 1,
            A::map(t1[2 * j + 1], l1[j]),
        ),
        l2 == (if 2 * j < size {
            l1.update(2 * j, A::comp(l1[2 * j], l1[j])).update(
                2 * j + 1,
                A::comp(l1[2 * j + 1], l1[j]),
            )
        } else {
            l1
        }).update(j, A::off()),
    ensures
        forall|s: int|
            size <= s < 2 * size ==> #[trigger] up_chain::<X, U, M, A>(l2, t2[s], s)
                == up_chain::<X, U, M, A>(l1, t1[s], s),
        forall|k: int|
            1 <= k < 2 * size && !(in_subtree(j, k) && k != j) ==> #[trigger] agg::<X, U, M, A>(
                t2,
                l2,
                size,
                k,
            ) == agg::<X, U, M, A>(t1, l1, size, k),
        forall|k: int|
            1 <= k < size && !is_strict_ancestor(k, j) && t1[k] == agg::<X, U, M, A>(
                t1,
                l1,
                size,
                k,
            ) ==> t2[k] == #[trigger] agg::<X, U, M, A>(t2, l2, size, k),
{
    let t = l1[j];
    lemma_anc_split(j, 2 * j);
    lemma_anc_split(j, 2 * j + 1);
    assert(in_subtree(j, 2 * j) && in_subtree(j, 2 * j + 1));
    assert(size >= 2 && size % 2 == 0) by {
        assert(is_pow2(size as nat));
    }
    // each child's aggregate absorbs the pushed tag
    assert(agg::<X, U, M, A>(t2, l2, size, 2 * j) == A::map(
        agg::<X, U, M, A>(t1, l1, size, 2 * j),
        t,
    ) && agg::<X, U, M, A>(t2, l2, size, 2 * j + 1) == A::map(
        agg::<X, U, M, A>(t1, l1, size, 2 * j + 1),
        t,
    )) by {
        if 2 * j >= size {
        } else {
            assert forall|idx: int|
                1 <= idx < 2 * size && #[trigger] in_subtree(4 * j, idx) implies t1[idx] == t2[idx]
                && (idx < size ==> l1[idx] == l2[idx]) by {
                if idx != 4 * j {
                    lemma_anc_double(4 * j, idx);
                }
            }
            assert forall|idx: int|
                1 <= idx < 2 * size && #[trigger] in_subtree(4 * j + 1, idx) implies t1[idx]
                == t2[idx] && (idx < size ==> l1[idx] == l2[idx]) by {
                if idx != 4 * j + 1 {
                    lemma_anc_double(4 * j + 1, idx);
                }
            }
            assert forall|idx: int|
                1 <= idx < 2 * size && #[trigger] in_subtree(4 * j + 2, idx) implies t1[idx]
                == t2[idx] && (idx < size ==> l1[idx] == l2[idx]) by {
                if idx != 4 * j + 2 {
                    lemma_anc_double(4 * j + 2, idx);
                }
            }
            assert forall|idx: int|
                1 <= idx < 2 * size && #[trigger] in_subtree(4 * j + 3, idx) implies t1[idx]
                == t2[idx] && (idx < size ==> l1[idx] == l2[idx]) by {
                if idx != 4 * j + 3 {
                    lemma_anc_double(4 * j + 3, idx);
                }
            }
            lemma_agg_frame::<X, U, M, A>(t1, l1, t2, l2, size, 4 * j);
            lemma_agg_frame::<X, U, M, A>(t1, l1, t2, l2, size, 4 * j + 1);
            lemma_agg_frame::<X, U, M, A>(t1, l1, t2, l2, size, 4 * j + 2);
            lemma_agg_frame::<X, U, M, A>(t1, l1, t2, l2, size, 4 * j + 3);
            A::map_comp(
                M::op(
                    agg::<X, U, M, A>(t1, l1, size, 4 * j),
                    agg::<X, U, M, A>(t1, l1, size, 4 * j + 1),
                ),
                l1[2 * j],
                t,
            );
            A::map_comp(
                M::op(
                    agg::<X, U, M, A>(t1, l1, size, 4 * j + 2),
                    agg::<X, U, M, A>(t1, l1, size, 4 * j + 3),
                ),
                l1[2 * j + 1],
                t,
            );
        }
    }
    // the node's own aggregate is unchanged
    assert(agg::<X, U, M, A>(t2, l2, size, j) == agg::<X, U, M, A>(t1, l1, size, j)) by {
        A::map_off(
            M::op(
                agg::<X, U, M, A>(t2, l2, size, 2 * j),
                agg::<X, U, M, A>(t2, l2, size, 2 * j + 1),
            ),
        );
        A::map_op(
            agg::<X, U, M, A>(t1, l1, size, 2 * j),
            agg::<X, U, M, A>(t1, l1, size, 2 * j + 1),
            t,
        );
    }
    // aggregates at or outside the node
    assert forall|k: int| 1 <= k < 2 * size && !(in_subtree(j, k) && k != j)
        implies #[trigger] agg::<X, U, M, A>(t2, l2, size, k) == agg::<X, U, M, A>(
        t1,
        l1,
        size,
        k,
    ) by {
        assert forall|idx: int|
            0 <= idx < 2 * size && !#[trigger] in_subtree(j, idx) implies t2[idx] == t1[idx] && (
            idx < size ==> l1[idx] == l2[idx]) by {
            assert(in_subtree(j, j) && in_subtree(j, 2 * j) && in_subtree(j, 2 * j + 1));
        }
        lemma_agg_preserve::<X, U, M, A>(t1, l1, t2, l2, size, j, k);
    }
    // consistency transfer
    assert forall|k: int|
        1 <= k < size && !is_strict_ancestor(k, j) && t1[k] == agg::<X, U, M, A>(
            t1,
            l1,
            size,
            k,
        ) implies t2[k] == #[trigger] agg::<X, U, M, A>(t2, l2, size, k) by {
        if k == j {
        } else if k == 2 * j || k == 2 * j + 1 {
        } else if in_subtree(j, k) {
            // strictly under a child: everything it reads is unchanged
            lemma_anc_split(j, k);
            assert forall|idx: int|
                1 <= idx < 2 * size && #[trigger] in_subtree(k, idx) implies t1[idx] == t2[idx]
                && (idx < size ==> l1[idx] == l2[idx]) by {
                if idx == j || idx == 2 * j || idx == 2 * j + 1 {
                    if in_subtree(2 * j, k) {
                        if k != 2 * j {
                            lemma_anc_double(2 * j, k);
                        }
                    } else {
                        if k != 2 * j + 1 {
                            lemma_anc_double(2 * j + 1, k);
                        }
                    }
                    if idx != k {
                        lemma_anc_double(k, idx);
                    }
                }
            }
            lemma_agg_frame::<X, U, M, A>(t1, l1, t2, l2, size, k);
        } else {
        }
    }
    // the logical value of every leaf is unchanged
    assert forall|s: int| size <= s < 2 * size implies #[trigger] up_chain::<X, U, M, A>(
        l2,
        t2[s],
        s,
    ) == up_chain::<X, U, M, A>(l1, t1[s], s) by {
        if !in_subtree(j, s) {
            assert(t2[s] == t1[s]);
            assert forall|a: int| is_strict_ancestor(a, s) implies l2[a] == #[trigger] l1[a] by {
                lemma_anc_double(a, s);
                if a == j {
                    assert(in_subtree(j, s));
                } else if a == 2 * j || a == 2 * j + 1 {
                    assert(in_subtree(a, s));
                    lemma_anc_split(j, s);
                    assert(in_subtree(j, s));
                }
            }
            lemma_chain_cong::<X, U, M, A>(l2, l1, t1[s], s);
        } else if s == 2 * j || s == 2 * j + 1 {
            let x = t1[s];
            assert(t2[s] == A::map(x, t));
            assert(s / 2 == j);
            assert(up_chain::<X, U, M, A>(l2, t2[s], s) == up_chain::<X, U, M, A>(
                l2,
                A::map(A::map(x, t), l2[j]),
                j,
            ));
            A::map_off(A::map(x, t));
            assert(up_chain::<X, U, M, A>(l1, x, s) == up_chain::<X, U, M, A>(
                l1,
                A::map(x, t),
                j,
            ));
            assert forall|a: int| is_strict_ancestor(a, j) implies l2[a] == #[trigger] l1[a] by {
                lemma_anc_double(a, j);
                assert(a < j);
            }
            lemma_chain_cong::<X, U, M, A>(l2, l1, A::map(x, t), j);
        } else {
            // strictly below a child of j
            lemma_anc_split(j, s);
            let c0: int = if in_subtree(2 * j, s) {
                2 * j
            } else {
                2 * j + 1
            };
            assert(is_strict_ancestor(c0, s));
            lemma_anc_double(c0, s);
            lemma_anc_split(c0, s);
            let c1: int = if in_subtree(2 * c0, s) {
                2 * c0
            } else {
                2 * c0 + 1
            };
            let x = t1[s];
            assert(t2[s] == x);
            lemma_chain_factor::<X, U, M, A>(l2, x, s, c1);
            lemma_chain_factor::<X, U, M, A>(l1, x, s, c1);
            assert forall|b: int|
                in_subtree(c1, b) && #[trigger] is_strict_ancestor(b, s) implies l1[b] == l2[b] by {
                lemma_anc_double(b, s);
                if in_subtree(c1, b) {
                    if b != c1 {
                        lemma_anc_double(c1, b);
                    }
                    if b == j || b == 2 * j || b == 2 * j + 1 {
                        lemma_anc_double(c0, c1);
                        assert(false);
                    }
                }
            }
            lemma_dn_cong::<X, U, M, A>(l2, l1, x, s, c1);
            let y = dn_chain::<X, U, M, A>(l1, x, s, c1);
            assert(c1 / 2 == c0 && c0 / 2 == j);
            assert(c0 >= 2 * j && c1 >= 2 * c0);
            assert(up_chain::<X, U, M, A>(l2, y, c1) == up_chain::<X, U, M, A>(
                l2,
                A::map(y, l2[c0]),
                c0,
            ));
            assert(up_chain::<X, U, M, A>(l2, A::map(y, l2[c0]), c0) == up_chain::<X, U, M, A>(
                l2,
                A::map(A::map(y, l2[c0]), l2[j]),
                j,
            ));
            assert(up_chain::<X, U, M, A>(l1, y, c1) == up_chain::<X, U, M, A>(
                l1,
                A::map(y, l1[c0]),
                c0,
            ));
            assert(up_chain::<X, U, M, A>(l1, A::map(y, l1[c0]), c0) == up_chain::<X, U, M, A>(
                l1,
                A::map(A::map(y, l1[c0]), l1[j]),
                j,
            ));
            assert(l2[c0] == A::comp(l1[c0], t));
            A::map_comp(y, l1[c0], t);
            A::map_off(A::map(A::map(y, l1[c0]), t));
            assert forall|a: int| is_strict_ancestor(a, j) implies l2[a] == #[trigger] l1[a] by {
                lemma_anc_double(a, j);
                assert(a < j);
            }
            lemma_chain_cong::<X, U, M, A>(l2, l1, A::map(A::map(y, l1[c0]), t), j);
        }
    }
}

/// Recording one action on a node whose ancestors hold no tags maps
/// exactly its leaves' logical values and keeps every aggregate
/// outside the node's chain.
proof fn lemma_cover_apply<X, U, M: Monoid<X>, A: Action<X, U, M>>(
    t1: Seq<X>,
    l1: Seq<U>,
    t2: Seq<X>,
    l2: Seq<U>,
    size: int,
    j: int,
    f: U,
)
    requires
        1 <= j < 2 * size,
        size >= 1,
        t1.len() == 2 * size,
        l1.len() == size,
        t2 == t1.update(j, A::map(t1[j], f)),
        j < size ==> l2 == l1.update(j, A::comp(l1[j], f)),
        j >= size ==> l2 == l1,
        forall|a: int|
            1 <= a < size && #[trigger] is_strict_ancestor(a, j) ==> l1[a] == A::off(),
    ensures
        forall|s: int|
            size <= s < 2 * size ==> #[trigger] up_chain::<X, U, M, A>(l2, t2[s], s) == (if
            in_subtree(j, s) {
                A::map(up_chain::<X, U, M, A>(l1, t1[s], s), f)
            } else {
                up_chain::<X, U, M, A>(l1, t1[s], s)
            }),
        agg::<X, U, M, A>(t2, l2, size, j) == A::map(agg::<X, U, M, A>(t1, l1, size, j), f),
        forall|k: int|
            1 <= k < 2 * size && !in_subtree(k, j) ==> #[trigger] agg::<X, U, M, A>(
                t2,
                l2,
                size,
                k,
            ) == agg::<X, U, M, A>(t1, l1, size, k),
{
    assert(agg::<X, U, M, A>(t2, l2, size, j) == A::map(agg::<X, U, M, A>(t1, l1, size, j), f))
        by {
        if j < size {
            assert forall|idx: int|
                1 <= idx < 2 * size && #[trigger] in_subtree(2 * j, idx) implies t1[idx]
                == t2[idx] && (idx < size ==> l1[idx] == l2[idx]) by {
                if idx != 2 * j {
                    lemma_anc_double(2 * j, idx);
                }
            }
            assert forall|idx: int|
                1 <= idx < 2 * size && #[trigger] in_subtree(2 * j + 1, idx) implies t1[idx]
                == t2[idx] && (idx < size ==> l1[idx] == l2[idx]) by {
                if idx != 2 * j + 1 {
                    lemma_anc_double(2 * j + 1, idx);
                }
            }
            lemma_agg_frame::<X, U, M, A>(t1, l1, t2, l2, size, 2 * j);
            lemma_agg_frame::<X, U, M, A>(t1, l1, t2, l2, size, 2 * j + 1);
            A::map_comp(
                M::op(
                    agg::<X, U, M, A>(t1, l1, size, 2 * j),
                    agg::<X, U, M, A>(t1, l1, size, 2 * j + 1),
                ),
                l1[j],
                f,
            );
        }
    }
    assert forall|k: int|
        1 <= k < 2 * size && !in_subtree(k, j) implies #[trigger] agg::<X, U, M, A>(
        t2,
        l2,
        size,
        k,
    ) == agg::<X, U, M, A>(t1, l1, size, k) by {
        assert forall|idx: int|
            1 <= idx < 2 * size && #[trigger] in_subtree(k, idx) implies t1[idx] == t2[idx] && (
            idx < size ==> l1[idx] == l2[idx]) by {
            if idx == j {
                assert(in_subtree(k, j));
            }
        }
        lemma_agg_frame::<X, U, M, A>(t1, l1, t2, l2, size, k);
    }
    assert forall|s: int| size <= s < 2 * size implies #[trigger] up_chain::<X, U, M, A>(
        l2,
        t2[s],
        s,
    ) == (if in_subtree(j, s) {
        A::map(up_chain::<X, U, M, A>(l1, t1[s], s), f)
    } else {
        up_chain::<X, U, M, A>(l1, t1[s], s)
    }) by {
        if !in_subtree(j, s) {
            assert(t2[s] == t1[s]);
            assert forall|a: int| is_strict_ancestor(a, s) implies l2[a] == #[trigger] l1[a] by {
                lemma_anc_double(a, s);
                if a == j {
                    assert(in_subtree(j, s));
                    assert(false);
                } else {
                    if j < size as int {
                        assert(l2 == l1.update(j, A::comp(l1[j], f)));
                        assert(l2[a] == l1[a]);
                    } else {
                        assert(l2 == l1);
                    }
                }
            }
            lemma_chain_cong::<X, U, M, A>(l2, l1, t1[s], s);
        } else if s == j {
            let x = t1[s];
            lemma_chain_off::<X, U, M, A>(l1, x, s, size);
            assert forall|a: int|
                1 <= a < size && #[trigger] is_strict_ancestor(a, s) implies l2[a] == A::off() by {
                lemma_anc_double(a, s);
            }
            lemma_chain_off::<X, U, M, A>(l2, A::map(x, f), s, size);
        } else {
            // strictly below j, which is internal
            assert(is_strict_ancestor(j, s));
            lemma_anc_double(j, s);
            assert(j < size) by {
                if j >= size {
                    assert(2 * j <= s);
                }
            }
            lemma_anc_split(j, s);
            let c1: int = if in_subtree(2 * j, s) {
                2 * j
            } else {
                2 * j + 1
            };
            let x = t1[s];
            assert(t2[s] == x);
            lemma_chain_factor::<X, U, M, A>(l2, x, s, c1);
            lemma_chain_factor::<X, U, M, A>(l1, x, s, c1);
            assert forall|b: int|
                in_subtree(c1, b) && #[trigger] is_strict_ancestor(b, s) implies l1[b] == l2[b] by {
                lemma_anc_double(b, s);
                if in_subtree(c1, b) && b == j {
                    if b != c1 {
                        lemma_anc_double(c1, b);
                    }
                }
            }
            lemma_dn_cong::<X, U, M, A>(l2, l1, x, s, c1);
            let y = dn_chain::<X, U, M, A>(l1, x, s, c1);
            assert(c1 / 2 == j);
            assert(up_chain::<X, U, M, A>(l2, y, c1) == up_chain::<X, U, M, A>(
                l2,
                A::map(y, l2[j]),
                j,
            ));
            assert(up_chain::<X, U, M, A>(l1, y, c1) == up_chain::<X, U, M, A>(
                l1,
                A::map(y, l1[j]),
                j,
            ));
            A::map_comp(y, l1[j], f);
            lemma_chain_off::<X, U, M, A>(l1, A::map(y, l1[j]), j, size);
            assert forall|a: int|
                1 <= a < size && #[trigger] is_strict_ancestor(a, j) implies l2[a] == A::off() by {
                lemma_anc_double(a, j);
            }
            lemma_chain_off::<X, U, M, A>(l2, A::map(A::map(y, l1[j]), f), j, size);
        }
    }
}

/// A consistent covering node whose ancestors hold no tags stores the
/// fold of its leaves' logical values.
proof fn lemma_cover_read<X, U, M: Monoid<X>, A: Action<X, U, M>>(
    tree: Seq<X>,
    lazy: Seq<U>,
    size: int,
    j: int,
    nl: int,
    nr: int,
)
    requires
        covers_range(size, j, nl, nr),
        tree.len() == 2 * size,
        lazy.len() == size,
        forall|k: int|
            1 <= k < size && !is_strict_ancestor(k, j) ==> #[trigger] tree[k] == agg::<X, U, M, A>(
                tree,
                lazy,
                size,
                k,
            ),
        forall|a: int|
            1 <= a < size && #[trigger] is_strict_ancestor(a, j) ==> lazy[a] == A::off(),
    ensures
        tree[j] == mfold::<X, M>(
            Seq::new(size as nat, |i: int| up_chain::<X, U, M, A>(lazy, tree[size + i], size + i))
                .subrange(nl, nr),
        ),
{
    lemma_covers_leaves(size, j, nl, nr);
    lemma_agg_fold::<X, U, M, A>(tree, lazy, size, j, nl, nr);
    let whole = Seq::new(
        size as nat,
        |i: int| up_chain::<X, U, M, A>(lazy, tree[size + i], size + i),
    );
    let body = dn_row::<X, U, M, A>(tree, lazy, size, j, nl, nr);
    assert(whole.subrange(nl, nr) =~= body) by {
        assert forall|u: int| 0 <= u < nr - nl implies whole.subrange(nl, nr)[u] == body[u] by {
            let i0 = nl + u;
            let s0 = size + nl + u;
            assert(in_subtree(j, size + i0));
            assert(in_subtree(j, s0));
            lemma_chain_factor::<X, U, M, A>(lazy, tree[s0], s0, j);
            lemma_chain_off::<X, U, M, A>(
                lazy,
                dn_chain::<X, U, M, A>(lazy, tree[s0], s0, j),
                j,
                size,
            );
        }
    }
    assert(tree[j] == agg::<X, U, M, A>(tree, lazy, size, j)) by {
        if j < size {
            assert(!is_strict_ancestor(j, j));
        }
    }
}

/// Sibling node numbers share their proper ancestors.
proof fn lemma_anc_sibling_same(j: int, k: int)
    requires
        j >= 1,
    ensures
        is_strict_ancestor(k, 2 * j) <==> (k == j || is_strict_ancestor(k, j)),
        is_strict_ancestor(k, 2 * j + 1) <==> (k == j || is_strict_ancestor(k, j)),
{
    if is_strict_ancestor(k, j) {
        lemma_anc_double(k, j);
    }
}

/// After a push, the node's first child meets the descent's
/// precondition: its exception set is consistent and its ancestors
/// hold no tags.
proof fn lemma_descend_ready<X: Copy, U: Copy, M: Monoid<X>, A: Action<X, U, M>>(
    s0: LazySeg<X, U, M, A>,
    s1: LazySeg<X, U, M, A>,
    j: int,
)
    requires
        s0.inv(),
        s1.inv(),
        1 <= j < s0.spec_size(),
        s1.spec_size() == s0.spec_size(),
        s0.wf_except(j),
        s0.anc_off(j),
        s1.lazy@[j] == A::off(),
        forall|k: int|
            0 <= k < 2 * s0.spec_size() && k != 2 * j && k != 2 * j + 1 ==> s1.tree@[k]
                == s0.tree@[k],
        forall|k: int|
            0 <= k < s0.spec_size() && k != j && k != 2 * j && k != 2 * j + 1 ==> s1.lazy@[k]
                == s0.lazy@[k],
        forall|k: int|
            1 <= k < s0.spec_size() && !is_strict_ancestor(k, j) && s0.tree@[k]
                == agg::<X, U, M, A>(s0.tree@, s0.lazy@, s0.spec_size() as int, k)
                ==> s1.tree@[k] == #[trigger] agg::<X, U, M, A>(
                s1.tree@,
                s1.lazy@,
                s0.spec_size() as int,
                k,
            ),
    ensures
        s1.wf_except(2 * j),
        s1.anc_off(2 * j),
        s1.wf_except(2 * j + 1),
        s1.anc_off(2 * j + 1),
{
    assert forall|k: int|
        1 <= k < s1.spec_size() && !is_strict_ancestor(k, 2 * j) implies #[trigger] s1.tree@[k]
        == agg::<X, U, M, A>(s1.tree@, s1.lazy@, s1.spec_size() as int, k) by {
        lemma_anc_sibling_same(j, k);
        assert(!is_strict_ancestor(k, j));
    }
    assert forall|k: int|
        1 <= k < s1.spec_size() && !is_strict_ancestor(k, 2 * j + 1) implies #[trigger] s1.tree@[k]
        == agg::<X, U, M, A>(s1.tree@, s1.lazy@, s1.spec_size() as int, k) by {
        lemma_anc_sibling_same(j, k);
        assert(!is_strict_ancestor(k, j));
    }
    assert forall|a: int|
        1 <= a < s1.spec_size() && is_strict_ancestor(a, 2 * j) implies #[trigger] s1.lazy@[a]
        == A::off() by {
        lemma_anc_sibling_same(j, a);
        if a != j {
            lemma_anc_double(a, j);
        }
    }
    assert forall|a: int|
        1 <= a < s1.spec_size() && is_strict_ancestor(a, 2 * j + 1) implies #[trigger] s1.lazy@[a]
        == A::off() by {
        lemma_anc_sibling_same(j, a);
        if a != j {
            lemma_anc_double(a, j);
        }
    }
}

/// After the first child's descent, the second child still meets the
/// precondition: the descent touched only the first child's subtree.
proof fn lemma_sibling_ready<X: Copy, U: Copy, M: Monoid<X>, A: Action<X, U, M>>(
    s1: LazySeg<X, U, M, A>,
    s2: LazySeg<X, U, M, A>,
    j: int,
)
    requires
        s1.inv(),
        s2.inv(),
        1 <= j < s1.spec_size(),
        s2.spec_size() == s1.spec_size(),
        s2.wf_except(2 * j),
        s1.anc_off(2 * j),
        forall|k: int|
            0 <= k < 2 * s1.spec_size() && !in_subtree(2 * j, k) ==> s2.tree@[k] == s1.tree@[k]
                && (k < s1.spec_size() ==> s2.lazy@[k] == s1.lazy@[k]),
    ensures
        s2.wf_except(2 * j + 1),
        s2.anc_off(2 * j + 1),
{
    assert forall|k: int|
        1 <= k < s2.spec_size() && !is_strict_ancestor(k, 2 * j + 1) implies #[trigger] s2.tree@[k]
        == agg::<X, U, M, A>(s2.tree@, s2.lazy@, s2.spec_size() as int, k) by {
        lemma_anc_sibling_same(j, k);
    }
    assert forall|a: int|
        1 <= a < s2.spec_size() && is_strict_ancestor(a, 2 * j + 1) implies #[trigger] s2.lazy@[a]
        == A::off() by {
        lemma_anc_sibling_same(j, a);
        assert(is_strict_ancestor(a, 2 * j));
        assert(!in_subtree(2 * j, a)) by {
            if in_subtree(2 * j, a) {
                lemma_anc_double(a, 2 * j);
                if a != 2 * j {
                    lemma_anc_double(2 * j, a);
                }
            }
        }
    }
}

/// Recombining a node from its two repaired children restores its
/// exception set.
proof fn lemma_repair<X: Copy, U: Copy, M: Monoid<X>, A: Action<X, U, M>>(
    s3: LazySeg<X, U, M, A>,
    sf: LazySeg<X, U, M, A>,
    j: int,
)
    requires
        s3.inv(),
        sf.inv(),
        1 <= j < s3.spec_size(),
        sf.spec_size() == s3.spec_size(),
        s3.wf_except(2 * j + 1),
        s3.lazy@[j] == A::off(),
        sf.lazy@ == s3.lazy@,
        sf.tree@ == s3.tree@.update(j, M::op(s3.tree@[2 * j], s3.tree@[2 * j + 1])),
    ensures
        sf.wf_except(j),
        sf@ == s3@,
{
    let sz = s3.spec_size() as int;
    assert forall|k: int|
        1 <= k < sz && !is_strict_ancestor(k, j) implies #[trigger] sf.tree@[k]
        == agg::<X, U, M, A>(sf.tree@, sf.lazy@, sz, k) by {
        lemma_anc_sibling_same(j, k);
        if k == j {
            // both children are consistent, and this node's tag is off
            assert(s3.tree@[2 * j] == agg::<X, U, M, A>(s3.tree@, s3.lazy@, sz, 2 * j)) by {
                if 2 * j < sz {
                    assert(!is_strict_ancestor(2 * j as int, 2 * j + 1)) by {
                        lemma_anc_sibling_same(j, 2 * j);
                        if is_strict_ancestor(2 * j as int, j) {
                            lemma_anc_double(2 * j, j);
                        }
                    }
                }
            }
            assert(s3.tree@[2 * j + 1] == agg::<X, U, M, A>(s3.tree@, s3.lazy@, sz, 2 * j + 1))
                by {
                if 2 * j + 1 < sz {
                    assert(!is_strict_ancestor(2 * j + 1 as int, 2 * j + 1));
                }
            }
            assert forall|idx: int|
                1 <= idx < 2 * sz && #[trigger] in_subtree(2 * j, idx) implies sf.tree@[idx]
                == s3.tree@[idx] && (idx < sz ==> sf.lazy@[idx] == s3.lazy@[idx]) by {
                if idx == j {
                    lemma_anc_double(2 * j, j);
                }
            }
            assert forall|idx: int|
                1 <= idx < 2 * sz && #[trigger] in_subtree(2 * j + 1, idx) implies sf.tree@[idx]
                == s3.tree@[idx] && (idx < sz ==> sf.lazy@[idx] == s3.lazy@[idx]) by {
                if idx == j {
                    lemma_anc_double(2 * j + 1, j);
                }
            }
            lemma_agg_frame::<X, U, M, A>(s3.tree@, s3.lazy@, sf.tree@, sf.lazy@, sz, 2 * j);
            lemma_agg_frame::<X, U, M, A>(s3.tree@, s3.lazy@, sf.tree@, sf.lazy@, sz, 2 * j + 1);
            A::map_off(
                M::op(
                    agg::<X, U, M, A>(sf.tree@, sf.lazy@, sz, 2 * j),
                    agg::<X, U, M, A>(sf.tree@, sf.lazy@, sz, 2 * j + 1),
                ),
            );
        } else {
            assert(!is_strict_ancestor(k, 2 * j + 1));
            assert forall|idx: int|
                1 <= idx < 2 * sz && #[trigger] in_subtree(k, idx) implies sf.tree@[idx]
                == s3.tree@[idx] && (idx < sz ==> sf.lazy@[idx] == s3.lazy@[idx]) by {
                if idx == j {
                    assert(in_subtree(k, j));
                }
            }
            lemma_agg_frame::<X, U, M, A>(s3.tree@, s3.lazy@, sf.tree@, sf.lazy@, sz, k);
        }
    }
    assert(sf@ =~= s3@) by {
        assert forall|i: int| 0 <= i < sz implies sf@[i] == s3@[i] by {
            assert(sf.tree@[sz + i] == s3.tree@[sz + i]);
        }
    }
}

/// At the root every node is outside the (empty) exception set, no tag
/// hangs above, and the root covers the whole leaf row.
proof fn lemma_root_facts<X: Copy, U: Copy, M: Monoid<X>, A: Action<X, U, M>>(s: LazySeg<X, U, M, A>)
    requires
        s.inv(),
        s.built(),
    ensures
        s.wf_except(1),
        s.anc_off(1),
        covers_range(s.spec_size() as int, 1, 0, s.spec_size() as int),
{
    assert forall|k: int| 1 <= k < s.spec_size() implies !is_strict_ancestor(k, 1int) by {}
    vstd::arithmetic::mul::lemma_mul_basics(s.spec_size() as int);
    lemma_covers_aligned(s.spec_size() as int, 1, 0, s.spec_size() as int);
}

} // verus!
