//! Range-query tree over a binary-indexed layout, generic over a
//! commutative monoid.
//!
//! Each logical position holds the fold of all values combined into it;
//! `prefix` answers the fold of positions `[0, i)` in logarithmic time,
//! and `partition_point` finds the longest prefix still satisfying a
//! monotone predicate over accumulated prefixes.

use vstd::prelude::*;
use core::marker::PhantomData;
use crate::monoid::{Monoid, CommMonoid, mfold, lemma_mfold_concat, lemma_mfold_update};
use crate::bits::{lowbit, lowbit_exec, node_lo, covers, is_child};
use crate::bits::{
    lemma_lowbit_range, lemma_query_step, lemma_update_step, lemma_chain_gap,
    lemma_aligned_lowbit, lemma_pow2_mask_double, lemma_pow2_mask_half,
    lemma_child_sum_even, lemma_odd_lowbit, lemma_children_order, lemma_prev_child,
};

verus! {

/// A fold of identity elements is the identity.
pub proof fn lemma_mfold_all_id<X, M: Monoid<X>>(s: Seq<X>)
    requires
        forall|k: int| 0 <= k < s.len() ==> s[k] == M::id(),
    ensures
        mfold::<X, M>(s) == M::id(),
    decreases s.len(),
{
    if s.len() == 0 {
    } else {
        lemma_mfold_all_id::<X, M>(s.drop_last());
        M::id_right(M::id());
    }
}

/// A boolean test over elements, carried both as a spec function and
/// as an executable function, as the monoid operations are.
pub trait Predicate<X> {
    /// What the predicate holds of, as a mathematical statement.
    spec fn holds(&self, x: X) -> bool;

    /// Executable test.
    fn test(&self, x: X) -> (r: bool)
        ensures
            r == self.holds(x),
    ;
}

/// "The accumulated value is strictly below `bound`": the predicate the
/// binary-indexed search is typically used with, over non-negative data.
pub struct LessThanI32 {
    /// Exclusive upper bound.
    pub bound: i32,
}

impl Predicate<i32> for LessThanI32 {
    open spec fn holds(&self, x: i32) -> bool {
        x < self.bound
    }

    fn test(&self, x: i32) -> (r: bool) {
        x < self.bound
    }
}

/// A fold over `[0, m)` that fails the (monotone) predicate keeps
/// failing as the prefix grows.
proof fn lemma_monotone_up<X, M: Monoid<X>, P: Predicate<X>>(pred: &P, s: Seq<X>, b: int, m: int)
    requires
        forall|j: int|
            1 <= j <= s.len() ==> (#[trigger] pred.holds(mfold::<X, M>(s.subrange(0, j)))
                ==> pred.holds(mfold::<X, M>(s.subrange(0, j - 1)))),
        0 <= b <= m <= s.len(),
        !pred.holds(mfold::<X, M>(s.subrange(0, b))),
    ensures
        !pred.holds(mfold::<X, M>(s.subrange(0, m))),
    decreases m - b,
{
    if m > b {
        lemma_monotone_up::<X, M, P>(pred, s, b, m - 1);
        assert(!pred.holds(mfold::<X, M>(s.subrange(0, m)))) by {
            if pred.holds(mfold::<X, M>(s.subrange(0, m))) {
                assert(pred.holds(mfold::<X, M>(s.subrange(0, m - 1))));
            }
        }
    }
}

/// Multiples of `2 * len` are multiples of `len`.
proof fn lemma_align_half(i: int, len: int)
    requires
        len >= 1,
        i >= 0,
        i % (2 * len) == 0,
    ensures
        i % len == 0,
{
    let q = i / (2 * len);
    vstd::arithmetic::div_mod::lemma_fundamental_div_mod(i, 2 * len);
    vstd::arithmetic::mul::lemma_mul_is_associative(2, len, q);
    vstd::arithmetic::mul::lemma_mul_is_associative(len, 2, q);
    assert(i == len * (2 * q));
    vstd::arithmetic::div_mod::lemma_mod_multiples_basic(2 * q, len);
    vstd::arithmetic::mul::lemma_mul_is_commutative(len, 2 * q);
}

/// Adding `len` to a multiple of `len` keeps it a multiple.
proof fn lemma_align_step(i: int, len: int)
    requires
        len >= 1,
        i >= 0,
        i % len == 0,
    ensures
        (i + len) % len == 0,
{
    vstd::arithmetic::div_mod::lemma_mod_add_multiples_vanish(i, len);
}

/// During the bulk build, the end of the contiguous block of node `k`'s
/// interval already folded into its slot after steps `1 ..= m`: the
/// largest child of `k` processed so far, or the interval's start.
spec fn cover_end(k: int, m: int) -> int
    decreases m,
{
    if m <= 0 {
        node_lo(k as usize)
    } else if is_child(m as usize, k) {
        m
    } else {
        cover_end(k, m - 1)
    }
}

/// Steps that process no child of `k` leave its coverage unchanged.
proof fn lemma_cover_end_skip(k: int, m: int, t: int)
    requires
        t <= m,
        forall|c: int| t < c <= m ==> !#[trigger] is_child(c as usize, k),
    ensures
        cover_end(k, m) == cover_end(k, t),
    decreases m - t,
{
    if m > t {
        if m > 0 {
            assert(!is_child(m as usize, k));
        }
        lemma_cover_end_skip(k, m - 1, t);
    }
}

/// Just before node `i` is processed, its own interval is fully
/// covered: every child of `i` has already been folded in.
proof fn lemma_cover_end_own(i: usize)
    requires
        1 <= i,
        2 * i == (2 * i) as usize,
    ensures
        cover_end(i as int, i - 1) == i - 1,
{
    lemma_lowbit_range(i);
    if i % 2 == 0 {
        lemma_odd_lowbit((i - 1) as usize);
        assert(is_child((i - 1) as usize, i as int));
    } else {
        lemma_odd_lowbit(i);
        assert(node_lo(i) == i - 1);
        assert forall|c: int| 0 < c <= i - 1 implies !#[trigger] is_child(c as usize, i as int) by {
            if is_child(c as usize, i as int) {
                lemma_child_sum_even(c as usize);
            }
        }
        lemma_cover_end_skip(i as int, i - 1, 0);
    }
}

/// Just before child `i` of node `j` is processed, `j`'s covered block
/// ends exactly where `i`'s interval starts.
proof fn lemma_cover_end_prev(i: usize, j: usize)
    requires
        1 <= i,
        2 * i == (2 * i) as usize,
        is_child(i, j as int),
    ensures
        cover_end(j as int, i - 1) == node_lo(i),
{
    lemma_lowbit_range(i);
    lemma_lowbit_range(j);
    lemma_update_step(i);
    assert forall|c: int| node_lo(i) < c <= i - 1 implies !#[trigger] is_child(c as usize, j as int) by {
        if is_child(c as usize, j as int) {
            lemma_children_order(c as usize, i, j);
        }
    }
    lemma_cover_end_skip(j as int, i - 1, node_lo(i));
    if node_lo(i) > node_lo(j) {
        lemma_prev_child(i, j);
        assert(is_child((i - lowbit(i)) as usize, j as int));
        assert(cover_end(j as int, node_lo(i)) == node_lo(i));
    } else {
        assert(node_lo(j) <= node_lo(i));
        assert(node_lo(i) == node_lo(j));
        assert forall|c: int| 0 < c <= node_lo(i) implies !#[trigger] is_child(c as usize, j as int) by {
            if is_child(c as usize, j as int) {
                let cu = c as usize;
                lemma_update_step(cu);
                assert(c - lowbit(cu) >= node_lo(j));
            }
        }
        lemma_cover_end_skip(j as int, node_lo(i), 0);
    }
}

/// After every step has run, each node's interval is fully covered.
proof fn lemma_cover_end_done(k: usize, m: int)
    requires
        1 <= k,
        2 * k == (2 * k) as usize,
        m >= k - 1,
        m <= usize::MAX,
    ensures
        cover_end(k as int, m) == k - 1,
{
    assert forall|c: int| k - 1 < c <= m implies !#[trigger] is_child(c as usize, k as int) by {
        let cu = c as usize;
        assert(cu == c);
        lemma_lowbit_range(cu);
    }
    lemma_cover_end_skip(k as int, m, k - 1);
    lemma_cover_end_own(k);
}

/// Range-query tree over a binary-indexed layout: one backing slot per
/// element, node `t + 1` (1-based) holding the fold of the elements
/// `[t + 1 - lowbit(t + 1), t + 1)`.
pub struct BinaryIndexedTree<X, M: CommMonoid<X>> {
    size: usize,
    data: Vec<X>,
    elems: Ghost<Seq<X>>,
    _m: PhantomData<M>,
}

impl<X: Copy, M: CommMonoid<X>> BinaryIndexedTree<X, M> {
    /// The logical contents: position `i` holds the fold of every value
    /// combined into it so far (identity if none).
    pub closed spec fn view(&self) -> Seq<X> {
        self.elems@
    }

    /// Number of elements.
    pub closed spec fn spec_size(&self) -> nat {
        self.size as nat
    }

    /// Well-formed: each backing slot holds its interval's fold.
    pub closed spec fn inv(&self) -> bool {
        &&& self.data@.len() == self.size as int
        &&& self.elems@.len() == self.size as int
        &&& self.size <= usize::MAX / 2
        &&& forall|t: int|
            0 <= t < self.size as int ==> #[trigger] self.data@[t] == mfold::<X, M>(
                self.elems@.subrange(node_lo((t + 1) as usize), t + 1),
            )
    }

    /// Fresh tree of `size` positions, all holding the identity.
    pub fn new(size: usize) -> (r: Self)
        requires
            size <= usize::MAX / 2,
        ensures
            r.inv(),
            r.spec_size() == size,
            r@ == Seq::new(size as nat, |k: int| M::id()),
    {
        let e = M::identity();
        let mut data: Vec<X> = Vec::new();
        let mut i: usize = 0;
        while i < size
            invariant
                e == M::id(),
                data@.len() == i,
                i <= size,
                forall|k: int| 0 <= k < i ==> data@[k] == M::id(),
            decreases size - i,
        {
            data.push(e);
            i = i + 1;
        }
        let r = BinaryIndexedTree {
            size,
            data,
            elems: Ghost(Seq::new(size as nat, |k: int| M::id())),
            _m: PhantomData,
        };
        proof {
            assert forall|t: int| 0 <= t < r.size as int implies #[trigger] r.data@[t]
                == mfold::<X, M>(r.elems@.subrange(node_lo((t + 1) as usize), t + 1)) by {
                lemma_lowbit_range((t + 1) as usize);
                lemma_mfold_all_id::<X, M>(r.elems@.subrange(node_lo((t + 1) as usize), t + 1));
            }
        }
        r
    }

    /// Number of elements.
    pub fn len(&self) -> (r: usize)
        ensures
            r == self.spec_size(),
    {
        self.size
    }

    /// The contents hold one value per element.
    pub proof fn lemma_view_len(&self)
        requires
            self.inv(),
        ensures
            self@.len() == self.spec_size(),
    {
    }

    /// Bulk-builds the tree from an initial sequence in linear time by
    /// combining each slot into the next slot on its update chain;
    /// equivalent in effect to `size` sequential updates on a fresh tree.
    pub fn from(init: Vec<X>) -> (r: Self)
        requires
            init@.len() <= usize::MAX / 2,
        ensures
            r.inv(),
            r.spec_size() == init@.len(),
            r@ == init@,
    {
        let ghost elems = init@;
        let size = init.len();
        let mut data = init;
        proof {
            assert forall|t: int| 0 <= t < size as int implies #[trigger] data@[t] == M::op(
                mfold::<X, M>(elems.subrange(node_lo((t + 1) as usize), cover_end(t + 1, 0))),
                elems[t],
            ) by {
                lemma_lowbit_range((t + 1) as usize);
                assert(elems.subrange(node_lo((t + 1) as usize), cover_end(t + 1, 0))
                    =~= Seq::<X>::empty());
                M::id_left(elems[t]);
            }
        }
        let mut i: usize = 1;
        while i <= size
            invariant
                data@.len() == size as int,
                elems.len() == size as int,
                size <= usize::MAX / 2,
                1 <= i <= size + 1,
                forall|t: int|
                    0 <= t < size as int ==> #[trigger] data@[t] == M::op(
                        mfold::<X, M>(
                            elems.subrange(node_lo((t + 1) as usize), cover_end(t + 1, i - 1)),
                        ),
                        elems[t],
                    ),
            decreases size + 1 - i,
        {
            let lb = lowbit_exec(i);
            proof {
                lemma_lowbit_range(i);
            }
            let j = i + lb;
            if j <= size {
                proof {
                    lemma_lowbit_range(j);
                    lemma_cover_end_own(i);
                    lemma_cover_end_prev(i, j);
                    // data[i - 1] already holds the full fold of i's interval
                    let lo_i = node_lo(i);
                    let lo_j = node_lo(j);
                    let fi = mfold::<X, M>(elems.subrange(lo_i, i as int));
                    let a = mfold::<X, M>(elems.subrange(lo_j, lo_i));
                    assert(elems.subrange(lo_i, i as int).drop_last() =~= elems.subrange(
                        lo_i,
                        i - 1,
                    ));
                    assert(data@[i - 1] == fi);
                    lemma_update_step(i);
                    assert(lo_j <= lo_i);
                    assert(elems.subrange(lo_j, i as int) =~= elems.subrange(lo_j, lo_i)
                        + elems.subrange(lo_i, i as int));
                    lemma_mfold_concat::<X, M>(
                        elems.subrange(lo_j, lo_i),
                        elems.subrange(lo_i, i as int),
                    );
                    // op(fi, op(a, e_j)) == op(op(a, fi), e_j) == op(fold, e_j)
                    M::op_assoc(fi, a, elems[j - 1]);
                    M::op_comm(fi, a);
                }
                let a = data[i - 1];
                let b = data[j - 1];
                data[j - 1] = M::combine(a, b);
                proof {
                    assert(cover_end(j as int, i as int) == i);
                    assert forall|t: int| 0 <= t < size as int implies #[trigger] data@[t]
                        == M::op(
                        mfold::<X, M>(
                            elems.subrange(node_lo((t + 1) as usize), cover_end(t + 1, i as int)),
                        ),
                        elems[t],
                    ) by {
                        if t + 1 != j {
                            assert(!is_child(i, t + 1));
                            assert(cover_end(t + 1, i as int) == cover_end(t + 1, i - 1));
                        }
                    }
                }
            } else {
                proof {
                    assert forall|t: int| 0 <= t < size as int implies #[trigger] data@[t]
                        == M::op(
                        mfold::<X, M>(
                            elems.subrange(node_lo((t + 1) as usize), cover_end(t + 1, i as int)),
                        ),
                        elems[t],
                    ) by {
                        assert(!is_child(i, t + 1));
                        assert(cover_end(t + 1, i as int) == cover_end(t + 1, i - 1));
                    }
                }
            }
            i = i + 1;
        }
        let r = BinaryIndexedTree { size, data, elems: Ghost(elems), _m: PhantomData };
        proof {
            assert forall|t: int| 0 <= t < r.size as int implies #[trigger] r.data@[t]
                == mfold::<X, M>(r.elems@.subrange(node_lo((t + 1) as usize), t + 1)) by {
                lemma_cover_end_done((t + 1) as usize, size as int);
                lemma_lowbit_range((t + 1) as usize);
                assert(r.data@[t] == M::op(
                    mfold::<X, M>(elems.subrange(node_lo((t + 1) as usize), t)),
                    elems[t],
                ));
                assert(elems.subrange(node_lo((t + 1) as usize), t + 1).drop_last()
                    =~= elems.subrange(node_lo((t + 1) as usize), t));
            }
        }
        r
    }

    /// Combines `v` into position `i` (new value on the left).
    pub fn update(&mut self, i: usize, v: X)
        requires
            old(self).inv(),
            i < old(self).spec_size(),
        ensures
            final(self).inv(),
            final(self).spec_size() == old(self).spec_size(),
            final(self)@ == old(self)@.update(i as int, M::op(v, old(self)@[i as int])),
    {
        let ghost olds = self.elems@;
        let ghost news = olds.update(i as int, M::op(v, olds[i as int]));
        proof {
            self.elems@ = news;
        }
        let mut j: usize = i + 1;
        proof {
            lemma_lowbit_range(j);
            assert forall|t: int|
                0 <= t < self.size as int && !covers((t + 1) as usize, i as int)
                    implies #[trigger] self.data@[t] == mfold::<X, M>(
                news.subrange(node_lo((t + 1) as usize), t + 1),
            ) by {
                lemma_lowbit_range((t + 1) as usize);
                assert(news.subrange(node_lo((t + 1) as usize), t + 1) =~= olds.subrange(
                    node_lo((t + 1) as usize),
                    t + 1,
                ));
            }
        }
        while j <= self.size
            invariant
                self.size == old(self).size,
                self.data@.len() == self.size as int,
                self.size <= usize::MAX / 2,
                self.elems@ == news,
                news == olds.update(i as int, M::op(v, olds[i as int])),
                olds.len() == self.size as int,
                i < self.size,
                1 <= j,
                covers(j, i as int),
                forall|t: int|
                    0 <= t < self.size as int && (!covers((t + 1) as usize, i as int) || t + 1
                        < j) ==> #[trigger] self.data@[t] == mfold::<X, M>(
                        news.subrange(node_lo((t + 1) as usize), t + 1),
                    ),
                forall|t: int|
                    0 <= t < self.size as int && covers((t + 1) as usize, i as int) && t + 1 >= j
                        ==> #[trigger] self.data@[t] == mfold::<X, M>(
                        olds.subrange(node_lo((t + 1) as usize), t + 1),
                    ),
            decreases 2 * self.size - j,
        {
            let lb = lowbit_exec(j);
            proof {
                lemma_lowbit_range(j);
                let lo = node_lo(j);
                let sub_old = olds.subrange(lo, j as int);
                assert(sub_old[i - lo] == olds[i as int]);
                lemma_mfold_update::<X, M>(sub_old, i - lo, v);
                assert(news.subrange(lo, j as int) =~= sub_old.update(
                    i - lo,
                    M::op(v, sub_old[i - lo]),
                ));
            }
            let w = self.data[j - 1];
            self.data[j - 1] = M::combine(v, w);
            proof {
                lemma_update_step(j);
                assert forall|t: int|
                    0 <= t < self.size as int && (!covers((t + 1) as usize, i as int) || t + 1 < j
                        + lb) implies #[trigger] self.data@[t] == mfold::<X, M>(
                    news.subrange(node_lo((t + 1) as usize), t + 1),
                ) by {
                    if covers((t + 1) as usize, i as int) && t + 1 >= j && t + 1 < j + lb {
                        if t + 1 > j {
                            lemma_chain_gap(j, (t + 1) as usize);
                        }
                    }
                }
            }
            j = j + lb;
        }
    }

    /// Fold of the values at positions `[0, i)`.
    pub fn prefix(&self, i: usize) -> (r: X)
        requires
            self.inv(),
            i <= self.spec_size(),
        ensures
            r == mfold::<X, M>(self@.subrange(0, i as int)),
    {
        let ghost i0 = i as int;
        let mut j = i;
        let mut ret = M::identity();
        proof {
            assert(self.elems@.subrange(i0, i0) =~= Seq::<X>::empty());
        }
        while j != 0
            invariant
                self.inv(),
                j <= i,
                i <= self.spec_size(),
                ret == mfold::<X, M>(self.elems@.subrange(j as int, i0)),
                i0 == i as int,
            decreases j,
        {
            proof {
                lemma_lowbit_range(j);
                lemma_query_step(j);
                let lo = node_lo(j);
                let a = self.elems@.subrange(lo, j as int);
                let b = self.elems@.subrange(j as int, i0);
                assert(self.elems@.subrange(lo, i0) =~= a + b);
                lemma_mfold_concat::<X, M>(a, b);
                M::op_comm(mfold::<X, M>(a), mfold::<X, M>(b));
            }
            let w = self.data[j - 1];
            ret = M::combine(ret, w);
            j = j & (j - 1);
        }
        ret
    }

    /// Resets every position to the identity.
    pub fn clear(&mut self)
        requires
            old(self).inv(),
        ensures
            final(self).inv(),
            final(self).spec_size() == old(self).spec_size(),
            final(self)@ == Seq::new(old(self).spec_size(), |k: int| M::id()),
    {
        let e = M::identity();
        let n = self.size;
        let mut i: usize = 0;
        while i < n
            invariant
                e == M::id(),
                self.size == old(self).size,
                n == self.size,
                self.data@.len() == self.size as int,
                i <= n,
                forall|k: int| 0 <= k < i ==> self.data@[k] == M::id(),
            decreases n - i,
        {
            self.data[i] = e;
            i = i + 1;
        }
        proof {
            self.elems@ = Seq::new(old(self).spec_size(), |k: int| M::id());
            assert forall|t: int| 0 <= t < self.size as int implies #[trigger] self.data@[t]
                == mfold::<X, M>(self.elems@.subrange(node_lo((t + 1) as usize), t + 1)) by {
                lemma_lowbit_range((t + 1) as usize);
                lemma_mfold_all_id::<X, M>(
                    self.elems@.subrange(node_lo((t + 1) as usize), t + 1),
                );
            }
        }
    }

    /// Longest prefix whose accumulated fold still satisfies `pred`,
    /// together with that fold.
    ///
    /// `pred` must be monotone over growing prefixes: once it fails for
    /// some prefix it fails for every longer one (for example "running
    /// sum below a threshold" over non-negative values). The result `(i,
    /// acc)` satisfies `acc == mfold(contents[0, i))`; either `i` is the
    /// size or the predicate fails for the prefix one longer.
    #[verifier::rlimit(100)]
    #[verifier::spinoff_prover]
    pub fn partition_point<P: Predicate<X>>(&self, pred: &P) -> (r: (usize, X))
        requires
            self.inv(),
            self.spec_size() >= 1,
            forall|j: int|
                1 <= j <= self.spec_size() ==> (#[trigger] pred.holds(
                    mfold::<X, M>(self@.subrange(0, j)),
                ) ==> pred.holds(mfold::<X, M>(self@.subrange(0, j - 1)))),
        ensures
            r.0 <= self.spec_size(),
            r.1 == mfold::<X, M>(self@.subrange(0, r.0 as int)),
            r.0 == self.spec_size() || !pred.holds(
                mfold::<X, M>(self@.subrange(0, r.0 + 1 as int)),
            ),
            r.0 == 0 || pred.holds(r.1),
    {
        let size = self.size;
        let mut len: usize = 1;
        proof {
            assert(1usize & ((1usize - 1) as usize) == 0) by (bit_vector);
        }
        while 2 * len <= size
            invariant
                1 <= len <= size,
                size == self.size,
                self.size <= usize::MAX / 2,
                len & ((len - 1) as usize) == 0,
            decreases size - len,
        {
            proof {
                lemma_pow2_mask_double(len);
            }
            len = 2 * len;
        }
        let mut i: usize = 0;
        let mut acc = M::identity();
        let ghost mut bound: int = size + 1;
        proof {
            assert(self.elems@.subrange(0, 0) =~= Seq::<X>::empty());
        }
        while len != 0
            invariant
                self.inv(),
                size == self.size,
                self.spec_size() >= 1,
                forall|j: int|
                    1 <= j <= self.spec_size() ==> (#[trigger] pred.holds(
                        mfold::<X, M>(self@.subrange(0, j)),
                    ) ==> pred.holds(mfold::<X, M>(self@.subrange(0, j - 1)))),
                i <= size,
                len <= size,
                acc == mfold::<X, M>(self@.subrange(0, i as int)),
                i == 0 || pred.holds(acc),
                len == 0 || len & ((len - 1) as usize) == 0,
                len == 0 || (i as int) % (2 * len as int) == 0,
                i < bound,
                bound <= size + 1,
                bound == size + 1 || !pred.holds(mfold::<X, M>(self@.subrange(0, bound))),
                bound <= i + (if len >= 1 { 2 * (len as int) } else { 1int }),
            decreases len,
        {
            if i + len <= size {
                proof {
                    lemma_aligned_lowbit(i, len);
                    let a = self.elems@.subrange(0, i as int);
                    let b = self.elems@.subrange(i as int, (i + len) as int);
                    assert(self.elems@.subrange(0, (i + len) as int) =~= a + b);
                    lemma_mfold_concat::<X, M>(a, b);
                }
                let candidate = M::combine(acc, self.data[i + len - 1]);
                if pred.test(candidate) {
                    proof {
                        if bound <= i + len {
                            lemma_monotone_up::<X, M, P>(
                                pred,
                                self.elems@,
                                bound,
                                (i + len) as int,
                            );
                        }
                        lemma_align_half(i as int, len as int);
                        lemma_align_step(i as int, len as int);
                    }
                    i = i + len;
                    acc = candidate;
                } else {
                    proof {
                        bound = (i + len) as int;
                    }
                }
            }
            proof {
                if (i as int) % (2 * len as int) == 0 {
                    lemma_align_half(i as int, len as int);
                }
                if len >= 2 {
                    lemma_pow2_mask_half(len);
                }
            }
            len = len / 2;
        }
        (i, acc)
    }
}

} // verus!
