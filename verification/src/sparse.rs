//! Sparse table: static range queries over an idempotent commutative
//! monoid (minimum, maximum, and the like) in constant time per query.
//!
//! Level `k` holds, for every start index, the fold over the window of
//! length `2^k` beginning there. A query combines the two windows of
//! the largest power-of-two length that fits, which may overlap; the
//! idempotence of the combiner makes the overlap harmless.

use vstd::prelude::*;
use core::marker::PhantomData;
use vstd::arithmetic::power2::pow2;
use crate::monoid::{Monoid, IdemMonoid, mfold, lemma_mfold_concat, lemma_mfold_overlap};

verus! {

/// Sparse table over the elements it was built from; no mutation
/// after construction.
pub struct SparseTable<X, M: IdemMonoid<X>> {
    size: usize,
    levels: Vec<Vec<X>>,
    _m: PhantomData<M>,
}

impl<X: Copy, M: IdemMonoid<X>> SparseTable<X, M> {
    /// The elements the table was built from.
    pub closed spec fn view(&self) -> Seq<X> {
        self.levels@[0]@
    }

    /// Number of elements.
    pub closed spec fn spec_size(&self) -> nat {
        self.size as nat
    }

    /// Well-formed: level `k` holds the folds of all windows of length
    /// `2^k`, and the levels reach every window length up to the size.
    pub closed spec fn inv(&self) -> bool {
        &&& self.levels@.len() >= 1
        &&& self.levels@[0]@.len() == self.size as int
        &&& self.size <= usize::MAX / 2
        &&& forall|k: int|
            0 <= k < self.levels@.len() ==> #[trigger] self.levels@[k]@.len() == self.size + 1
                - pow2(k as nat)
        &&& (self.size == 0 || pow2((self.levels@.len() - 1) as nat) <= self.size as nat)
        &&& (self.size == 0 || pow2(self.levels@.len() as nat) > self.size as nat)
        &&& forall|k: int, s: int|
            0 <= k < self.levels@.len() && 0 <= s < self.levels@[k]@.len()
                ==> #[trigger] self.levels@[k]@[s] == mfold::<X, M>(
                self.levels@[0]@.subrange(s, s + pow2(k as nat)),
            )
    }

    /// Builds the table from the given elements.
    pub fn new(data: Vec<X>) -> (r: Self)
        requires
            data@.len() <= usize::MAX / 2,
        ensures
            r.inv(),
            r@ == data@,
            r.spec_size() == data@.len(),
    {
        let ghost elems = data@;
        let size = data.len();
        let mut levels: Vec<Vec<X>> = Vec::new();
        proof {
            vstd::arithmetic::power2::lemma2_to64();
            assert forall|s: int| 0 <= s < elems.len() implies elems[s] == mfold::<X, M>(
                elems.subrange(s, s + 1),
            ) by {
                let t = elems.subrange(s, s + 1);
                assert(t.drop_last() =~= Seq::<X>::empty());
                assert(mfold::<X, M>(Seq::<X>::empty()) == M::id());
                assert(t.last() == elems[s]);
                M::id_left(elems[s]);
            }
        }
        levels.push(data);
        let mut w: usize = 1;
        while levels[levels.len() - 1].len() > w
            invariant
                levels@.len() >= 1,
                levels@[0]@.len() == size as int,
                levels@[0]@ == elems,
                size <= usize::MAX / 2,
                w as nat == pow2((levels@.len() - 1) as nat),
                w >= 1,
                w <= size || levels@.len() == 1,
                forall|k: int|
                    0 <= k < levels@.len() ==> #[trigger] levels@[k]@.len() == size + 1 - pow2(
                        k as nat,
                    ),
                forall|k: int, s: int|
                    0 <= k < levels@.len() && 0 <= s < levels@[k]@.len()
                        ==> #[trigger] levels@[k]@[s] == mfold::<X, M>(
                        elems.subrange(s, s + pow2(k as nat)),
                    ),
            decreases size - w,
        {
            let lvl = levels.len() - 1;
            let prev_len = levels[lvl].len();
            let count = prev_len - w;
            let mut curr: Vec<X> = Vec::new();
            let mut s: usize = 0;
            while s < count
                invariant
                    curr@.len() == s as int,
                    s <= count,
                    count == prev_len - w,
                    lvl == levels@.len() - 1,
                    levels@.len() >= 1,
                    levels@[0]@ == elems,
                    prev_len == levels@[lvl as int]@.len(),
                    prev_len == size + 1 - pow2(lvl as nat),
                    prev_len > w,
                    w as nat == pow2(lvl as nat),
                    size <= usize::MAX / 2,
                    levels@[0]@.len() == size as int,
                    forall|t: int|
                        0 <= t < levels@[lvl as int]@.len()
                            ==> #[trigger] levels@[lvl as int]@[t] == mfold::<X, M>(
                            elems.subrange(t, t + pow2(lvl as nat)),
                        ),
                    forall|t: int|
                        0 <= t < s ==> #[trigger] curr@[t] == mfold::<X, M>(
                            elems.subrange(t, t + 2 * pow2(lvl as nat)),
                        ),
                decreases count - s,
            {
                let a = levels[lvl][s];
                let b = levels[lvl][s + w];
                proof {
                    let p = pow2(lvl as nat) as int;
                    let left = elems.subrange(s as int, s + p);
                    let right = elems.subrange(s + p, s + 2 * p);
                    assert(elems.subrange(s as int, s + 2 * p) =~= left + right);
                    lemma_mfold_concat::<X, M>(left, right);
                }
                curr.push(M::combine(a, b));
                s = s + 1;
            }
            levels.push(curr);
            proof {
                vstd::arithmetic::power2::lemma_pow2_unfold((levels@.len() - 1) as nat);
            }
            w = 2 * w;
        }
        proof {
            if size > 0 {
                assert(levels@[levels@.len() - 1]@.len() >= 1);
                vstd::arithmetic::power2::lemma_pow2_unfold(levels@.len() as nat);
            }
        }
        SparseTable { size, levels, _m: PhantomData }
    }

    /// Number of elements.
    pub fn len(&self) -> (r: usize)
        ensures
            r == self.spec_size(),
    {
        self.size
    }

    /// The contents hold one value per element.
    pub proof fn lemma_view_len(&self)
        requires
            self.inv(),
        ensures
            self@.len() == self.spec_size(),
    {
    }

    /// Fold of the elements in the half-open range `[l, r)`; the empty
    /// range yields the identity.
    pub fn prod(&self, l: usize, r: usize) -> (res: X)
        requires
            self.inv(),
            l <= r,
            r <= self.spec_size(),
        ensures
            res == mfold::<X, M>(self@.subrange(l as int, r as int)),
    {
        if l == r {
            proof {
                assert(self@.subrange(l as int, r as int) =~= Seq::<X>::empty());
            }
            return M::identity();
        }
        let len = r - l;
        let mut k: usize = 0;
        let mut w: usize = 1;
        proof {
            vstd::arithmetic::power2::lemma2_to64();
        }
        while 2 * w <= len
            invariant
                w as nat == pow2(k as nat),
                k <= w,
                1 <= w <= len,
                len <= self.spec_size(),
                self.spec_size() <= usize::MAX / 2,
            decreases len - w,
        {
            proof {
                vstd::arithmetic::power2::lemma_pow2_unfold((k + 1) as nat);
            }
            w = 2 * w;
            k = k + 1;
        }
        proof {
            // the level for window length w exists
            if k >= self.levels@.len() {
                vstd::arithmetic::power2::lemma_pow2_pos((self.levels@.len()) as nat);
                vstd::arithmetic::power2::lemma_pow2_adds(
                    self.levels@.len() as nat,
                    (k - self.levels@.len()) as nat,
                );
                vstd::arithmetic::power2::lemma_pow2_pos((k - self.levels@.len()) as nat);
                vstd::arithmetic::mul::lemma_mul_increases(
                    pow2((k - self.levels@.len()) as nat) as int,
                    pow2(self.levels@.len() as nat) as int,
                );
                assert(false);
            }
        }
        let a = self.levels[k][l];
        let b = self.levels[k][r - w];
        proof {
            lemma_mfold_overlap::<X, M>(self@, l as int, r - w, l + w, r as int);
        }
        M::combine(a, b)
    }
}

} // verus!
