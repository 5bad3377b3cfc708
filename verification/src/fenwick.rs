//! Point-increment sum tree over a binary-indexed layout,
//! specialized to 64-bit integer addition.
//!
//! `add` increments one logical value, `prefix_sum` and `range_sum`
//! answer half-open interval sums in logarithmic time. The contract
//! speaks of `isum`, the mathematical sum of the logical values; the
//! well-formedness invariant demands that every interval sum fits in
//! an `i64`, which rules overflow out of every internal step.

use vstd::prelude::*;
use crate::bits::{lowbit_exec, node_lo, covers};
use crate::bits::{lemma_lowbit_range, lemma_query_step, lemma_update_step, lemma_chain_gap};

verus! {

/// Mathematical sum of a sequence of machine integers.
pub open spec fn isum(s: Seq<i64>) -> int
    decreases s.len(),
{
    if s.len() == 0 {
        0int
    } else {
        isum(s.drop_last()) + s.last()
    }
}

/// Every interval sum of `s` fits in an `i64`.
pub open spec fn range_ok(s: Seq<i64>) -> bool {
    forall|l: int, r: int|
        0 <= l <= r <= s.len() ==> i64::MIN <= #[trigger] isum(s.subrange(l, r)) <= i64::MAX
}

/// Sums of adjacent intervals add.
pub proof fn lemma_isum_concat(a: Seq<i64>, b: Seq<i64>)
    ensures
        isum(a + b) == isum(a) + isum(b),
    decreases b.len(),
{
    if b.len() == 0 {
        assert(a + b =~= a);
    } else {
        assert((a + b).drop_last() =~= a + b.drop_last());
        lemma_isum_concat(a, b.drop_last());
    }
}

/// Splitting an interval at a midpoint splits its sum.
pub proof fn lemma_isum_split(s: Seq<i64>, l: int, m: int, r: int)
    requires
        0 <= l <= m <= r <= s.len(),
    ensures
        isum(s.subrange(l, r)) == isum(s.subrange(l, m)) + isum(s.subrange(m, r)),
{
    assert(s.subrange(l, r) =~= s.subrange(l, m) + s.subrange(m, r));
    lemma_isum_concat(s.subrange(l, m), s.subrange(m, r));
}

/// The sum of a one-element interval is that element.
proof fn lemma_isum_singleton(s: Seq<i64>, i: int)
    requires
        0 <= i < s.len(),
    ensures
        isum(s.subrange(i, i + 1)) == s[i],
{
    let t = s.subrange(i, i + 1);
    assert(t.drop_last() =~= Seq::<i64>::empty());
    assert(isum(t.drop_last()) == 0);
}

/// Updating one element inside an interval shifts the interval's sum
/// by the difference.
pub proof fn lemma_isum_update_in(s: Seq<i64>, i: int, v: i64, l: int, r: int)
    requires
        0 <= l <= i < r <= s.len(),
    ensures
        isum(s.update(i, v).subrange(l, r)) == isum(s.subrange(l, r)) + v - s[i],
{
    let s2 = s.update(i, v);
    lemma_isum_split(s, l, i, r);
    lemma_isum_split(s, i, i + 1, r);
    lemma_isum_split(s2, l, i, r);
    lemma_isum_split(s2, i, i + 1, r);
    assert(s2.subrange(l, i) =~= s.subrange(l, i));
    assert(s2.subrange(i + 1, r) =~= s.subrange(i + 1, r));
    lemma_isum_singleton(s, i);
    lemma_isum_singleton(s2, i);
}

/// An interval not containing the updated position keeps its sum.
pub proof fn lemma_isum_update_out(s: Seq<i64>, i: int, v: i64, l: int, r: int)
    requires
        0 <= l <= r <= s.len(),
        0 <= i < s.len(),
        !(l <= i < r),
    ensures
        isum(s.update(i, v).subrange(l, r)) == isum(s.subrange(l, r)),
{
    assert(s.update(i, v).subrange(l, r) =~= s.subrange(l, r));
}

/// A sequence of zeros sums to zero.
proof fn lemma_isum_all_zero(s: Seq<i64>)
    requires
        forall|k: int| 0 <= k < s.len() ==> s[k] == 0,
    ensures
        isum(s) == 0,
    decreases s.len(),
{
    if s.len() > 0 {
        lemma_isum_all_zero(s.drop_last());
    }
}

/// Point-increment sum tree: one backing slot per element, node `t + 1`
/// (1-based) holding the sum of elements `[t + 1 - lowbit(t + 1), t + 1)`.
pub struct FenwickTree {
    size: usize,
    data: Vec<i64>,
    elems: Ghost<Seq<i64>>,
}

impl FenwickTree {
    /// The logical contents: the current value at each index.
    pub closed spec fn view(&self) -> Seq<i64> {
        self.elems@
    }

    /// Well-formed: backing slots hold their interval sums, and every
    /// interval sum of the contents fits in an `i64`.
    pub closed spec fn inv(&self) -> bool {
        &&& self.data@.len() == self.size as int
        &&& self.elems@.len() == self.size as int
        &&& self.size <= usize::MAX / 2
        &&& range_ok(self.elems@)
        &&& forall|t: int|
            0 <= t < self.size as int ==> #[trigger] self.data@[t] == isum(
                self.elems@.subrange(node_lo((t + 1) as usize), t + 1),
            )
    }

    /// Number of elements.
    pub closed spec fn spec_size(&self) -> nat {
        self.size as nat
    }

    /// Fresh tree of `size` zeros.
    pub fn new(size: usize) -> (r: Self)
        requires
            size <= usize::MAX / 2,
        ensures
            r.inv(),
            r.spec_size() == size,
            r@ == Seq::new(size as nat, |k: int| 0i64),
    {
        let mut data: Vec<i64> = Vec::new();
        let mut i: usize = 0;
        while i < size
            invariant
                data@.len() == i,
                i <= size,
                forall|k: int| 0 <= k < i ==> data@[k] == 0i64,
            decreases size - i,
        {
            data.push(0);
            i = i + 1;
        }
        let r = FenwickTree { size, data, elems: Ghost(Seq::new(size as nat, |k: int| 0i64)) };
        proof {
            assert forall|l: int, m: int| 0 <= l <= m <= r.elems@.len() implies i64::MIN
                <= #[trigger] isum(r.elems@.subrange(l, m)) <= i64::MAX by {
                lemma_isum_all_zero(r.elems@.subrange(l, m));
            }
            assert forall|t: int| 0 <= t < r.size as int implies #[trigger] r.data@[t] == isum(
                r.elems@.subrange(node_lo((t + 1) as usize), t + 1),
            ) by {
                lemma_lowbit_range((t + 1) as usize);
                lemma_isum_all_zero(r.elems@.subrange(node_lo((t + 1) as usize), t + 1));
            }
        }
        r
    }

    /// Number of elements.
    pub fn len(&self) -> (r: usize)
        ensures
            r == self.spec_size(),
    {
        self.size
    }

    /// The contents hold one value per element.
    pub proof fn lemma_view_len(&self)
        requires
            self.inv(),
        ensures
            self@.len() == self.spec_size(),
    {
    }

    /// Increments the value at index `i` by `x`. The caller guarantees
    /// that every interval sum of the new contents still fits.
    pub fn add(&mut self, i: usize, x: i64)
        requires
            old(self).inv(),
            i < old(self).spec_size(),
            i64::MIN <= old(self)@[i as int] + x <= i64::MAX,
            range_ok(old(self)@.update(i as int, (old(self)@[i as int] + x) as i64)),
        ensures
            final(self).inv(),
            final(self).spec_size() == old(self).spec_size(),
            final(self)@ == old(self)@.update(i as int, (old(self)@[i as int] + x) as i64),
    {
        let ghost olds = self.elems@;
        let ghost news = olds.update(i as int, (olds[i as int] + x) as i64);
        proof {
            self.elems@ = news;
        }
        let mut j: usize = i + 1;
        proof {
            lemma_lowbit_range(j);
            assert forall|t: int|
                0 <= t < self.size as int && !covers((t + 1) as usize, i as int)
                    implies #[trigger] self.data@[t] == isum(
                news.subrange(node_lo((t + 1) as usize), t + 1),
            ) by {
                lemma_lowbit_range((t + 1) as usize);
                lemma_isum_update_out(
                    olds,
                    i as int,
                    (olds[i as int] + x) as i64,
                    node_lo((t + 1) as usize),
                    t + 1,
                );
            }
        }
        while j <= self.size
            invariant
                self.size == old(self).size,
                self.data@.len() == self.size as int,
                self.size <= usize::MAX / 2,
                self.elems@ == news,
                news == olds.update(i as int, (olds[i as int] + x) as i64),
                olds.len() == self.size as int,
                range_ok(olds),
                range_ok(news),
                i < self.size,
                i64::MIN <= olds[i as int] + x <= i64::MAX,
                1 <= j,
                covers(j, i as int),
                forall|t: int|
                    0 <= t < self.size as int && (!covers((t + 1) as usize, i as int) || t + 1
                        < j) ==> #[trigger] self.data@[t] == isum(
                        news.subrange(node_lo((t + 1) as usize), t + 1),
                    ),
                forall|t: int|
                    0 <= t < self.size as int && covers((t + 1) as usize, i as int) && t + 1 >= j
                        ==> #[trigger] self.data@[t] == isum(
                        olds.subrange(node_lo((t + 1) as usize), t + 1),
                    ),
            decreases 2 * self.size - j,
        {
            let lb = lowbit_exec(j);
            proof {
                lemma_lowbit_range(j);
                lemma_isum_update_in(olds, i as int, (olds[i as int] + x) as i64, node_lo(j), j as int);
                assert(isum(news.subrange(node_lo(j), j as int)) == isum(
                    olds.subrange(node_lo(j), j as int),
                ) + (olds[i as int] + x) - olds[i as int]);
                assert(i64::MIN <= isum(news.subrange(node_lo(j), j as int)) <= i64::MAX);
            }
            let v = self.data[j - 1];
            self.data[j - 1] = v + x;
            proof {
                lemma_update_step(j);
                assert forall|t: int|
                    0 <= t < self.size as int && (!covers((t + 1) as usize, i as int) || t + 1 < j
                        + lb) implies #[trigger] self.data@[t] == isum(
                    news.subrange(node_lo((t + 1) as usize), t + 1),
                ) by {
                    if covers((t + 1) as usize, i as int) && t + 1 >= j && t + 1 < j + lb {
                        if t + 1 > j {
                            lemma_chain_gap(j, (t + 1) as usize);
                        }
                    }
                }
            }
            j = j + lb;
        }
        proof {
            assert(final(self)@ == news);
        }
    }

    /// Sum of the values at indices `[0, i)`.
    pub fn prefix_sum(&self, i: usize) -> (r: i64)
        requires
            self.inv(),
            i <= self.spec_size(),
        ensures
            r == isum(self@.subrange(0, i as int)),
    {
        let ghost i0 = i as int;
        let mut j = i;
        let mut ret: i64 = 0;
        while j != 0
            invariant
                self.inv(),
                j <= i,
                i <= self.spec_size(),
                ret == isum(self.elems@.subrange(j as int, i0)),
                i0 == i as int,
            decreases j,
        {
            proof {
                lemma_lowbit_range(j);
                lemma_query_step(j);
                lemma_isum_split(self.elems@, node_lo(j), j as int, i0);
            }
            let v = self.data[j - 1];
            ret = ret + v;
            j = j & (j - 1);
        }
        ret
    }

    /// Sum of the values at indices `[l, r)`.
    pub fn range_sum(&self, l: usize, r: usize) -> (s: i64)
        requires
            self.inv(),
            l <= r,
            r <= self.spec_size(),
        ensures
            s == isum(self@.subrange(l as int, r as int)),
    {
        proof {
            lemma_isum_split(self.elems@, 0, l as int, r as int);
        }
        let hi = self.prefix_sum(r);
        let lo = self.prefix_sum(l);
        hi - lo
    }

    /// Resets every value to zero without changing the size.
    pub fn clear(&mut self)
        requires
            old(self).inv(),
        ensures
            final(self).inv(),
            final(self).spec_size() == old(self).spec_size(),
            final(self)@ == Seq::new(old(self).spec_size(), |k: int| 0i64),
    {
        let n = self.size;
        let mut i: usize = 0;
        while i < n
            invariant
                self.size == old(self).size,
                n == self.size,
                self.data@.len() == self.size as int,
                i <= n,
                forall|k: int| 0 <= k < i ==> self.data@[k] == 0i64,
            decreases n - i,
        {
            self.data[i] = 0;
            i = i + 1;
        }
        proof {
            self.elems@ = Seq::new(old(self).spec_size(), |k: int| 0i64);
            assert forall|l: int, m: int| 0 <= l <= m <= self.elems@.len() implies i64::MIN
                <= #[trigger] isum(self.elems@.subrange(l, m)) <= i64::MAX by {
                lemma_isum_all_zero(self.elems@.subrange(l, m));
            }
            assert forall|t: int| 0 <= t < self.size as int implies #[trigger] self.data@[t]
                == isum(self.elems@.subrange(node_lo((t + 1) as usize), t + 1)) by {
                lemma_lowbit_range((t + 1) as usize);
                lemma_isum_all_zero(self.elems@.subrange(node_lo((t + 1) as usize), t + 1));
            }
        }
    }
}

} // verus!
