//! Combining operations for the aggregate-query structures.
//!
//! Every range-query structure in this crate is parameterized by a
//! monoid: an associative combining operation `op` with an identity
//! element `id`. The trait carries the operation both as a spec
//! function (for contracts) and as an executable function, together
//! with proof obligations for the algebraic laws, so each instance
//! proves its own laws once and every structure can rely on them.

use vstd::prelude::*;

verus! {

/// An associative combining operation over `X` with identity.
pub trait Monoid<X>: Sized {
    /// The identity element, as a mathematical value.
    spec fn id() -> X;

    /// The combining operation, as a mathematical function.
    spec fn op(a: X, b: X) -> X;

    /// Executable identity element.
    fn identity() -> (r: X)
        ensures
            r == Self::id(),
    ;

    /// Executable combining operation.
    fn combine(a: X, b: X) -> (r: X)
        ensures
            r == Self::op(a, b),
    ;

    /// `op` is associative.
    proof fn op_assoc(a: X, b: X, c: X)
        ensures
            Self::op(Self::op(a, b), c) == Self::op(a, Self::op(b, c)),
    ;

    /// `id` is a left identity.
    proof fn id_left(a: X)
        ensures
            Self::op(Self::id(), a) == a,
    ;

    /// `id` is a right identity.
    proof fn id_right(a: X)
        ensures
            Self::op(a, Self::id()) == a,
    ;
}

/// A monoid whose operation is also commutative.
pub trait CommMonoid<X>: Monoid<X> {
    /// `op` is commutative.
    proof fn op_comm(a: X, b: X)
        ensures
            Self::op(a, b) == Self::op(b, a),
    ;
}

/// A commutative monoid whose operation is idempotent, so overlapping
/// ranges may be combined without harm (minimum, maximum, and the like).
pub trait IdemMonoid<X>: CommMonoid<X> {
    /// `op` absorbs duplicates.
    proof fn op_idem(a: X)
        ensures
            Self::op(a, a) == a,
    ;
}

/// Fold of a sequence under the monoid `M`, combining from the left:
/// `mfold([x0, x1, x2]) == op(op(op(id, x0), x1), x2)`.
pub open spec fn mfold<X, M: Monoid<X>>(s: Seq<X>) -> X
    decreases s.len(),
{
    if s.len() == 0 {
        M::id()
    } else {
        M::op(mfold::<X, M>(s.drop_last()), s.last())
    }
}

/// Fold of a concatenation combines the folds of the parts.
pub proof fn lemma_mfold_concat<X, M: Monoid<X>>(a: Seq<X>, b: Seq<X>)
    ensures
        mfold::<X, M>(a + b) == M::op(mfold::<X, M>(a), mfold::<X, M>(b)),
    decreases b.len(),
{
    if b.len() == 0 {
        assert(a + b =~= a);
        M::id_right(mfold::<X, M>(a));
    } else {
        let b0 = b.drop_last();
        assert((a + b).drop_last() =~= a + b0);
        assert((a + b).len() > 0);
        assert((a + b).last() == b.last());
        lemma_mfold_concat::<X, M>(a, b0);
        M::op_assoc(mfold::<X, M>(a), mfold::<X, M>(b0), b.last());
    }
}

/// For a commutative monoid, combining a fresh value into the fold is
/// the same as combining it into any single position of the sequence.
pub proof fn lemma_mfold_update<X, M: CommMonoid<X>>(s: Seq<X>, k: int, v: X)
    requires
        0 <= k < s.len(),
    ensures
        mfold::<X, M>(s.update(k, M::op(v, s[k]))) == M::op(v, mfold::<X, M>(s)),
    decreases s.len(),
{
    let s2 = s.update(k, M::op(v, s[k]));
    if k == s.len() - 1 {
        assert(s2.drop_last() =~= s.drop_last());
        assert(s2.last() == M::op(v, s[k]));
        let m = mfold::<X, M>(s.drop_last());
        // op(m, op(v, x)) == op(v, op(m, x))
        M::op_assoc(m, v, s[k]);
        M::op_comm(m, v);
        M::op_assoc(v, m, s[k]);
    } else {
        let d = s.drop_last();
        lemma_mfold_update::<X, M>(d, k, v);
        assert(s2.drop_last() =~= d.update(k, M::op(v, d[k])));
        assert(s2.last() == s.last());
        M::op_assoc(v, mfold::<X, M>(d), s.last());
    }
}

/// For an idempotent commutative monoid, a fold absorbs itself.
pub proof fn lemma_mfold_self_absorb<X, M: IdemMonoid<X>>(s: Seq<X>)
    ensures
        M::op(mfold::<X, M>(s), mfold::<X, M>(s)) == mfold::<X, M>(s),
    decreases s.len(),
{
    if s.len() == 0 {
        M::id_left(M::id());
    } else {
        let d = s.drop_last();
        let x = s.last();
        let fd = mfold::<X, M>(d);
        lemma_mfold_self_absorb::<X, M>(d);
        // op(op(fd, x), op(fd, x)) == op(fd, x)
        M::op_assoc(fd, x, M::op(fd, x));
        // op(x, op(fd, x)) == op(fd, op(x, x))
        M::op_assoc(x, fd, x);
        M::op_comm(x, fd);
        M::op_assoc(fd, x, x);
        M::op_idem(x);
        // now op(x, op(fd, x)) == op(fd, x)
        M::op_assoc(fd, fd, x);
    }
}

/// For an idempotent commutative monoid, two overlapping windows that
/// together cover a range fold to the same value as the range itself.
pub proof fn lemma_mfold_overlap<X, M: IdemMonoid<X>>(s: Seq<X>, l: int, m1: int, m2: int, r: int)
    requires
        0 <= l <= m1 <= m2 <= r <= s.len(),
    ensures
        M::op(mfold::<X, M>(s.subrange(l, m2)), mfold::<X, M>(s.subrange(m1, r)))
            == mfold::<X, M>(s.subrange(l, r)),
{
    let a = s.subrange(l, m1);
    let b = s.subrange(m1, m2);
    let c = s.subrange(m2, r);
    let fa = mfold::<X, M>(a);
    let fb = mfold::<X, M>(b);
    let fc = mfold::<X, M>(c);
    assert(s.subrange(l, m2) =~= a + b);
    assert(s.subrange(m1, r) =~= b + c);
    assert(s.subrange(l, r) =~= (a + b) + c);
    lemma_mfold_concat::<X, M>(a, b);
    lemma_mfold_concat::<X, M>(b, c);
    lemma_mfold_concat::<X, M>(a + b, c);
    // op(op(fa, fb), op(fb, fc)) == op(op(fa, fb), fc)
    M::op_assoc(M::op(fa, fb), fb, fc);
    M::op_assoc(fa, fb, fb);
    lemma_mfold_self_absorb::<X, M>(b);
    M::op_idem(fb);
}

// ---------------------------------------------------------------------
// Instances used throughout the tests and examples.
// ---------------------------------------------------------------------

/// Addition on `i32`, wrapping on overflow; identity `0`.
pub struct AddI32;

/// Maximum on `i32`; identity `i32::MIN`.
pub struct MaxI32;

/// Minimum on `i32`; identity `i32::MAX`.
pub struct MinI32;

/// Maximum on `usize`; identity `0`.
pub struct MaxUsize;

/// Pairwise (minimum, maximum) closure on `i32`;
/// identity `(i32::MAX, i32::MIN)`.
pub struct MinMaxI32;

impl Monoid<i32> for AddI32 {
    open spec fn id() -> i32 {
        0
    }

    open spec fn op(a: i32, b: i32) -> i32 {
        vstd::wrapping::i32_specs::wrapping_add(a, b)
    }

    fn identity() -> (r: i32) {
        0
    }

    fn combine(a: i32, b: i32) -> (r: i32) {
        a.wrapping_add(b)
    }

    proof fn op_assoc(a: i32, b: i32, c: i32) {
        assert(Self::op(Self::op(a, b), c) == Self::op(a, Self::op(b, c)));
    }

    proof fn id_left(a: i32) {
    }

    proof fn id_right(a: i32) {
    }
}

impl CommMonoid<i32> for AddI32 {
    proof fn op_comm(a: i32, b: i32) {
    }
}

impl Monoid<i32> for MaxI32 {
    open spec fn id() -> i32 {
        i32::MIN
    }

    open spec fn op(a: i32, b: i32) -> i32 {
        if a >= b {
            a
        } else {
            b
        }
    }

    fn identity() -> (r: i32) {
        i32::MIN
    }

    fn combine(a: i32, b: i32) -> (r: i32) {
        if a >= b {
            a
        } else {
            b
        }
    }

    proof fn op_assoc(a: i32, b: i32, c: i32) {
    }

    proof fn id_left(a: i32) {
    }

    proof fn id_right(a: i32) {
    }
}

impl CommMonoid<i32> for MaxI32 {
    proof fn op_comm(a: i32, b: i32) {
    }
}

impl IdemMonoid<i32> for MaxI32 {
    proof fn op_idem(a: i32) {
    }
}

impl Monoid<i32> for MinI32 {
    open spec fn id() -> i32 {
        i32::MAX
    }

    open spec fn op(a: i32, b: i32) -> i32 {
        if a <= b {
            a
        } else {
            b
        }
    }

    fn identity() -> (r: i32) {
        i32::MAX
    }

    fn combine(a: i32, b: i32) -> (r: i32) {
        if a <= b {
            a
        } else {
            b
        }
    }

    proof fn op_assoc(a: i32, b: i32, c: i32) {
    }

    proof fn id_left(a: i32) {
    }

    proof fn id_right(a: i32) {
    }
}

impl CommMonoid<i32> for MinI32 {
    proof fn op_comm(a: i32, b: i32) {
    }
}

impl IdemMonoid<i32> for MinI32 {
    proof fn op_idem(a: i32) {
    }
}

impl Monoid<usize> for MaxUsize {
    open spec fn id() -> usize {
        0
    }

    open spec fn op(a: usize, b: usize) -> usize {
        if a >= b {
            a
        } else {
            b
        }
    }

    fn identity() -> (r: usize) {
        0
    }

    fn combine(a: usize, b: usize) -> (r: usize) {
        if a >= b {
            a
        } else {
            b
        }
    }

    proof fn op_assoc(a: usize, b: usize, c: usize) {
    }

    proof fn id_left(a: usize) {
    }

    proof fn id_right(a: usize) {
    }
}

impl CommMonoid<usize> for MaxUsize {
    proof fn op_comm(a: usize, b: usize) {
    }
}

impl IdemMonoid<usize> for MaxUsize {
    proof fn op_idem(a: usize) {
    }
}

impl Monoid<(i32, i32)> for MinMaxI32 {
    open spec fn id() -> (i32, i32) {
        (i32::MAX, i32::MIN)
    }

    open spec fn op(a: (i32, i32), b: (i32, i32)) -> (i32, i32) {
        (if a.0 <= b.0 { a.0 } else { b.0 }, if a.1 >= b.1 { a.1 } else { b.1 })
    }

    fn identity() -> (r: (i32, i32)) {
        (i32::MAX, i32::MIN)
    }

    fn combine(a: (i32, i32), b: (i32, i32)) -> (r: (i32, i32)) {
        (if a.0 <= b.0 { a.0 } else { b.0 }, if a.1 >= b.1 { a.1 } else { b.1 })
    }

    proof fn op_assoc(a: (i32, i32), b: (i32, i32), c: (i32, i32)) {
    }

    proof fn id_left(a: (i32, i32)) {
    }

    proof fn id_right(a: (i32, i32)) {
    }
}

impl CommMonoid<(i32, i32)> for MinMaxI32 {
    proof fn op_comm(a: (i32, i32), b: (i32, i32)) {
    }
}

impl IdemMonoid<(i32, i32)> for MinMaxI32 {
    proof fn op_idem(a: (i32, i32)) {
    }
}

} // verus!
