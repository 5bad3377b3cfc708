//! Fixed-size matrices with compile-time dimensions, over a semiring
//! of scalars carried as a type parameter.

use vstd::prelude::*;
use core::marker::PhantomData;
use crate::grid::lemma_row_major_bounds;

verus! {

/// Scalar operations for matrix arithmetic: a zero, an addition, and a
/// multiplication, each carried both as a spec function and as a total
/// executable function.
pub trait Semiring<X>: Sized {
    /// The zero scalar, as a mathematical value.
    spec fn zero() -> X;

    /// Scalar addition, as a mathematical function.
    spec fn plus(a: X, b: X) -> X;

    /// Scalar multiplication, as a mathematical function.
    spec fn times(a: X, b: X) -> X;

    /// Executable zero.
    fn make_zero() -> (r: X)
        ensures
            r == Self::zero(),
    ;

    /// Executable addition.
    fn combine_add(a: X, b: X) -> (r: X)
        ensures
            r == Self::plus(a, b),
    ;

    /// Executable multiplication.
    fn combine_mul(a: X, b: X) -> (r: X)
        ensures
            r == Self::times(a, b),
    ;
}

/// 32-bit integers with wrapping addition and multiplication.
pub struct WrapI32;

impl Semiring<i32> for WrapI32 {
    open spec fn zero() -> i32 {
        0
    }

    open spec fn plus(a: i32, b: i32) -> i32 {
        vstd::wrapping::i32_specs::wrapping_add(a, b)
    }

    open spec fn times(a: i32, b: i32) -> i32 {
        vstd::wrapping::i32_specs::wrapping_mul(a, b)
    }

    fn make_zero() -> (r: i32) {
        0
    }

    fn combine_add(a: i32, b: i32) -> (r: i32) {
        a.wrapping_add(b)
    }

    fn combine_mul(a: i32, b: i32) -> (r: i32) {
        a.wrapping_mul(b)
    }
}

/// Dot product of row `i` of `a` and column `j` of `b` over the first
/// `k` positions, accumulated left to right from zero.
pub open spec fn dot<X, A: Semiring<X>>(
    a: Seq<X>,
    b: Seq<X>,
    cols_a: int,
    cols_b: int,
    i: int,
    j: int,
    k: int,
) -> X
    decreases k,
{
    if k <= 0 {
        A::zero()
    } else {
        A::plus(
            dot::<X, A>(a, b, cols_a, cols_b, i, j, k - 1),
            A::times(a[i * cols_a + (k - 1)], b[(k - 1) * cols_b + j]),
        )
    }
}

/// An `NR x NC` matrix of scalars, row-major.
pub struct Matrix<const NR: usize, const NC: usize, X, A: Semiring<X>> {
    data: Vec<X>,
    _a: PhantomData<A>,
}

impl<const NR: usize, const NC: usize, X: Copy, A: Semiring<X>> Matrix<NR, NC, X, A> {
    /// The entries in row-major order.
    pub closed spec fn view(&self) -> Seq<X> {
        self.data@
    }

    /// Well-formed: one entry per cell.
    pub closed spec fn inv(&self) -> bool {
        self.data@.len() == NR * NC
    }

    /// Entry at row `i`, column `j`.
    pub open spec fn spec_at(&self, i: int, j: int) -> X {
        self@[i * NC + j]
    }

    /// Builds a matrix from a rectangular literal.
    pub fn new(entries: [[X; NC]; NR]) -> (r: Self)
        requires
            NR * NC <= usize::MAX,
        ensures
            r.inv(),
            forall|i: int, j: int|
                0 <= i < NR && 0 <= j < NC ==> r.spec_at(i, j) == entries@[i]@[j],
    {
        let total = NR * NC;
        let mut data: Vec<X> = Vec::new();
        let mut t: usize = 0;
        while t < total
            invariant
                t <= total,
                total == NR * NC,
                data@.len() == t,
                forall|k: int|
                    0 <= k < t ==> #[trigger] data@[k] == entries@[k / (NC as int)]@[k % (
                    NC as int)],
            decreases total - t,
        {
            proof {
                vstd::arithmetic::div_mod::lemma_multiply_divide_lt(
                    t as int,
                    NC as int,
                    NR as int,
                );
                vstd::arithmetic::div_mod::lemma_mod_bound(t as int, NC as int);
                vstd::arithmetic::div_mod::lemma_div_pos_is_pos(t as int, NC as int);
                vstd::arithmetic::mul::lemma_mul_is_commutative(NC as int, NR as int);
            }
            data.push(entries[t / NC][t % NC]);
            t = t + 1;
        }
        let r = Matrix { data, _a: PhantomData };
        proof {
            assert forall|i: int, j: int|
                0 <= i < NR && 0 <= j < NC implies r.spec_at(i, j) == entries@[i]@[j] by {
                lemma_row_major_bounds(NR as int, NC as int, i, j);
                vstd::arithmetic::div_mod::lemma_fundamental_div_mod_converse_div(
                    i * NC + j,
                    NC as int,
                    i,
                    j,
                );
                vstd::arithmetic::div_mod::lemma_fundamental_div_mod_converse_mod(
                    i * NC + j,
                    NC as int,
                    i,
                    j,
                );
            }
        }
        r
    }

    /// Entry at row `i`, column `j`.
    pub fn get(&self, i: usize, j: usize) -> (r: X)
        requires
            self.inv(),
            i < NR,
            j < NC,
        ensures
            r == self.spec_at(i as int, j as int),
    {
        let nlen = self.data.len();
        proof {
            lemma_row_major_bounds(NR as int, NC as int, i as int, j as int);
        }
        self.data[i * NC + j]
    }

    /// Elementwise sum of two same-shape matrices.
    pub fn add(&self, rhs: &Self) -> (r: Self)
        requires
            self.inv(),
            rhs.inv(),
        ensures
            r.inv(),
            forall|i: int, j: int|
                0 <= i < NR && 0 <= j < NC ==> r.spec_at(i, j) == A::plus(
                    self.spec_at(i, j),
                    rhs.spec_at(i, j),
                ),
    {
        let nlen = self.data.len();
        let mut data: Vec<X> = Vec::new();
        let mut t: usize = 0;
        while t < nlen
            invariant
                t <= nlen,
                nlen == NR * NC,
                self.inv(),
                rhs.inv(),
                data@.len() == t,
                forall|k: int| 0 <= k < t ==> data@[k] == A::plus(self@[k], rhs@[k]),
            decreases nlen - t,
        {
            data.push(A::combine_add(self.data[t], rhs.data[t]));
            t = t + 1;
        }
        let r = Matrix { data, _a: PhantomData };
        proof {
            assert forall|i: int, j: int|
                0 <= i < NR && 0 <= j < NC implies r.spec_at(i, j) == A::plus(
                self.spec_at(i, j),
                rhs.spec_at(i, j),
            ) by {
                lemma_row_major_bounds(NR as int, NC as int, i, j);
            }
        }
        r
    }

    /// Matrix product with a `NC x NC2` matrix, by the standard
    /// triple loop accumulating each dot product from zero.
    pub fn mul<const NC2: usize>(&self, rhs: &Matrix<NC, NC2, X, A>) -> (r: Matrix<NR, NC2, X, A>)
        requires
            self.inv(),
            rhs.inv(),
            NR * NC2 <= usize::MAX,
        ensures
            r.inv(),
            forall|i: int, j: int|
                0 <= i < NR && 0 <= j < NC2 ==> r.spec_at(i, j) == dot::<X, A>(
                    self@,
                    rhs@,
                    NC as int,
                    NC2 as int,
                    i,
                    j,
                    NC as int,
                ),
    {
        let total = NR * NC2;
        let mut data: Vec<X> = Vec::new();
        let mut t: usize = 0;
        while t < total
            invariant
                t <= total,
                total == NR * NC2,
                self.inv(),
                rhs.inv(),
                data@.len() == t,
                forall|k2: int|
                    0 <= k2 < t ==> #[trigger] data@[k2] == dot::<X, A>(
                        self@,
                        rhs@,
                        NC as int,
                        NC2 as int,
                        k2 / (NC2 as int),
                        k2 % (NC2 as int),
                        NC as int,
                    ),
            decreases total - t,
        {
            proof {
                vstd::arithmetic::div_mod::lemma_multiply_divide_lt(
                    t as int,
                    NC2 as int,
                    NR as int,
                );
                vstd::arithmetic::div_mod::lemma_mod_bound(t as int, NC2 as int);
                vstd::arithmetic::div_mod::lemma_div_pos_is_pos(t as int, NC2 as int);
                vstd::arithmetic::mul::lemma_mul_is_commutative(NC2 as int, NR as int);
            }
            let i = t / NC2;
            let j = t % NC2;
            let mut sum = A::make_zero();
            let mut k: usize = 0;
            while k < NC
                invariant
                    i < NR,
                    j < NC2,
                    k <= NC,
                    self.inv(),
                    rhs.inv(),
                    sum == dot::<X, A>(
                        self@,
                        rhs@,
                        NC as int,
                        NC2 as int,
                        i as int,
                        j as int,
                        k as int,
                    ),
                decreases NC - k,
            {
                let term = A::combine_mul(self.get(i, k), rhs.get(k, j));
                sum = A::combine_add(sum, term);
                k = k + 1;
            }
            data.push(sum);
            t = t + 1;
        }
        let r = Matrix { data, _a: PhantomData };
        proof {
            assert forall|i2: int, j2: int|
                0 <= i2 < NR && 0 <= j2 < NC2 implies r.spec_at(i2, j2) == dot::<X, A>(
                self@,
                rhs@,
                NC as int,
                NC2 as int,
                i2,
                j2,
                NC as int,
            ) by {
                lemma_row_major_bounds(NR as int, NC2 as int, i2, j2);
                vstd::arithmetic::div_mod::lemma_fundamental_div_mod_converse_div(
                    i2 * NC2 + j2,
                    NC2 as int,
                    i2,
                    j2,
                );
                vstd::arithmetic::div_mod::lemma_fundamental_div_mod_converse_mod(
                    i2 * NC2 + j2,
                    NC2 as int,
                    i2,
                    j2,
                );
            }
        }
        r
    }
}

} // verus!
