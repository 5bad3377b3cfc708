//! Enumeration of all `n`-bit masks with exactly `k` bits set, in
//! strictly increasing order, by Gosper's bit trick.
//!
//! The contract pins the sequence completely: it starts at the least
//! such mask, each step yields a strictly larger mask with the same
//! number of set bits, and no mask in between is skipped. The step
//! formula divides by the lowest set bit, so a zero mask (the `k = 0`
//! case) is special-cased: the sequence yields `0` once and then ends,
//! never invoking the step.

use vstd::prelude::*;

verus! {

/// Number of set bits of a 32-bit word.
pub open spec fn popcount32(x: u32) -> nat
    decreases x,
{
    if x == 0 {
        0nat
    } else {
        popcount32(x / 2) + (x % 2) as nat
    }
}

/// The low mask of `k` ones has exactly `k` bits set.
proof fn lemma_popcount_low_mask(k: u32)
    requires
        k <= 31,
    ensures
        popcount32(((1u32 << k) - 1) as u32) == k,
    decreases k,
{
    if k == 0 {
        assert(1u32 << 0u32 == 1) by (bit_vector);
    } else {
        lemma_popcount_low_mask((k - 1) as u32);
        let m = ((1u32 << k) - 1) as u32;
        let m1 = ((1u32 << (k - 1) as u32) - 1) as u32;
        assert(m != 0 && m % 2 == 1 && m / 2 == m1) by (bit_vector)
            requires
                1 <= k <= 31,
                m == ((1u32 << k) - 1) as u32,
                m1 == ((1u32 << (k - 1) as u32) - 1) as u32,
        ;
    }
}

/// The bits of `p` and `q` are disjoint, so their union's bit count
/// adds.
proof fn lemma_popcount_or_disjoint(p: u32, q: u32)
    requires
        p & q == 0,
    ensures
        popcount32(p | q) == popcount32(p) + popcount32(q),
    decreases p + q,
{
    assert((p == 0 ==> p | q == q) && (q == 0 ==> p | q == p) && ((p / 2) & (q / 2) == 0 && (p
        | q) / 2 == (p / 2) | (q / 2) && (p | q) % 2 == p % 2 + q % 2) && (p != 0 ==> p | q
        != 0)) by (bit_vector)
        requires
            p & q == 0,
    ;
    if p == 0 {
    } else if q == 0 {
    } else {
        lemma_popcount_or_disjoint(p / 2, q / 2);
    }
}

/// A single power of two has one set bit.
proof fn lemma_popcount_pow2(k: u32)
    requires
        k <= 31,
    ensures
        popcount32((1u32 << k) as u32) == 1,
    decreases k,
{
    assert((k == 0 ==> 1u32 << k == 1) && (1 <= k <= 31 ==> ((1u32 << k) != 0 && (1u32 << k) % 2
        == 0 && (1u32 << k) / 2 == (1u32 << (k - 1) as u32)))) by (bit_vector)
        requires
            k <= 31,
    ;
    if k == 0 {
        assert(popcount32(0) == 0);
        assert(popcount32(1) == popcount32(0) + 1);
    } else {
        lemma_popcount_pow2((k - 1) as u32);
    }
}

/// A block of `a` ones shifted left keeps `a` set bits.
proof fn lemma_popcount_block(a: u32, s: u32)
    requires
        1 <= a,
        a + s <= 31,
    ensures
        popcount32(((((1u32 << a) - 1) as u32) << s) as u32) == a,
    decreases s,
{
    if s == 0 {
        lemma_popcount_low_mask(a);
        let m = ((1u32 << a) - 1) as u32;
        assert((m << 0u32) == m) by (bit_vector)
            requires
                m == ((1u32 << a) - 1) as u32,
                a <= 31,
        ;
    } else {
        lemma_popcount_block(a, (s - 1) as u32);
        let m = ((1u32 << a) - 1) as u32;
        assert((m << s) != 0 && (m << s) % 2 == 0 && (m << s) / 2 == (m << (s - 1) as u32))
            by (bit_vector)
            requires
                m == ((1u32 << a) - 1) as u32,
                1 <= a,
                1 <= s,
                a + s <= 31,
        ;
    }
}

/// A word below `2^t` has at most `t` set bits.
proof fn lemma_popcount_bound(w: u32, t: u32)
    requires
        t <= 31,
        w < (1u32 << t),
    ensures
        popcount32(w) <= t,
    decreases t,
{
    assert((t == 0 ==> w == 0) && (1 <= t ==> w / 2 < (1u32 << (t - 1) as u32))) by (bit_vector)
        requires
            t <= 31,
            w < (1u32 << t),
    ;
    if t == 0 {
    } else {
        lemma_popcount_bound(w / 2, (t - 1) as u32);
    }
}

/// The only word below `2^k` with `k` set bits is the low mask itself.
proof fn lemma_popcount_full(w: u32, k: u32)
    requires
        k <= 31,
        w < (1u32 << k),
        popcount32(w) == k,
    ensures
        w == ((1u32 << k) - 1) as u32,
    decreases k,
{
    assert((k == 0 ==> (w == 0 && (1u32 << k) - 1 == 0)) && (1 <= k ==> w / 2 < (1u32 << (k - 1)
        as u32))) by (bit_vector)
        requires
            k <= 31,
            w < (1u32 << k),
    ;
    if k == 0 {
    } else {
        if w % 2 == 0 {
            lemma_popcount_bound(w / 2, (k - 1) as u32);
            assert(false);
        } else {
            lemma_popcount_full(w / 2, (k - 1) as u32);
            assert(w == ((1u32 << k) - 1) as u32) by (bit_vector)
                requires
                    1 <= k <= 31,
                    w % 2 == 1,
                    w / 2 == ((1u32 << (k - 1) as u32) - 1) as u32,
            ;
        }
    }
}

/// Among the words below `2^t`, the largest with exactly `a` set bits
/// packs them at the top: the block `(2^a - 1) << (t - a)`.
proof fn lemma_popcount_max(w: u32, t: u32, a: u32)
    requires
        a <= t <= 31,
        w < (1u32 << t),
        popcount32(w) == a,
    ensures
        w <= ((((1u32 << a) - 1) as u32) << ((t - a) as u32)) as u32,
    decreases t,
{
    if t == a {
        assert(w <= ((((1u32 << a) - 1) as u32) << 0u32) as u32) by (bit_vector)
            requires
                a <= 31,
                w < (1u32 << a),
        ;
    } else if w < (1u32 << ((t - 1) as u32)) as u32 {
        lemma_popcount_max(w, (t - 1) as u32, a);
        assert(((((1u32 << a) - 1) as u32) << ((t - 1 - a) as u32)) as u32 <= ((((1u32 << a)
            - 1) as u32) << ((t - a) as u32)) as u32) by (bit_vector)
            requires
                a < t <= 31,
        ;
    } else {
        let wl = (w - (1u32 << ((t - 1) as u32))) as u32;
        assert(wl == w % (1u32 << ((t - 1) as u32)) && w / (1u32 << ((t - 1) as u32)) == 1
            && wl < (1u32 << ((t - 1) as u32))) by (bit_vector)
            requires
                1 <= t <= 31,
                (1u32 << ((t - 1) as u32)) <= w < (1u32 << t),
                wl == (w - (1u32 << ((t - 1) as u32))) as u32,
        ;
        assert(w >> ((t - 1) as u32) == 1) by (bit_vector)
            requires
                1 <= t <= 31,
                (1u32 << ((t - 1) as u32)) <= w,
                w < (1u32 << t),
        ;
        lemma_popcount_split(w, (t - 1) as u32);
        if a == 0 {
            lemma_popcount_bound(wl, (t - 1) as u32);
            assert(false);
        } else {
            lemma_popcount_max(wl, (t - 1) as u32, (a - 1) as u32);
            assert(w <= ((((1u32 << a) - 1) as u32) << ((t - a) as u32)) as u32) by (bit_vector)
                requires
                    1 <= a < t <= 31,
                    w == ((1u32 << ((t - 1) as u32)) + wl) as u32,
                    wl <= ((((1u32 << (a - 1) as u32) - 1) as u32) << ((t - a) as u32)) as u32,
            ;
        }
    }
}

/// Splitting off the top bit splits the bit count.
proof fn lemma_popcount_split(w: u32, t: u32)
    requires
        t <= 31,
        w >> t == 1,
    ensures
        popcount32(w) == 1 + popcount32((w - (1u32 << t)) as u32),
{
    let top = (1u32 << t) as u32;
    let wl = (w - top) as u32;
    assert(top <= w && w == (top | wl) && top & wl == 0) by (bit_vector)
        requires
            t <= 31,
            top == (1u32 << t) as u32,
            w >> t == 1,
            wl == (w - top) as u32,
    ;
    lemma_popcount_or_disjoint(top, wl);
    lemma_popcount_pow2(t);
}

/// `x` splits into a contiguous run of `a` ones starting at bit `s`
/// (its lowest set bits) and a remainder `p` above the run, with a
/// zero at bit `s + a`.
spec fn run_shape(x: u32, s: u32, a: u32, p: u32) -> bool {
    &&& 1 <= a
    &&& a + s <= 31
    &&& x == (p | ((((1u32 << a) - 1) as u32) << s) as u32)
    &&& p & ((((1u32 << ((s + a) as u32)) - 1) as u32) | (1u32 << ((s + a) as u32)) as u32) == 0
    &&& p & ((((1u32 << a) - 1) as u32) << s) as u32 == 0
}

/// Every positive word below `2^31` has the run shape.
proof fn lemma_run_decompose(x: u32)
    requires
        1 <= x < 0x8000_0000u32,
    ensures
        exists|s: u32, a: u32, p: u32| #[trigger] run_shape(x, s, a, p),
    decreases x,
{
    if x % 2 == 0 {
        assert(1 <= x / 2 < 0x4000_0000u32) by (bit_vector)
            requires
                2 <= x < 0x8000_0000u32 && x % 2 == 0,
        ;
        lemma_run_decompose(x / 2);
        let (s0, a0, p0) = choose|s: u32, a: u32, p: u32| #[trigger] run_shape(x / 2, s, a, p);
        assert(run_shape(x, (s0 + 1) as u32, a0, (2 * p0) as u32)) by (bit_vector)
            requires
                run_shape(x / 2, s0, a0, p0),
                2 <= x < 0x8000_0000u32,
                x % 2 == 0,
        ;
    } else if x == 1 {
        assert(run_shape(1, 0, 1, 0)) by (bit_vector);
    } else if (x / 2) % 2 == 0 {
        assert(run_shape(x, 0, 1, (x - 1) as u32)) by (bit_vector)
            requires
                3 <= x < 0x8000_0000u32,
                x % 2 == 1,
                (x / 2) % 2 == 0,
        ;
    } else {
        assert(1 <= x / 2 < 0x4000_0000u32) by (bit_vector)
            requires
                3 <= x < 0x8000_0000u32 && x % 2 == 1,
        ;
        lemma_run_decompose(x / 2);
        let (s0, a0, p0) = choose|s: u32, a: u32, p: u32| #[trigger] run_shape(x / 2, s, a, p);
        assert(s0 == 0) by (bit_vector)
            requires
                run_shape(x / 2, s0, a0, p0),
                (x / 2) % 2 == 1,
        ;
        assert(run_shape(x, 0, (a0 + 1) as u32, (2 * p0) as u32)) by (bit_vector)
            requires
                run_shape(x / 2, s0, a0, p0),
                s0 == 0,
                3 <= x < 0x8000_0000u32,
                x % 2 == 1,
        ;
    }
}

/// The enumeration step keeps the number of set bits: the lowest run of
/// ones collapses to one bit just above it plus a shorter run at the
/// bottom.
proof fn lemma_step_popcount(x: u32, c: u32, r0: u32, y: u32)
    requires
        1 <= x < 0x8000_0000u32,
        c == x ^ (x & ((x - 1) as u32)),
        r0 == (x + c) as u32,
        y == ((((r0 ^ x) >> 2u32) / c) | r0) as u32,
    ensures
        popcount32(y) == popcount32(x),
{
    lemma_run_decompose(x);
    let (s, a, p) = choose|s: u32, a: u32, p: u32| #[trigger] run_shape(x, s, a, p);
    let block = ((((1u32 << a) - 1) as u32) << s) as u32;
    let q1 = (1u32 << ((s + a) as u32)) as u32;
    let q2 = ((1u32 << ((a - 1) as u32)) - 1) as u32;
    assert(c == (1u32 << s) && r0 == (p | q1) && y == ((p | q1) | q2) && p & q1 == 0 && (p | q1)
        & q2 == 0) by (bit_vector)
        requires
            run_shape(x, s, a, p),
            1 <= x < 0x8000_0000u32,
            c == (x ^ (x & ((x - 1) as u32))),
            r0 == (x + c) as u32,
            y == ((((r0 ^ x) >> 2u32) / c) | r0) as u32,
            block == ((((1u32 << a) - 1) as u32) << s) as u32,
            q1 == (1u32 << ((s + a) as u32)) as u32,
            q2 == ((1u32 << ((a - 1) as u32)) - 1) as u32,
    ;
    lemma_popcount_or_disjoint(p, block);
    lemma_popcount_block(a, s);
    lemma_popcount_or_disjoint(p, q1);
    lemma_popcount_or_disjoint((p | q1) as u32, q2);
    lemma_popcount_pow2((s + a) as u32);
    lemma_popcount_low_mask((a - 1) as u32);
}

/// The enumeration step skips nothing: no word strictly between a mask
/// and its successor has the same number of set bits.
proof fn lemma_step_minimal(x: u32, c: u32, r0: u32, y: u32, z: u32)
    requires
        1 <= x < 0x8000_0000u32,
        c == x ^ (x & ((x - 1) as u32)),
        r0 == (x + c) as u32,
        y == ((((r0 ^ x) >> 2u32) / c) | r0) as u32,
        x < z < y,
    ensures
        popcount32(z) != popcount32(x),
{
    lemma_run_decompose(x);
    let (s, a, p) = choose|s: u32, a: u32, p: u32| #[trigger] run_shape(x, s, a, p);
    let block = ((((1u32 << a) - 1) as u32) << s) as u32;
    let q1 = (1u32 << ((s + a) as u32)) as u32;
    let q2 = ((1u32 << ((a - 1) as u32)) - 1) as u32;
    let w = (z - p) as u32;
    assert(c == (1u32 << s) && y == ((p | q1) | q2) && p & q1 == 0 && (p | q1) & q2 == 0)
        by (bit_vector)
        requires
            run_shape(x, s, a, p),
            1 <= x < 0x8000_0000u32,
            c == (x ^ (x & ((x - 1) as u32))),
            r0 == (x + c) as u32,
            y == ((((r0 ^ x) >> 2u32) / c) | r0) as u32,
            q1 == (1u32 << ((s + a) as u32)) as u32,
            q2 == ((1u32 << ((a - 1) as u32)) - 1) as u32,
    ;
    // z shares x's bits above the run, so it is p plus a low word w
    // strictly between the run block and the successor's low part
    assert(z == (p | w) && p & w == 0 && block < w && w < (q1 + q2) as u32) by (bit_vector)
        requires
            run_shape(x, s, a, p),
            y == ((p | q1) | q2) && p & q1 == 0 && (p | q1) & q2 == 0,
            block == ((((1u32 << a) - 1) as u32) << s) as u32,
            q1 == (1u32 << ((s + a) as u32)) as u32,
            q2 == ((1u32 << ((a - 1) as u32)) - 1) as u32,
            x < z < y,
            w == (z - p) as u32,
    ;
    lemma_popcount_or_disjoint(p, w);
    lemma_popcount_or_disjoint(p, block);
    lemma_popcount_block(a, s);
    if popcount32(z) == popcount32(x) {
        assert(popcount32(w) == a);
        if w < q1 {
            lemma_popcount_max(w, (s + a) as u32, a);
            assert(false) by (bit_vector)
                requires
                    run_shape(x, s, a, p),
                    q1 == (1u32 << ((s + a) as u32)) as u32,
                    block == ((((1u32 << a) - 1) as u32) << s) as u32,
                    block < w,
                    w < q1,
                    w <= ((((1u32 << a) - 1) as u32) << (((s + a) - a) as u32)) as u32,
            ;
        } else {
            let u = (w - q1) as u32;
            assert(u < q2 && u < (1u32 << ((a - 1) as u32)) as u32) by (bit_vector)
                requires
                    run_shape(x, s, a, p),
                    q1 == (1u32 << ((s + a) as u32)) as u32,
                    q2 == ((1u32 << ((a - 1) as u32)) - 1) as u32,
                    q1 <= w < (q1 + q2) as u32,
                    u == (w - q1) as u32,
            ;
            assert(w >> ((s + a) as u32) == 1) by (bit_vector)
                requires
                    run_shape(x, s, a, p),
                    q1 == (1u32 << ((s + a) as u32)) as u32,
                    q2 == ((1u32 << ((a - 1) as u32)) - 1) as u32,
                    q1 <= w,
                    w < (q1 + q2) as u32,
            ;
            lemma_popcount_split(w, (s + a) as u32);
            lemma_popcount_full(u, (a - 1) as u32);
            assert(false) by (bit_vector)
                requires
                    run_shape(x, s, a, p),
                    q2 == ((1u32 << ((a - 1) as u32)) - 1) as u32,
                    u == ((1u32 << ((a - 1) as u32)) - 1) as u32,
                    u < q2,
            ;
        }
    }
}

/// Lazy forward-only enumerator of the `n`-bit masks with a fixed
/// number of set bits, smallest first.
pub struct Gosper {
    n: u32,
    mask: u32,
    finished: bool,
}

impl Gosper {
    /// Bit width of the enumerated masks.
    pub closed spec fn spec_n(&self) -> u32 {
        self.n
    }

    /// The next mask to be yielded.
    pub closed spec fn spec_mask(&self) -> u32 {
        self.mask
    }

    /// The sequence has ended.
    pub closed spec fn spec_finished(&self) -> bool {
        self.finished
    }

    /// Starts the enumeration at the smallest mask with `k` bits set,
    /// `2^k - 1`; with `k > n` no such `n`-bit mask exists and the
    /// sequence is empty.
    pub fn new(n: u32, k: u32) -> (r: Self)
        requires
            k <= 31,
            n <= 31,
        ensures
            r.spec_n() == n,
            r.spec_mask() == ((1u32 << k) - 1) as u32,
            popcount32(r.spec_mask()) == k,
            !r.spec_finished(),
    {
        proof {
            lemma_popcount_low_mask(k);
            assert(1u32 << k >= 1) by (bit_vector)
                requires
                    k <= 31,
            ;
        }
        Gosper { n, mask: (1u32 << k) - 1, finished: false }
    }

    /// Yields the pending mask and steps to the next larger candidate,
    /// or reports exhaustion once the pending candidate needs a bit at
    /// or above position `n` (or, for a zero mask, right after it).
    pub fn next(&mut self) -> (r: Option<u32>)
        requires
            old(self).spec_n() <= 31,
        ensures
            final(self).spec_n() == old(self).spec_n(),
            old(self).spec_finished() ==> r is None && *final(self) == *old(self),
            !old(self).spec_finished() && old(self).spec_mask() >= (1u32 << old(self).spec_n())
                ==> r is None && final(self).spec_finished(),
            !old(self).spec_finished() && old(self).spec_mask() < (1u32 << old(self).spec_n())
                && old(self).spec_mask() == 0 ==> r == Some(0u32) && final(self).spec_finished(),
            !old(self).spec_finished() && old(self).spec_mask() < (1u32 << old(self).spec_n())
                && old(self).spec_mask() != 0 ==> r == Some(old(self).spec_mask())
                && !final(self).spec_finished()
                && final(self).spec_mask() > old(self).spec_mask()
                && popcount32(final(self).spec_mask()) == popcount32(old(self).spec_mask()),
            !old(self).spec_finished() && old(self).spec_mask() < (1u32 << old(self).spec_n())
                && old(self).spec_mask() != 0 ==> forall|z: u32|
                old(self).spec_mask() < z < final(self).spec_mask() ==> #[trigger] popcount32(z)
                    != popcount32(old(self).spec_mask()),
    {
        if self.finished {
            return None;
        }
        if self.mask >= 1u32 << self.n {
            self.finished = true;
            return None;
        }
        let x = self.mask;
        let ghost n32 = self.n;
        if x == 0 {
            self.finished = true;
            return Some(0);
        }
        let c = x ^ (x & (x - 1));
        proof {
            assert(1 <= (x ^ (x & ((x - 1) as u32))) <= x && x < 0x8000_0000u32) by (bit_vector)
                requires
                    x >= 1,
                    x < (1u32 << n32),
                    n32 <= 31,
            ;
        }
        let r0 = x + c;
        let y = ((r0 ^ x) >> 2u32) / c | r0;
        proof {
            assert(((((r0 ^ x) >> 2u32) / c) | r0) >= r0) by (bit_vector)
                requires
                    c >= 1,
            ;
            lemma_step_popcount(x, c, r0, y);
            assert forall|z: u32| x < z < y implies #[trigger] popcount32(z) != popcount32(x) by {
                lemma_step_minimal(x, c, r0, y, z);
            }
        }
        self.mask = y;
        Some(x)
    }
}

} // verus!
