//! Integers in the ring Z/(2^64 - 1)Z, stored as raw 64-bit words.
//!
//! The ring has two on-the-wire representations of zero: the all-ones
//! word canonicalizes to 0. Arithmetic stays within the ring by
//! carry and borrow correction; equality and ordering go through the
//! canonical value, so the two zero patterns are indistinguishable.

use vstd::prelude::*;
use vstd::arithmetic::div_mod::{
    lemma_small_mod, lemma_mod_self_0, lemma_mod_multiples_vanish, lemma_add_mod_noop,
    lemma_sub_mod_noop, lemma_mul_mod_noop, lemma_fundamental_div_mod,
};
use vstd::arithmetic::mul::{lemma_mul_upper_bound, lemma_mul_nonnegative,
    lemma_mul_is_commutative};

verus! {

/// The ring's modulus, `2^64 - 1`.
pub open spec fn ring_mod() -> int {
    0xffff_ffff_ffff_ffff
}

/// Canonical value of a raw word: all-ones reads as zero.
pub open spec fn canon(x: u64) -> int {
    if x == u64::MAX {
        0int
    } else {
        x as int
    }
}

/// The canonical value is the raw value reduced by the modulus.
proof fn lemma_canon_is_mod(x: u64)
    ensures
        canon(x) == (x as int) % ring_mod(),
        0 <= canon(x) < ring_mod(),
{
    if x == u64::MAX {
        lemma_mod_self_0(ring_mod());
    } else {
        lemma_small_mod(x as nat, ring_mod() as nat);
    }
}

/// An element of the ring Z/(2^64 - 1)Z.
#[derive(Clone, Copy, Debug)]
pub struct H {
    x: u64,
}

impl H {
    /// The canonical value this element stands for.
    pub closed spec fn view(&self) -> int {
        canon(self.x)
    }

    /// The raw stored word.
    pub closed spec fn raw(&self) -> u64 {
        self.x
    }

    /// Builds an element from a raw word, with no reduction: every
    /// word already encodes a ring element.
    pub fn new(x: u64) -> (r: Self)
        ensures
            r.raw() == x,
            r@ == canon(x),
    {
        H { x }
    }

    /// The canonical value: all-ones reads as zero.
    pub fn get(&self) -> (r: u64)
        ensures
            r as int == self@,
            r < u64::MAX,
    {
        if self.x == u64::MAX {
            0
        } else {
            self.x
        }
    }

    /// Ring addition: the raw sum, plus one on unsigned overflow.
    pub fn add(self, rhs: Self) -> (r: Self)
        ensures
            r@ == (self@ + rhs@) % ring_mod(),
    {
        let big = self.x as u128 + rhs.x as u128;
        let res: u64 = if big > u64::MAX as u128 {
            (big - 0xffff_ffff_ffff_ffffu128) as u64
        } else {
            big as u64
        };
        proof {
            lemma_canon_is_mod(self.x);
            lemma_canon_is_mod(rhs.x);
            lemma_canon_is_mod(res);
            if big > u64::MAX as u128 {
                lemma_mod_multiples_vanish(1, res as int, ring_mod());
            }
            lemma_add_mod_noop(self.x as int, rhs.x as int, ring_mod());
        }
        H { x: res }
    }

    /// Ring subtraction: the raw difference, minus one on unsigned
    /// underflow.
    pub fn sub(self, rhs: Self) -> (r: Self)
        ensures
            r@ == (self@ - rhs@) % ring_mod(),
    {
        let res: u64 = if self.x >= rhs.x {
            self.x - rhs.x
        } else {
            u64::MAX - (rhs.x - self.x)
        };
        proof {
            lemma_canon_is_mod(self.x);
            lemma_canon_is_mod(rhs.x);
            lemma_canon_is_mod(res);
            if self.x < rhs.x {
                lemma_mod_multiples_vanish(1, self.x as int - rhs.x as int, ring_mod());
            }
            lemma_sub_mod_noop(self.x as int, rhs.x as int, ring_mod());
        }
        H { x: res }
    }

    /// Renders the canonical value in decimal.
    pub fn to_decimal_string(&self) -> (r: String)
        ensures
            r@.len() >= 1,
            forall|i: int|
                0 <= i < r@.len() ==> crate::modnum::is_dec_digit(#[trigger] r@[i]),
            crate::modnum::dec_value(r@) == self@,
            r@[0] == '0' ==> r@.len() == 1,
    {
        crate::modnum::u64_to_decimal(self.get())
    }

    /// Ring multiplication: widen to 128 bits, then fold the high word
    /// back in by ring addition, since `2^64` is 1 in this ring.
    pub fn mul(self, rhs: Self) -> (r: Self)
        ensures
            r@ == (self@ * rhs@) % ring_mod(),
    {
        proof {
            lemma_mul_upper_bound(self.x as int, u64::MAX as int, rhs.x as int, u64::MAX as int);
            lemma_mul_nonnegative(self.x as int, rhs.x as int);
        }
        let big = self.x as u128 * rhs.x as u128;
        let two64: u128 = 0x1_0000_0000_0000_0000u128;
        proof {
            vstd::arithmetic::div_mod::lemma_multiply_divide_lt(
                big as int,
                two64 as int,
                two64 as int,
            );
            vstd::arithmetic::div_mod::lemma_mod_bound(big as int, two64 as int);
        }
        let lo = (big % two64) as u64;
        let hi = (big / two64) as u64;
        let folded = H { x: lo }.add(H { x: hi });
        proof {
            lemma_fundamental_div_mod(big as int, two64 as int);
            lemma_canon_is_mod(lo);
            lemma_canon_is_mod(hi);
            lemma_canon_is_mod(self.x);
            lemma_canon_is_mod(rhs.x);
            // 2^64 * hi + lo == (2^64 - 1) * hi + (hi + lo)
            assert(big as int == ring_mod() * (hi as int) + (hi as int + lo as int)) by {
                vstd::arithmetic::mul::lemma_mul_is_distributive_sub_other_way(
                    hi as int,
                    two64 as int,
                    1,
                );
                vstd::arithmetic::mul::lemma_mul_basics(hi as int);
                lemma_mul_is_commutative(two64 as int, hi as int);
            }
            lemma_mod_multiples_vanish(hi as int, hi as int + lo as int, ring_mod());
            lemma_add_mod_noop(lo as int, hi as int, ring_mod());
            lemma_mul_mod_noop(self.x as int, rhs.x as int, ring_mod());
        }
        folded
    }
}

/// Canonical equality: the two encodings of zero are equal.
impl PartialEq for H {
    fn eq(&self, o: &H) -> (r: bool) {
        self.get() == o.get()
    }
}

impl Eq for H {

}

impl vstd::std_specs::cmp::PartialEqSpecImpl for H {
    open spec fn obeys_eq_spec() -> bool {
        true
    }

    open spec fn eq_spec(&self, o: &H) -> bool {
        self@ == o@
    }
}

/// Canonical ordering, consistent with canonical equality.
impl PartialOrd for H {
    fn partial_cmp(&self, o: &H) -> (r: Option<core::cmp::Ordering>) {
        let a = self.get();
        let b = o.get();
        if a < b {
            Some(core::cmp::Ordering::Less)
        } else if a > b {
            Some(core::cmp::Ordering::Greater)
        } else {
            Some(core::cmp::Ordering::Equal)
        }
    }
}

impl vstd::std_specs::cmp::PartialOrdSpecImpl for H {
    open spec fn obeys_partial_cmp_spec() -> bool {
        true
    }

    open spec fn partial_cmp_spec(&self, o: &H) -> Option<core::cmp::Ordering> {
        if self@ < o@ {
            Some(core::cmp::Ordering::Less)
        } else if self@ > o@ {
            Some(core::cmp::Ordering::Greater)
        } else {
            Some(core::cmp::Ordering::Equal)
        }
    }
}

/// The additive identity's raw word is zero.
impl Default for H {
    fn default() -> (r: Self)
        ensures
            r.raw() == 0,
            r@ == 0,
    {
        H { x: 0 }
    }
}

} // verus!
