//! Modular integer ring with a compile-time modulus.
//!
//! A value stores a residue in `[0, M)`. The modulus is assumed prime
//! where `inv` and `div` are meant to return true inverses (Fermat's
//! little theorem); this is not checked, so their contracts state the
//! computed power itself.

use vstd::prelude::*;
use vstd::arithmetic::power::pow;
use vstd::arithmetic::power::{lemma_pow0, lemma_pow1, lemma_pow_adds, lemma_pow_multiplies,
    lemma_pow_mod_noop};
use vstd::arithmetic::div_mod::{
    lemma_small_mod, lemma_mod_add_multiples_vanish, lemma_mul_mod_noop_general,
    lemma_fundamental_div_mod,
};
use vstd::arithmetic::mul::{lemma_mul_is_commutative, lemma_mul_inequality,
    lemma_mul_is_associative};

verus! {

/// Failure of the decimal parser: the input is not the decimal form of
/// a non-negative integer that fits the word size.
#[derive(Clone, Copy, Debug, PartialEq, Eq, Structural)]
pub enum ParseError {
    /// Malformed or out-of-range input string.
    InvalidInput,
}

/// `c` is a decimal digit.
pub open spec fn is_dec_digit(c: char) -> bool {
    '0' <= c && c <= '9'
}

/// Value of a string of decimal digits, most significant first.
pub open spec fn dec_value(s: Seq<char>) -> int
    decreases s.len(),
{
    if s.len() == 0 {
        0int
    } else {
        dec_value(s.drop_last()) * 10 + (s.last() as int - '0' as int)
    }
}

/// The digit part of a decimal literal: everything after one optional
/// leading plus sign.
pub open spec fn dec_digits(s: Seq<char>) -> Seq<char> {
    if s.len() > 0 && s[0] == '+' {
        s.subrange(1, s.len() as int)
    } else {
        s
    }
}

/// The string is a decimal literal: one optional leading plus sign,
/// then one or more digits, of any magnitude.
pub open spec fn valid_decimal(s: Seq<char>) -> bool {
    &&& dec_digits(s).len() >= 1
    &&& forall|i: int| 0 <= i < dec_digits(s).len() ==> is_dec_digit(#[trigger] dec_digits(s)[i])
}

/// The value of a digit string is not negative.
proof fn lemma_dec_value_nonneg(s: Seq<char>)
    requires
        forall|i: int| 0 <= i < s.len() ==> is_dec_digit(#[trigger] s[i]),
    ensures
        dec_value(s) >= 0,
    decreases s.len(),
{
    if s.len() > 0 {
        lemma_dec_value_nonneg(s.drop_last());
    }
}

/// One decimal digit appended as text.
fn append_digit(s: &mut String, d: u64)
    requires
        d < 10,
    ensures
        final(s)@ == old(s)@ + seq![digit_char(d as int)],
{
    if d == 0 {
        s.append("0");
        proof {
            reveal_strlit("0");
        }
    } else if d == 1 {
        s.append("1");
        proof {
            reveal_strlit("1");
        }
    } else if d == 2 {
        s.append("2");
        proof {
            reveal_strlit("2");
        }
    } else if d == 3 {
        s.append("3");
        proof {
            reveal_strlit("3");
        }
    } else if d == 4 {
        s.append("4");
        proof {
            reveal_strlit("4");
        }
    } else if d == 5 {
        s.append("5");
        proof {
            reveal_strlit("5");
        }
    } else if d == 6 {
        s.append("6");
        proof {
            reveal_strlit("6");
        }
    } else if d == 7 {
        s.append("7");
        proof {
            reveal_strlit("7");
        }
    } else if d == 8 {
        s.append("8");
        proof {
            reveal_strlit("8");
        }
    } else {
        s.append("9");
        proof {
            reveal_strlit("9");
        }
    }
    proof {
        assert(final(s)@ =~= old(s)@ + seq![digit_char(d as int)]);
    }
}

/// The text form of one decimal digit.
pub open spec fn digit_char(d: int) -> char {
    if d == 0 {
        '0'
    } else if d == 1 {
        '1'
    } else if d == 2 {
        '2'
    } else if d == 3 {
        '3'
    } else if d == 4 {
        '4'
    } else if d == 5 {
        '5'
    } else if d == 6 {
        '6'
    } else if d == 7 {
        '7'
    } else if d == 8 {
        '8'
    } else {
        '9'
    }
}

/// Value of a digit list, least significant first.
pub open spec fn lsb_value(d: Seq<u64>) -> int
    decreases d.len(),
{
    if d.len() == 0 {
        0int
    } else {
        lsb_value(d.drop_last()) + d.last() * vstd::arithmetic::power::pow(
            10,
            (d.len() - 1) as nat,
        )
    }
}

/// Renders a 64-bit value in decimal: digits only, no leading zero
/// except for the value zero itself, and parsing the digits back gives
/// the value.
pub fn u64_to_decimal(x: u64) -> (r: String)
    ensures
        r@.len() >= 1,
        forall|i: int| 0 <= i < r@.len() ==> is_dec_digit(#[trigger] r@[i]),
        dec_value(r@) == x as int,
        r@[0] == '0' ==> r@.len() == 1,
{
    let mut digits: Vec<u64> = Vec::new();
    let mut v = x;
    digits.push(v % 10);
    v = v / 10;
    proof {
        assert(lsb_value(digits@) == x as int % 10) by {
            assert(digits@.drop_last() =~= Seq::<u64>::empty());
            assert(lsb_value(Seq::<u64>::empty()) == 0);
            assert(digits@.last() == x % 10);
            vstd::arithmetic::power::lemma_pow0(10);
            vstd::arithmetic::mul::lemma_mul_basics((x % 10) as int);
        }
        lemma_fundamental_div_mod(x as int, 10);
        vstd::arithmetic::power::lemma_pow1(10);
        lemma_mul_is_commutative(10, x as int / 10);
        lemma_mul_is_commutative(x as int / 10, 10);
    }
    while v > 0
        invariant
            digits@.len() >= 1,
            v * vstd::arithmetic::power::pow(10, digits@.len()) + lsb_value(digits@) == x as int,
            forall|i: int| 0 <= i < digits@.len() ==> #[trigger] digits@[i] < 10,
            v == 0 ==> (digits@.last() != 0 || digits@.len() == 1),
            x > 0 ==> (v > 0 || digits@.last() != 0 || digits@.len() == 1),
        decreases v,
    {
        let ghost dpre = digits@;
        let ghost p = vstd::arithmetic::power::pow(10, digits@.len()) as int;
        let d = v % 10;
        digits.push(d);
        let ghost v0 = v as int;
        let ghost q = v as int / 10;
        v = v / 10;
        proof {
            assert(digits@.drop_last() =~= dpre);
            assert(digits@.last() == d);
            assert(lsb_value(digits@) == lsb_value(dpre) + d * p);
            lemma_fundamental_div_mod(v0, 10);
            assert(v0 == 10 * q + d);
            vstd::arithmetic::mul::lemma_mul_is_distributive_add_other_way(p, 10 * q, d as int);
            assert(v0 * p == (10 * q) * p + d * p);
            lemma_mul_is_associative(10, q, p);
            lemma_mul_is_commutative(10, q);
            lemma_mul_is_associative(q, 10, p);
            lemma_mul_is_commutative(p, 10);
            assert((10 * q) * p == q * (10 * p));
            vstd::arithmetic::power::lemma_pow_adds(10, dpre.len(), 1);
            vstd::arithmetic::power::lemma_pow1(10);
            assert(vstd::arithmetic::power::pow(10, digits@.len()) as int == 10 * p);
        }
    }
    let mut r = String::new();
    let mut k = digits.len();
    proof {
        assert(lsb_value(digits@.subrange(0, digits@.len() as int)) == lsb_value(digits@)) by {
            assert(digits@.subrange(0, digits@.len() as int) =~= digits@);
        }
        assert(dec_value(Seq::<char>::empty()) == 0);
        vstd::arithmetic::mul::lemma_mul_by_zero_is_zero(
            vstd::arithmetic::power::pow(10, digits@.len()) as int,
        );
    }
    while k > 0
        invariant
            k <= digits@.len(),
            digits@.len() >= 1,
            forall|i: int| 0 <= i < digits@.len() ==> #[trigger] digits@[i] < 10,
            forall|i: int| 0 <= i < r@.len() ==> is_dec_digit(#[trigger] r@[i]),
            r@.len() == digits@.len() - k,
            dec_value(r@) * vstd::arithmetic::power::pow(10, k as nat) + lsb_value(
                digits@.subrange(0, k as int),
            ) == x as int,
            r@.len() >= 1 ==> (r@[0] != '0' || digits@.len() == 1),
            r@.len() == 0 ==> (digits@.last() != 0 || digits@.len() == 1),
        decreases k,
    {
        k = k - 1;
        let d = digits[k];
        let ghost rpre = r@;
        append_digit(&mut r, d);
        proof {
            assert(r@.drop_last() =~= rpre);
            assert(r@.last() == digit_char(d as int));
            assert(digit_char(d as int) as int - '0' as int == d as int);
            assert(is_dec_digit(digit_char(d as int)));
            assert(digits@.subrange(0, k + 1).drop_last() =~= digits@.subrange(0, k as int));
            assert(digits@.subrange(0, k + 1).last() == d);
            vstd::arithmetic::power::lemma_pow_adds(10, k as nat, 1);
            vstd::arithmetic::power::lemma_pow1(10);
            let pk = vstd::arithmetic::power::pow(10, k as nat) as int;
            // (dec * 10 + d) * pk == dec * (10 * pk) + d * pk
            vstd::arithmetic::mul::lemma_mul_is_distributive_add_other_way(
                pk,
                dec_value(rpre) * 10,
                d as int,
            );
            lemma_mul_is_associative(dec_value(rpre), 10, pk);
            lemma_mul_is_commutative(pk, 10);
            if rpre.len() == 0 && d == 0 {
                assert(digits@.len() == 1);
            }
        }
    }
    proof {
        assert(digits@.subrange(0, 0) =~= Seq::<u64>::empty());
        assert(lsb_value(Seq::<u64>::empty()) == 0);
        vstd::arithmetic::power::lemma_pow0(10);
        vstd::arithmetic::mul::lemma_mul_basics(dec_value(r@));
    }
    r
}

/// An integer in the ring of residues modulo `M`.
#[derive(Clone, Copy, Debug, PartialEq, Eq)]
pub struct ModNum<const M: u32> {
    r: u32,
}

/// Reduction of a sum of two residues: already reduced, or one
/// subtraction away.
proof fn lemma_two_fold(x: int, m: int)
    requires
        0 < m,
        0 <= x < 2 * m,
    ensures
        x % m == if x < m {
            x
        } else {
            x - m
        },
{
    if x < m {
        lemma_small_mod(x as nat, m as nat);
    } else {
        lemma_mod_add_multiples_vanish(x - m, m);
        lemma_small_mod((x - m) as nat, m as nat);
    }
}

impl<const M: u32> ModNum<M> {
    /// The stored residue.
    pub closed spec fn residue(&self) -> int {
        self.r as int
    }

    /// Well-formed: the residue is reduced.
    pub closed spec fn inv_holds(&self) -> bool {
        (self.r as int) < M as int && M >= 1
    }

    /// Builds a residue, reducing the given value.
    pub fn new(v: u32) -> (r: Self)
        requires
            M >= 1,
        ensures
            r.inv_holds(),
            r.residue() == v as int % M as int,
    {
        ModNum { r: v % M }
    }

    /// Builds a residue from a value the caller guarantees is reduced.
    pub fn new_unchecked(v: u32) -> (r: Self)
        requires
            M >= 1,
            v < M,
        ensures
            r.inv_holds(),
            r.residue() == v as int,
    {
        ModNum { r: v }
    }

    /// The raw residue.
    pub fn value(&self) -> (r: u32)
        ensures
            r as int == self.residue(),
    {
        self.r
    }

    /// Modular addition.
    pub fn add(self, rhs: Self) -> (r: Self)
        requires
            self.inv_holds(),
            rhs.inv_holds(),
        ensures
            r.inv_holds(),
            r.residue() == (self.residue() + rhs.residue()) % (M as int),
    {
        let s = self.r as u64 + rhs.r as u64;
        proof {
            lemma_two_fold(s as int, M as int);
        }
        if s < M as u64 {
            ModNum { r: s as u32 }
        } else {
            ModNum { r: (s - M as u64) as u32 }
        }
    }

    /// Modular subtraction.
    pub fn sub(self, rhs: Self) -> (r: Self)
        requires
            self.inv_holds(),
            rhs.inv_holds(),
        ensures
            r.inv_holds(),
            r.residue() == (self.residue() - rhs.residue()) % (M as int),
    {
        let s = self.r as u64 + M as u64 - rhs.r as u64;
        proof {
            lemma_mod_add_multiples_vanish(self.residue() - rhs.residue(), M as int);
            lemma_two_fold(s as int, M as int);
        }
        if s < M as u64 {
            ModNum { r: s as u32 }
        } else {
            ModNum { r: (s - M as u64) as u32 }
        }
    }

    /// Modular multiplication.
    pub fn mul(self, rhs: Self) -> (r: Self)
        requires
            self.inv_holds(),
            rhs.inv_holds(),
        ensures
            r.inv_holds(),
            r.residue() == (self.residue() * rhs.residue()) % (M as int),
    {
        proof {
            vstd::arithmetic::mul::lemma_mul_upper_bound(
                self.r as int,
                u32::MAX as int,
                rhs.r as int,
                u32::MAX as int,
            );
            vstd::arithmetic::mul::lemma_mul_nonnegative(self.r as int, rhs.r as int);
        }
        let p = self.r as u64 * rhs.r as u64;
        let m = p % (M as u64);
        ModNum { r: m as u32 }
    }

    /// Modular negation.
    pub fn neg(self) -> (r: Self)
        requires
            self.inv_holds(),
        ensures
            r.inv_holds(),
            r.residue() == (M as int - self.residue()) % (M as int),
    {
        proof {
            if self.r == 0 {
                vstd::arithmetic::div_mod::lemma_mod_self_0(M as int);
            } else {
                lemma_small_mod((M - self.r) as nat, M as nat);
            }
        }
        if self.r == 0 {
            ModNum { r: 0 }
        } else {
            ModNum { r: M - self.r }
        }
    }

    /// Fast exponentiation by repeated squaring.
    pub fn pow(self, n: u64) -> (r: Self)
        requires
            self.inv_holds(),
        ensures
            r.inv_holds(),
            r.residue() == pow(self.residue(), n as nat) % (M as int),
    {
        let ghost b0 = self.residue();
        let ghost n0 = n as nat;
        let mut res: u64 = 1 % (M as u64);
        let mut a: u64 = self.r as u64;
        let mut n = n;
        proof {
            lemma_pow0(b0);
            lemma_small_mod(self.r as nat, M as nat);
            lemma_mul_mod_noop_general(1, pow(b0, n0), M as int);
        }
        while n != 0
            invariant
                res < M as u64,
                a < M as u64,
                M >= 1,
                (res * pow(a as int, n as nat)) % (M as int) == pow(b0, n0) % (M as int),
            decreases n,
        {
            let ghost pre_res = res as int;
            let ghost pre_a = a as int;
            let ghost pre_n = n as nat;
            if n & 1 == 1 {
                proof {
                    assert(n % 2 == 1) by (bit_vector)
                        requires
                            n & 1 == 1,
                    ;
                    // pow(a, n) == a * pow(a, n - 1)
                    lemma_pow1(pre_a);
                    lemma_pow_adds(pre_a, 1nat, (pre_n - 1) as nat);
                    // fold a into the accumulator, mod-safely
                    lemma_mul_is_associative(pre_res, pre_a, pow(pre_a, (pre_n - 1) as nat));
                    lemma_mul_mod_noop_general(
                        pre_res * pre_a,
                        pow(pre_a, (pre_n - 1) as nat),
                        M as int,
                    );
                }
                proof {
                    vstd::arithmetic::mul::lemma_mul_upper_bound(
                        pre_res,
                        u32::MAX as int,
                        pre_a,
                        u32::MAX as int,
                    );
                    vstd::arithmetic::mul::lemma_mul_nonnegative(pre_res, pre_a);
                }
                res = res * a % (M as u64);
                proof {
                    lemma_mul_mod_noop_general(
                        (pre_res * pre_a) % (M as int),
                        pow(pre_a, (pre_n - 1) as nat),
                        M as int,
                    );
                }
            }
            proof {
                assert((n >> 1) == n / 2) by (bit_vector);
                assert(n & 1 != 1 ==> n % 2 == 0) by (bit_vector);
            }
            let ghost mid_res = res as int;
            let ghost m2 = pre_n / 2;
            proof {
                // pow(a, 2 * m2) == pow(a * a, m2)
                lemma_pow_multiplies(pre_a, 2nat, m2);
                lemma_pow1(pre_a);
                lemma_pow_adds(pre_a, 1nat, 1nat);
                assert(pow(pre_a, 2nat) == pre_a * pre_a);
                // replace the squared base by its reduction
                lemma_pow_mod_noop(pre_a * pre_a, m2, M as int);
                lemma_mul_mod_noop_general(mid_res, pow(pre_a * pre_a, m2), M as int);
                lemma_mul_mod_noop_general(
                    mid_res,
                    pow((pre_a * pre_a) % (M as int), m2),
                    M as int,
                );
                vstd::arithmetic::mul::lemma_mul_upper_bound(
                    pre_a,
                    u32::MAX as int,
                    pre_a,
                    u32::MAX as int,
                );
                vstd::arithmetic::mul::lemma_mul_nonnegative(pre_a, pre_a);
            }
            a = a * a % (M as u64);
            n = n >> 1;
        }
        proof {
            lemma_pow0(a as int);
            lemma_mul_mod_noop_general(res as int, 1, M as int);
            lemma_small_mod(res as nat, M as nat);
            vstd::arithmetic::mul::lemma_mul_basics(res as int);
        }
        ModNum { r: res as u32 }
    }

    /// The power `a^(M-2)`: the modular inverse when `M` is prime, by
    /// Fermat's little theorem.
    pub fn inv(self) -> (r: Self)
        requires
            self.inv_holds(),
            self.residue() != 0,
            M >= 2,
        ensures
            r.inv_holds(),
            r.residue() == pow(self.residue(), (M - 2) as nat) % (M as int),
    {
        self.pow((M - 2) as u64)
    }

    /// Modular division: multiplication by `rhs^(M-2)` (the inverse
    /// when `M` is prime).
    pub fn div(self, rhs: Self) -> (r: Self)
        requires
            self.inv_holds(),
            rhs.inv_holds(),
            rhs.residue() != 0,
            M >= 2,
        ensures
            r.inv_holds(),
            r.residue() == (self.residue() * (pow(rhs.residue(), (M - 2) as nat) % (M as int)))
                % (M as int),
    {
        let inv = rhs.inv();
        self.mul(inv)
    }

    /// Compound assignment form of `add`.
    pub fn add_assign(&mut self, rhs: Self)
        requires
            old(self).inv_holds(),
            rhs.inv_holds(),
        ensures
            final(self).inv_holds(),
            final(self).residue() == (old(self).residue() + rhs.residue()) % (M as int),
    {
        *self = self.add(rhs);
    }

    /// Compound assignment form of `sub`.
    pub fn sub_assign(&mut self, rhs: Self)
        requires
            old(self).inv_holds(),
            rhs.inv_holds(),
        ensures
            final(self).inv_holds(),
            final(self).residue() == (old(self).residue() - rhs.residue()) % (M as int),
    {
        *self = self.sub(rhs);
    }

    /// Compound assignment form of `mul`.
    pub fn mul_assign(&mut self, rhs: Self)
        requires
            old(self).inv_holds(),
            rhs.inv_holds(),
        ensures
            final(self).inv_holds(),
            final(self).residue() == (old(self).residue() * rhs.residue()) % (M as int),
    {
        *self = self.mul(rhs);
    }

    /// Compound assignment form of `div`.
    pub fn div_assign(&mut self, rhs: Self)
        requires
            old(self).inv_holds(),
            rhs.inv_holds(),
            rhs.residue() != 0,
            M >= 2,
        ensures
            final(self).inv_holds(),
            final(self).residue() == (old(self).residue() * (pow(
                rhs.residue(),
                (M - 2) as nat,
            ) % (M as int))) % (M as int),
    {
        *self = self.div(rhs);
    }

    /// Renders the raw residue in decimal.
    pub fn to_decimal_string(&self) -> (r: String)
        ensures
            r@.len() >= 1,
            forall|i: int| 0 <= i < r@.len() ==> is_dec_digit(#[trigger] r@[i]),
            dec_value(r@) == self.residue(),
            r@[0] == '0' ==> r@.len() == 1,
    {
        u64_to_decimal(self.r as u64)
    }

    /// Parses a decimal string (optionally prefixed by a plus sign) of
    /// any magnitude and reduces the parsed value modulo `M` digit by
    /// digit; only a malformed string is rejected.
    pub fn from_decimal_str(s: &str) -> (r: Result<Self, ParseError>)
        requires
            M >= 1,
        ensures
            r is Ok <==> valid_decimal(s@),
            r is Ok ==> r->Ok_0.inv_holds() && r->Ok_0.residue() == dec_value(dec_digits(s@))
                % (M as int),
    {
        let len = s.unicode_len();
        let mut start: usize = 0;
        if len > 0 && s.get_char(0) == '+' {
            start = 1;
        }
        proof {
            if start == 1 {
                assert(dec_digits(s@) =~= s@.subrange(1, s@.len() as int));
            } else {
                assert(dec_digits(s@) =~= s@);
            }
        }
        let ghost digits = dec_digits(s@);
        if start == len {
            return Err(ParseError::InvalidInput);
        }
        let mut acc: u32 = 0;
        let mut i: usize = start;
        proof {
            assert(digits.take(0) =~= Seq::<char>::empty());
            assert(dec_value(Seq::<char>::empty()) == 0);
            lemma_small_mod(0nat, M as nat);
        }
        while i < len
            invariant
                start <= i <= len,
                len == s@.len(),
                start == 0 || start == 1,
                digits == dec_digits(s@),
                digits.len() == len - start,
                forall|k: int| 0 <= k < i - start ==> is_dec_digit(#[trigger] digits[k]),
                M >= 1,
                acc < M,
                acc as int == dec_value(digits.take(i - start)) % (M as int),
            decreases len - i,
        {
            let c = s.get_char(i);
            if c < '0' || c > '9' {
                proof {
                    assert(digits[i - start] == c);
                    assert(!valid_decimal(s@)) by {
                        if valid_decimal(s@) {
                            assert(is_dec_digit(digits[i - start]));
                        }
                    }
                }
                return Err(ParseError::InvalidInput);
            }
            let d = c as u32 - '0' as u32;
            let ghost pre = acc as int;
            let ghost dv = dec_value(digits.take(i - start));
            proof {
                assert(digits[i - start] == c);
                assert(digits.take(i - start + 1).drop_last() =~= digits.take(i - start));
                lemma_dec_value_nonneg(digits.take(i - start));
                // folding the next digit commutes with the running reduction
                vstd::arithmetic::div_mod::lemma_mul_mod_noop_left(dv, 10, M as int);
                vstd::arithmetic::div_mod::lemma_add_mod_noop(pre * 10, d as int, M as int);
                vstd::arithmetic::div_mod::lemma_add_mod_noop(dv * 10, d as int, M as int);
                assert(((pre * 10 + d) % (M as int)) == (dv * 10 + d) % (M as int));
            }
            acc = ((acc as u64 * 10 + d as u64) % (M as u64)) as u32;
            i = i + 1;
        }
        proof {
            assert(digits.take(len - start) =~= digits);
            vstd::arithmetic::div_mod::lemma_mod_bound(
                dec_value(digits),
                M as int,
            );
            lemma_dec_value_nonneg(digits);
        }
        Ok(Self::new_unchecked(acc))
    }
}

} // verus!
