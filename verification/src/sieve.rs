//! Sieve of Eratosthenes, odd numbers only: a boolean table where
//! `true` marks a number that is not prime (0, 1, and every composite)
//! and `false` marks a prime.

use vstd::prelude::*;
use vstd::arithmetic::div_mod::{lemma_fundamental_div_mod, lemma_fundamental_div_mod_converse_mod};
use vstd::arithmetic::mul::{
    lemma_mul_is_associative, lemma_mul_is_commutative, lemma_mul_inequality,
    lemma_mul_strict_inequality, lemma_mul_is_distributive_sub,
};

verus! {

/// `p` is a prime number.
pub open spec fn is_prime(p: int) -> bool {
    2 <= p && forall|d: int| 2 <= d < p ==> #[trigger] (p % d) != 0
}

/// A product is divisible by its factor.
proof fn lemma_multiple_mod_zero(q: int, m: int)
    requires
        m > 0,
    ensures
        (q * m) % m == 0,
{
    lemma_fundamental_div_mod_converse_mod(q * m, m, q, 0);
}

/// Divisibility is transitive.
proof fn lemma_divides_transitive(j: int, d: int, e: int)
    requires
        d > 0,
        e > 0,
        j >= 0,
        j % d == 0,
        d % e == 0,
    ensures
        j % e == 0,
{
    let q1 = j / d;
    let q2 = d / e;
    lemma_fundamental_div_mod(j, d);
    lemma_fundamental_div_mod(d, e);
    assert(j == d * q1);
    assert(d == e * q2);
    lemma_mul_is_associative(e, q2, q1);
    assert(j == (e * q2) * q1);
    lemma_mul_is_commutative(e, q2 * q1);
    lemma_multiple_mod_zero(q2 * q1, e);
}

/// Every number at or above 2 that is not prime has a prime divisor,
/// no larger than the given divisor.
proof fn lemma_least_prime(j: int, d: int)
    requires
        2 <= d <= j,
        j % d == 0,
    ensures
        exists|p: int| is_prime(p) && 2 <= p <= d && #[trigger] (j % p) == 0,
    decreases d,
{
    if is_prime(d) {
        assert(is_prime(d) && 2 <= d <= d && j % d == 0);
    } else {
        let d1 = choose|d1: int| 2 <= d1 < d && #[trigger] (d % d1) == 0;
        lemma_divides_transitive(j, d, d1);
        lemma_least_prime(j, d1);
        let p = choose|p: int| is_prime(p) && 2 <= p <= d1 && #[trigger] (j % p) == 0;
        assert(is_prime(p) && 2 <= p <= d && j % p == 0);
    }
}

/// Every composite number has a prime divisor whose square does not
/// exceed it.
proof fn lemma_prime_divisor_small(j: int)
    requires
        2 <= j,
        !is_prime(j),
    ensures
        exists|p: int| is_prime(p) && #[trigger] (j % p) == 0 && p * p <= j && 2 <= p < j,
{
    let d = choose|d: int| 2 <= d < j && #[trigger] (j % d) == 0;
    let e = j / d;
    lemma_fundamental_div_mod(j, d);
    assert(j == d * e);
    vstd::arithmetic::div_mod::lemma_div_pos_is_pos(j, d);
    vstd::arithmetic::mul::lemma_mul_basics(d);
    assert(e >= 1) by {
        if e == 0 {
            vstd::arithmetic::mul::lemma_mul_by_zero_is_zero(d);
        }
    }
    assert(e >= 2) by {
        if e == 1 {
            assert(j == d);
        }
    }
    let d0: int = if d * d <= j {
        d
    } else {
        e
    };
    assert(2 <= d0 && j % d0 == 0 && d0 * d0 <= j) by {
        if d * d <= j {
        } else {
            // d * d > j == d * e, so e < d and e * e < e * d == j
            assert(e < d) by {
                if d <= e {
                    lemma_mul_inequality(d, e, d);
                    lemma_mul_is_commutative(e, d);
                }
            }
            lemma_mul_strict_inequality(e, d, e);
            lemma_mul_is_commutative(d, e);
            lemma_multiple_mod_zero(d, e);
        }
    }
    assert(d0 < j) by {
        lemma_mul_inequality(2, d0, d0);
    }
    lemma_least_prime(j, d0);
    let p = choose|p: int| is_prime(p) && 2 <= p <= d0 && #[trigger] (j % p) == 0;
    lemma_mul_inequality(p, d0, p);
    lemma_mul_inequality(p, d0, d0);
    lemma_mul_is_commutative(p, d0);
    assert(p * p <= d0 * d0);
    assert(is_prime(p) && j % p == 0 && p * p <= j && 2 <= p < j);
}

/// A prime divisor of an odd number is odd.
proof fn lemma_odd_divisor(j: int, p: int)
    requires
        j >= 0,
        p >= 2,
        j % p == 0,
        j % 2 == 1,
    ensures
        p % 2 == 1,
{
    if p % 2 == 0 {
        lemma_divides_transitive(j, p, 2);
    }
}

/// On the marking walk: every visited index is a proper multiple of `i`.
proof fn lemma_walk_composite(i: int, j: int)
    requires
        3 <= i,
        i * i <= j,
        (j - i * i) % (2 * i) == 0,
    ensures
        j % i == 0,
        j > i,
{
    let k = (j - i * i) / (2 * i);
    lemma_fundamental_div_mod(j - i * i, 2 * i);
    assert(j == i * i + (2 * i) * k);
    lemma_mul_is_associative(2, i, k);
    lemma_mul_is_commutative(i, 2 * k);
    lemma_mul_is_associative(i, 2, k);
    assert(j == i * i + i * (2 * k));
    vstd::arithmetic::mul::lemma_mul_is_distributive_add(i, i, 2 * k);
    assert(j == i * (i + 2 * k));
    lemma_mul_is_commutative(i, i + 2 * k);
    lemma_multiple_mod_zero(i + 2 * k, i);
    lemma_mul_inequality(3, i, i);
}

/// An odd multiple of an odd `i`, at or past `i * i`, lies on the
/// marking walk that starts at `i * i` and steps by `2 * i`.
proof fn lemma_on_walk(i: int, j: int)
    requires
        3 <= i,
        i % 2 == 1,
        j % 2 == 1,
        j % i == 0,
        i * i <= j,
    ensures
        (j - i * i) % (2 * i) == 0,
{
    let m = j / i;
    lemma_fundamental_div_mod(j, i);
    assert(j == i * m);
    assert(m % 2 == 1) by {
        if m % 2 == 0 {
            let q = m / 2;
            lemma_fundamental_div_mod(m, 2);
            assert(m == 2 * q);
            lemma_mul_is_associative(i, 2, q);
            lemma_mul_is_commutative(i, 2);
            lemma_mul_is_associative(2, i, q);
            assert(j == 2 * (i * q));
            lemma_mul_is_commutative(2, i * q);
            lemma_multiple_mod_zero(i * q, 2);
        }
    }
    assert(m >= i) by {
        if m < i {
            lemma_mul_strict_inequality(m, i, i);
            lemma_mul_is_commutative(m, i);
        }
    }
    lemma_mul_is_distributive_sub(i, m, i);
    assert(j - i * i == i * (m - i));
    let k = (m - i) / 2;
    lemma_fundamental_div_mod(m - i, 2);
    assert(m - i == 2 * k);
    lemma_mul_is_associative(i, 2, k);
    lemma_mul_is_commutative(i, 2);
    lemma_mul_is_associative(2, i, k);
    assert(j - i * i == (2 * i) * k);
    lemma_multiple_mod_zero(k, 2 * i);
    lemma_mul_is_commutative(k, 2 * i);
}

/// Two distinct multiples of `m` lie at least `m` apart.
proof fn lemma_progression_gap(a: int, b: int, m: int)
    requires
        m > 0,
        a % m == 0,
        b % m == 0,
        b < a,
    ensures
        a - b >= m,
{
    let qa = a / m;
    let qb = b / m;
    lemma_fundamental_div_mod(a, m);
    lemma_fundamental_div_mod(b, m);
    assert(a == m * qa);
    assert(b == m * qb);
    assert(qa > qb) by {
        if qa <= qb {
            lemma_mul_inequality(qa, qb, m);
            lemma_mul_is_commutative(qa, m);
            lemma_mul_is_commutative(qb, m);
        }
    }
    lemma_mul_is_distributive_sub(m, qa, qb);
    lemma_mul_inequality(1, qa - qb, m);
    lemma_mul_is_commutative(qa - qb, m);
    vstd::arithmetic::mul::lemma_mul_basics(m);
}

/// Table of the first `n` numbers: `true` at 0, 1 and every composite,
/// `false` exactly at the primes below `n`.
pub fn eratosthenes(n: usize) -> (r: Vec<bool>)
    requires
        2 <= n,
        n <= usize::MAX / 3,
    ensures
        r@.len() == n,
        forall|j: int| 0 <= j < n ==> (#[trigger] r@[j] <==> !is_prime(j)),
{
    let mut sieve: Vec<bool> = Vec::new();
    let mut t: usize = 0;
    while t < n
        invariant
            sieve@.len() == t,
            t <= n,
            forall|k: int| 0 <= k < t ==> !sieve@[k],
        decreases n - t,
    {
        sieve.push(false);
        t = t + 1;
    }
    sieve[0] = true;
    sieve[1] = true;
    // pre-mark the even numbers from 4 on
    let mut j: usize = 4;
    while j < n
        invariant
            sieve@.len() == n,
            2 <= n <= usize::MAX / 3,
            4 <= j,
            j % 2 == 0,
            sieve@[0] && sieve@[1],
            forall|k: int| 4 <= k < j && k < n && k % 2 == 0 ==> #[trigger] sieve@[k],
            forall|k: int|
                0 <= k < n && #[trigger] sieve@[k] ==> k == 0 || k == 1 || (4 <= k && k % 2 == 0),
        decreases n + 2 - j,
    {
        sieve[j] = true;
        j = j + 2;
    }
    proof {
        assert forall|k: int| 0 <= k < n && #[trigger] sieve@[k] implies !is_prime(k) by {
            if 4 <= k && k % 2 == 0 {
                assert(2 <= 2 < k && k % 2 == 0);
            }
        }
    }
    let mut i: usize = 3;
    while i <= (n - 1) / i
        invariant
            sieve@.len() == n,
            2 <= n <= usize::MAX / 3,
            3 <= i,
            i % 2 == 1,
            sieve@[0] && sieve@[1],
            forall|k: int| 4 <= k < n && k % 2 == 0 ==> #[trigger] sieve@[k],
            forall|k: int| 0 <= k < n && #[trigger] sieve@[k] ==> !is_prime(k),
            forall|k: int, p: int|
                #![trigger sieve@[k], is_prime(p)]
                0 <= k < n && k % 2 == 1 && is_prime(p) && 3 <= p < i && k % p == 0 && p * p <= k
                    ==> sieve@[k],
        decreases n + 2 - i,
    {
        proof {
            // i <= (n - 1) / i  implies  i * i <= n - 1
            let ni = n - 1 as int;
            let ii = i as int;
            lemma_fundamental_div_mod(ni, ii);
            lemma_mul_inequality(ii, ni / ii, ii);
            lemma_mul_is_commutative(ni / ii, ii);
            assert(i * i <= n - 1);
        }
        if !sieve[i] {
            proof {
                // an unmarked odd number at or above 3 is prime
                if !is_prime(i as int) {
                    lemma_prime_divisor_small(i as int);
                    let p = choose|p: int|
                        is_prime(p) && #[trigger] ((i as int) % p) == 0 && p * p <= i && 2 <= p
                            < i;
                    lemma_odd_divisor(i as int, p);
                    assert(sieve@[i as int]);
                }
            }
            let mut j = i * i;
            proof {
                lemma_fundamental_div_mod_converse_mod(0, 2 * (i as int), 0, 0);
                vstd::arithmetic::mul::lemma_mul_by_zero_is_zero(2 * (i as int));
            }
            while j < n
                invariant
                    sieve@.len() == n,
                    2 <= n <= usize::MAX / 3,
                    3 <= i,
                    i % 2 == 1,
                    i * i <= j,
                    i < n,
                    is_prime(i as int),
                    (j - i * i) % (2 * i) == 0,
                    sieve@[0] && sieve@[1],
                    forall|k: int| 4 <= k < n && k % 2 == 0 ==> #[trigger] sieve@[k],
                    forall|k: int| 0 <= k < n && #[trigger] sieve@[k] ==> !is_prime(k),
                    forall|k: int, p: int|
                        #![trigger sieve@[k], is_prime(p)]
                        0 <= k < n && k % 2 == 1 && is_prime(p) && 3 <= p < i && k % p == 0 && p
                            * p <= k ==> sieve@[k],
                    forall|k: int|
                        i * i <= k < j && k < n && (k - i * i) % (2 * i) == 0
                            ==> #[trigger] sieve@[k],
                decreases n + 2 * i - j,
            {
                proof {
                    lemma_walk_composite(i as int, j as int);
                }
                sieve[j] = true;
                proof {
                    vstd::arithmetic::div_mod::lemma_mod_add_multiples_vanish(
                        j - i * i,
                        2 * (i as int),
                    );
                    assert forall|k: int|
                        i * i <= k < j + 2 * i && k < n && (k - i * i) % (2 * i) == 0
                            implies #[trigger] sieve@[k] by {
                        if k > j {
                            lemma_progression_gap(k - i * i, j - i * i, 2 * (i as int));
                        }
                    }
                }
                j = j + 2 * i;
            }
            proof {
                // every odd multiple of i at or past i * i and below n is
                // now marked
                assert forall|k: int, p: int|
                    #![trigger sieve@[k], is_prime(p)]
                    0 <= k < n && k % 2 == 1 && is_prime(p) && 3 <= p < i + 2 && k % p == 0 && p
                        * p <= k implies sieve@[k] by {
                    if p >= i {
                        if p == i + 1 {
                            assert(p % 2 == 0);
                            assert(p % 2 != 0);
                        }
                        assert(p == i);
                        lemma_on_walk(i as int, k);
                    }
                }
            }
        } else {
            proof {
                assert forall|k: int, p: int|
                    #![trigger sieve@[k], is_prime(p)]
                    0 <= k < n && k % 2 == 1 && is_prime(p) && 3 <= p < i + 2 && k % p == 0 && p
                        * p <= k implies sieve@[k] by {
                    if p >= i {
                        if p == i + 1 {
                            assert(p % 2 == 0);
                            assert(p % 2 != 0);
                        }
                        assert(p == i);
                        assert(!is_prime(i as int));
                    }
                }
            }
        }
        i = i + 2;
    }
    proof {
        // the loop stopped with i * i >= n
        let ni = n - 1 as int;
        let ii = i as int;
        lemma_fundamental_div_mod(ni, ii);
        assert(i * i > n - 1) by {
            assert(ni / ii <= ii - 1);
            lemma_mul_inequality(ni / ii, ii - 1, ii);
            lemma_mul_is_commutative(ni / ii, ii);
            lemma_mul_is_commutative(ii - 1, ii);
            lemma_mul_is_distributive_sub(ii, ii, 1);
            vstd::arithmetic::mul::lemma_mul_basics(ii);
        }
        assert forall|k: int| 0 <= k < n implies (#[trigger] sieve@[k] <==> !is_prime(k)) by {
            if !is_prime(k) && k >= 2 && !sieve@[k] {
                if k % 2 == 0 {
                    assert(k != 2 ==> 4 <= k);
                    assert(is_prime(2)) by {
                        assert(forall|d: int| 2 <= d < 2 ==> #[trigger] (2int % d) != 0);
                    }
                    assert(k >= 4);
                } else {
                    lemma_prime_divisor_small(k);
                    let p = choose|p: int|
                        is_prime(p) && #[trigger] (k % p) == 0 && p * p <= k && 2 <= p < k;
                    lemma_odd_divisor(k, p);
                    assert(p * p <= k <= n - 1 < i * i);
                    assert(p < i) by {
                        if p >= i {
                            lemma_mul_inequality(i as int, p, i as int);
                            lemma_mul_inequality(i as int, p, p);
                            lemma_mul_is_commutative(i as int, p);
                        }
                    }
                    assert(sieve@[k]);
                }
            }
        }
    }
    sieve
}

} // verus!
