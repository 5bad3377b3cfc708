use algokit::hashring::H;
use algokit::matrix::{Matrix, WrapI32};
use algokit::modnum::{ModNum, ParseError};
use algokit::sieve::eratosthenes;
use std::collections::HashSet;

#[test]
fn comparision_operators() {
    let x = H::default();
    let y = H::new(1);
    let z = H::new(u64::MAX);
    assert_ne!(x, y);
    assert_ne!(y, z);
    assert_eq!(z, x);

    let mut a = [x, H::new(2), y, z, H::new(3)];
    a.sort_unstable_by_key(|h| h.get());
    assert_eq!(a, [H::new(0), H::new(0), H::new(1), H::new(2), H::new(3)]);
}

#[test]
fn arithmetic_operators() {
    let x = H::new(100);
    let y = H::new(u64::MAX - 100);
    let z = H::new(u64::MAX - 99);
    assert_eq!(x.add(y), H::new(0));
    assert_eq!(x.add(z), H::new(1));

    let x = H::new(100);
    let y = H::new(101);
    assert_eq!(x.sub(x), H::new(0));
    assert_eq!(x.sub(y), H::new(u64::MAX - 1));

    let b_64: u64 = 1_000_000_000;
    let b_128: u128 = 1_000_000_000;
    let x = H::new(b_64);
    assert_eq!(x.mul(x).get(), b_64 * b_64);
    assert_eq!(
        x.mul(x).mul(x).get(),
        (b_128 * b_128 * b_128 % u64::MAX as u128) as u64
    );
}

#[test]
fn hash() {
    let mut set = HashSet::new();
    assert_eq!(set.insert(H::new(0).get()), true);
    assert_eq!(set.insert(H::new(u64::MAX).get()), false);
    assert_eq!(set.insert(H::new(1).get()), true);
}

#[test]
fn ring_ordering_is_canonical() {
    let zero_a = H::new(0);
    let zero_b = H::new(u64::MAX);
    let one = H::new(1);
    assert!(!(zero_a < zero_b) && !(zero_b < zero_a));
    assert!(zero_b < one);
    assert!(one > zero_a);
}

#[test]
fn ops_add() {
    let data_a = [[1, 2, 3], [4, 5, 6]];
    let data_b = [[10, 20, 30], [40, 50, 60]];
    let data_c = [[11, 22, 33], [44, 55, 66]];
    let a = Matrix::<2, 3, i32, WrapI32>::new(data_a);
    let b = Matrix::<2, 3, i32, WrapI32>::new(data_b);
    let c = a.add(&b);
    for i in 0..2 {
        for j in 0..3 {
            assert_eq!(c.get(i, j), data_c[i][j]);
        }
    }
}

#[test]
fn ops_mul() {
    let data_a = [[1, -2], [3, -4], [5, -6]];
    let data_b = [[1, -3, 5, -7], [-2, 4, -6, 8]];
    let data_c = [[5, -11, 17, -23], [11, -25, 39, -53], [17, -39, 61, -83]];
    let a = Matrix::<3, 2, i32, WrapI32>::new(data_a);
    let b = Matrix::<2, 4, i32, WrapI32>::new(data_b);
    let c = a.mul(&b);
    for i in 0..3 {
        for j in 0..4 {
            assert_eq!(c.get(i, j), data_c[i][j]);
        }
    }
}

#[test]
fn modular_arithmetic() {
    type M7 = ModNum<1_000_000_007>;
    let a = M7::new(1_000_000_006);
    let b = M7::new(5);
    assert_eq!(a.add(b).value(), 4);
    assert_eq!(b.sub(a).value(), 6);
    assert_eq!(a.mul(b).value(), 1_000_000_007 - 5);
    assert_eq!(M7::new(2).pow(30).value(), 73741817);
    assert_eq!(M7::new(2).pow(0).value(), 1);
    // 3 * inv(3) == 1 for a prime modulus
    let three = M7::new(3);
    assert_eq!(three.mul(three.inv()).value(), 1);
    assert_eq!(M7::new(6).div(M7::new(3)).value(), 2);
    assert_eq!(M7::new(0).neg().value(), 0);
    assert_eq!(M7::new(1).neg().value(), 1_000_000_006);
    let mut c = M7::new(10);
    c.add_assign(M7::new(5));
    assert_eq!(c.value(), 15);
    c.sub_assign(M7::new(20));
    assert_eq!(c.value(), 1_000_000_002);
    c.mul_assign(M7::new(0));
    assert_eq!(c.value(), 0);
}

#[test]
fn modular_parsing() {
    type M97 = ModNum<97>;
    assert_eq!(M97::from_decimal_str("100").unwrap().value(), 3);
    assert_eq!(M97::from_decimal_str("+96").unwrap().value(), 96);
    assert_eq!(M97::from_decimal_str("0").unwrap().value(), 0);
    assert_eq!(
        M97::from_decimal_str("4294967295").unwrap().value(),
        (u32::MAX % 97)
    );
    assert_eq!(M97::from_decimal_str(""), Err(ParseError::InvalidInput));
    assert_eq!(M97::from_decimal_str("+"), Err(ParseError::InvalidInput));
    assert_eq!(M97::from_decimal_str("12a"), Err(ParseError::InvalidInput));
    assert_eq!(M97::from_decimal_str("-5"), Err(ParseError::InvalidInput));
    // values of any magnitude are reduced, never rejected
    assert_eq!(M97::from_decimal_str("4294967296").unwrap().value(), 35);
    assert_eq!(
        M97::from_decimal_str("18446744073709551616").unwrap().value(),
        61
    );
    assert_eq!(M97::from_decimal_str("00097").unwrap().value(), 0);
}

#[test]
fn decimal_rendering() {
    type M97 = ModNum<97>;
    assert_eq!(M97::new(0).to_decimal_string(), "0");
    assert_eq!(M97::new(103).to_decimal_string(), "6");
    assert_eq!(M97::new(96).to_decimal_string(), "96");
    assert_eq!(H::new(u64::MAX).to_decimal_string(), "0");
    assert_eq!(H::new(1_000_000_000).to_decimal_string(), "1000000000");
    // rendering then parsing gives the value back
    let v = M97::new(42);
    assert_eq!(
        M97::from_decimal_str(&v.to_decimal_string()).unwrap().value(),
        v.value()
    );
}

#[test]
fn sieve_small_values() {
    let sieve = eratosthenes(30);
    let primes: Vec<usize> = (0..30).filter(|&i| !sieve[i]).collect();
    assert_eq!(primes, [2, 3, 5, 7, 11, 13, 17, 19, 23, 29]);
    assert!(sieve[0] && sieve[1]);
    let sieve = eratosthenes(2);
    assert_eq!(sieve, [true, true]);
}
