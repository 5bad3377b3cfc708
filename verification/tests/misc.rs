use algokit::gosper::Gosper;
use algokit::xrsr::Xrsr;

#[test]
fn xrsr_test() {}

#[test]
fn xrsr_deterministic() {
    let mut a = Xrsr::new(12345, 67890);
    let mut b = Xrsr::new(12345, 67890);
    for _ in 0..10 {
        assert_eq!(a.gen(), b.gen());
    }
    let mut c = Xrsr::new(1, 0);
    // one step by hand: result is the sum of the state words
    assert_eq!(c.gen(), 1);
}

#[test]
fn xrsr_shuffle_permutes() {
    let mut rng = Xrsr::new(42, 4242);
    let mut data: Vec<u32> = (0..50).collect();
    rng.shuffle(&mut data);
    assert_eq!(data.len(), 50);
    let mut sorted = data.clone();
    sorted.sort_unstable();
    let expect: Vec<u32> = (0..50).collect();
    assert_eq!(sorted, expect);
}

#[test]
fn xrsr_shuffle_deterministic() {
    let mut r1 = Xrsr::new(7, 9);
    let mut d1: Vec<u32> = (0..20).collect();
    r1.shuffle(&mut d1);
    let mut r2 = Xrsr::new(7, 9);
    let mut d2: Vec<u32> = (0..20).collect();
    r2.shuffle(&mut d2);
    assert_eq!(d1, d2);
    // the generators end in the same state as well
    assert_eq!(r1.gen(), r2.gen());
}

#[test]
fn gosper_zero_population() {
    let mut it = Gosper::new(5, 0);
    assert_eq!(it.next(), Some(0));
    assert_eq!(it.next(), None);
    assert_eq!(it.next(), None);
}

#[test]
fn gosper_enumerates_in_order() {
    let mut it = Gosper::new(5, 2);
    let mut got = Vec::new();
    while let Some(m) = it.next() {
        got.push(m);
    }
    let expect: Vec<u32> = (0u32..32).filter(|m| m.count_ones() == 2).collect();
    assert_eq!(got, expect);
}

#[test]
fn gosper_full_population() {
    let mut it = Gosper::new(3, 3);
    assert_eq!(it.next(), Some(7));
    assert_eq!(it.next(), None);
}
