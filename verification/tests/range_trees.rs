use algokit::bit_tree::{BinaryIndexedTree, LessThanI32};
use algokit::fenwick::FenwickTree;
use algokit::monoid::{AddI32, MaxI32, MinI32, MinMaxI32, MaxUsize};
use algokit::seg::SegmentTree;
use algokit::seg_lazy::{LazySeg, SetI32};
use algokit::sparse::SparseTable;

#[test]
fn prefix_sum() {
    let data = [2, -1, 3, 0, 3, -7, 10, 9];
    let mut pref = vec![0; data.len() + 1];
    let mut bit = BinaryIndexedTree::<i32, AddI32>::new(data.len());
    for (i, x) in data.into_iter().enumerate() {
        pref[i + 1] = pref[i] + x;
        bit.update(i, x);
    }
    for (i, x) in pref.into_iter().enumerate() {
        assert_eq!(x, bit.prefix(i));
    }
}

#[test]
fn prefix_max() {
    let data = [2, -1, 3, 0, 3, -7, 10, 9];
    let mut pref = vec![i32::MIN; data.len() + 1];
    let mut bit = BinaryIndexedTree::<i32, MaxI32>::new(data.len());
    for (i, x) in data.into_iter().enumerate() {
        pref[i + 1] = pref[i].max(x);
        bit.update(i, x);
    }
    for (i, x) in pref.into_iter().enumerate() {
        assert_eq!(x, bit.prefix(i));
    }
}

#[test]
fn partition_point() {
    let data = [0, 2, 0, 1, 1, 0, 2, 0];
    let mut bit = BinaryIndexedTree::<i32, AddI32>::new(data.len());
    for (i, &x) in data.iter().enumerate() {
        bit.update(i, x);
    }
    assert!(data.iter().all(|&x| x >= 0));
    for i in 0..=data.iter().sum::<i32>() + 1 {
        let pred = LessThanI32 { bound: i };
        let (j, acc) = bit.partition_point(&pred);
        let acc_naive = data.iter().take(j).sum::<i32>();
        assert_eq!(acc, acc_naive);
        assert!(j == data.len() || !(bit.prefix(j + 1) < i));
    }
}

#[test]
fn prefix_minmax_pairs() {
    let data = [2, -1, 3, 0, 3, -7, 10, 9];
    let mut bit = BinaryIndexedTree::<(i32, i32), MinMaxI32>::new(data.len());
    for (i, x) in data.into_iter().enumerate() {
        bit.update(i, (x, x));
    }
    let mut lo = i32::MAX;
    let mut hi = i32::MIN;
    assert_eq!(bit.prefix(0), (i32::MAX, i32::MIN));
    for i in 0..data.len() {
        lo = lo.min(data[i]);
        hi = hi.max(data[i]);
        assert_eq!(bit.prefix(i + 1), (lo, hi));
    }
}

#[test]
fn bulk_build_matches_updates() {
    let data = vec![2, -1, 3, 0, 3, -7, 10, 9];
    let built = BinaryIndexedTree::<i32, AddI32>::from(data.clone());
    let mut updated = BinaryIndexedTree::<i32, AddI32>::new(data.len());
    for (i, &x) in data.iter().enumerate() {
        updated.update(i, x);
    }
    for i in 0..=data.len() {
        assert_eq!(built.prefix(i), updated.prefix(i));
    }
}

#[test]
fn bit_clear_resets() {
    let mut bit = BinaryIndexedTree::<i32, AddI32>::new(5);
    bit.update(3, 7);
    assert_eq!(bit.prefix(5), 7);
    bit.clear();
    assert_eq!(bit.prefix(5), 0);
    assert_eq!(bit.len(), 5);
}

#[test]
fn fenwick_sums() {
    let data = [5i64, -2, 0, 7, 1, -9];
    let mut fw = FenwickTree::new(data.len());
    assert_eq!(fw.len(), data.len());
    for (i, &x) in data.iter().enumerate() {
        fw.add(i, x);
    }
    for l in 0..=data.len() {
        for r in l..=data.len() {
            let naive: i64 = data[l..r].iter().sum();
            assert_eq!(fw.range_sum(l, r), naive);
        }
    }
    fw.add(2, 100);
    assert_eq!(fw.prefix_sum(3), 5 - 2 + 100);
    fw.clear();
    assert_eq!(fw.prefix_sum(data.len()), 0);
}

#[test]
fn seg_test() {}

#[test]
fn seg_prod_matches_naive() {
    let data = [4i32, -3, 7, 0, 2];
    let mut seg = SegmentTree::<i32, AddI32>::new(data.len());
    for (i, &x) in data.iter().enumerate() {
        seg.set(i, x);
    }
    for l in 0..=data.len() {
        for r in l..=data.len() {
            let naive: i32 = data[l..r].iter().sum();
            assert_eq!(seg.prod(l, r), naive);
        }
    }
}

#[test]
fn seg_build_matches_sets() {
    let data = [4i32, -3, 7, 0, 2, 2, 8];
    let mut by_build = SegmentTree::<i32, MaxI32>::new(data.len());
    for (i, &x) in data.iter().enumerate() {
        by_build.set_leaf(i, x);
    }
    by_build.build();
    let mut by_sets = SegmentTree::<i32, MaxI32>::new(data.len());
    for (i, &x) in data.iter().enumerate() {
        by_sets.set(i, x);
    }
    for l in 0..=data.len() {
        for r in l..=data.len() {
            assert_eq!(by_build.prod(l, r), by_sets.prod(l, r));
        }
    }
    by_build.clear();
    assert_eq!(by_build.prod(0, data.len()), i32::MIN);
}

#[test]
fn sparse_test() {
    let a = vec![-1, 3, 0, 4, 9, 2, 2, 8];
    let sparse = SparseTable::<i32, MinI32>::new(a.clone());
    for j in 0..a.len() {
        for i in 0..j {
            assert_eq!(*a[i..j].iter().min().unwrap(), sparse.prod(i, j));
        }
    }
    let a = (0..3_usize).cycle().take(9).collect::<Vec<_>>();
    let sparse = SparseTable::<usize, MaxUsize>::new(a.clone());
    for j in 0..a.len() {
        for i in 0..j {
            assert_eq!(*a[i..j].iter().max().unwrap(), sparse.prod(i, j));
        }
    }
}

#[test]
fn sparse_empty_range_is_identity() {
    let a = vec![5, 1, 4];
    let sparse = SparseTable::<i32, MinI32>::new(a);
    assert_eq!(sparse.prod(2, 2), i32::MAX);
    assert_eq!(sparse.len(), 3);
}

#[test]
fn lazy_assign_and_query() {
    // range assignment over the maximum monoid
    let data = [3i32, 1, 4, 1, 5, 9, 2, 6];
    let mut seg = LazySeg::<i32, Option<i32>, MaxI32, SetI32>::new(data.len());
    for (i, &x) in data.iter().enumerate() {
        seg.set_leaf(i, x);
    }
    seg.build();
    assert_eq!(seg.product(0, 8), 9);
    assert_eq!(seg.product(0, 4), 4);
    seg.apply(2, 6, Some(7));
    // contents now [3, 1, 7, 7, 7, 7, 2, 6]
    assert_eq!(seg.product(0, 8), 7);
    assert_eq!(seg.product(0, 2), 3);
    assert_eq!(seg.product(4, 8), 7);
    assert_eq!(seg.product(6, 8), 6);
    seg.apply(0, 8, Some(-1));
    assert_eq!(seg.product(0, 8), -1);
    assert_eq!(seg.product(3, 5), -1);
}
