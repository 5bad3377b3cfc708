use algokit::csr::Csr;
use algokit::dsu::DisjointSet;
use algokit::grid::Grid;
use algokit::hld::Hld;
use algokit::matching::BipartiteMatching;

#[test]
fn dsu_test() {
    let n = 8;
    let mut dsu = DisjointSet::new(n);
    assert!(dsu.unite(0, 1));
    assert!(dsu.unite(1, 2));
    assert!(!dsu.unite(2, 0));
    assert!(dsu.same(2, 0));
    assert!(dsu.unite(6, 7));
    assert!(dsu.unite(4, 5));
    assert_eq!(dsu.size_of(0), 3);
    assert_eq!(dsu.size_of(1), 3);
    assert_eq!(dsu.size_of(2), 3);
    assert_eq!(dsu.size_of(3), 1);
    assert_eq!(dsu.num_components(), 4);
    dsu.clear();
    assert_eq!(dsu.num_components(), 8);
}

#[test]
fn from_directed_edges() {
    let edges = vec![(0, 2, -1), (2, 4, -2), (4, 0, -3), (0, 3, -4), (3, 3, -5)];
    let csr = Csr::from_directed_edges(5, edges.clone());
    assert_eq!(csr.neighbors_vec(0), [(3, -4), (2, -1)]);
    assert_eq!(csr.neighbors_vec(1), []);
    assert_eq!(csr.neighbors_vec(2), [(4, -2)]);
    assert_eq!(csr.neighbors_vec(3), [(3, -5)]);
    assert_eq!(csr.neighbors_vec(4), [(0, -3)]);
}

#[test]
fn from_undirected_edges() {
    let edges = vec![(0, 2, -1), (2, 4, -2), (4, 0, -3), (0, 3, -4), (3, 3, -5)];
    let csr = Csr::from_undirected_edges(5, edges.clone());
    assert_eq!(csr.neighbors_vec(0), [(3, -4), (4, -3), (2, -1)]);
    assert_eq!(csr.neighbors_vec(1), []);
    assert_eq!(csr.neighbors_vec(2), [(4, -2), (0, -1)]);
    assert_eq!(csr.neighbors_vec(3), [(3, -5), (3, -5), (0, -4)]);
    assert_eq!(csr.neighbors_vec(4), [(0, -3), (2, -2)]);
}

#[test]
fn unit_weight() {
    let edges = vec![(0, 0, ())];
    let csr = Csr::from_directed_edges(1, edges);
    let edge = csr.neighbor(0, 0);
    assert_eq!(std::mem::size_of_val(&edge), std::mem::size_of::<usize>());
}

#[test]
fn csr_degrees() {
    let edges = vec![(0, 2, 1u32), (0, 1, 2), (2, 0, 3)];
    let csr = Csr::from_directed_edges(3, edges);
    assert_eq!(csr.num_nodes(), 3);
    assert_eq!(csr.degree(0), 2);
    assert_eq!(csr.degree(1), 0);
    assert_eq!(csr.degree(2), 1);
}

#[test]
fn index() {
    let array_2d = [[1, 2, 3, 4], [5, 6, 7, 8], [9, 10, 11, 12]];
    let mut grid = Grid::new(3, 4, 0);
    for (i, v) in array_2d.iter().enumerate() {
        for (j, x) in v.iter().enumerate() {
            grid.set(i, j, *x);
        }
    }
    for (i, v) in array_2d.iter().enumerate() {
        for (j, x) in v.iter().enumerate() {
            assert_eq!(grid.get(i, j), *x);
        }
    }
}

#[test]
fn grid_iterator() {
    let array_2d = [[1, 2, 3, 4], [5, 6, 7, 8], [9, 10, 11, 12]];
    let mut grid = Grid::new(3, 4, 0);
    for (i, v) in array_2d.iter().enumerate() {
        for (j, x) in v.iter().enumerate() {
            grid.set(i, j, *x);
        }
    }
    let mut it = grid.cells();
    for i in 0..3 {
        for j in 0..4 {
            let value = i * 4 + j + 1;
            let item = it.next();
            assert_eq!(item, Some(((i, j), value)));
        }
    }
    assert!(it.next().is_none());
}

#[test]
fn hld_test() {}

#[test]
fn hld_small_tree() {
    // 0 - 1, 0 - 2, 1 - 3, 1 - 4 (undirected adjacency)
    let adj = vec![vec![1, 2], vec![0, 3, 4], vec![0], vec![1], vec![1]];
    let hld = Hld::new(adj);
    assert_eq!(hld.get_lca(3, 4), 1);
    assert_eq!(hld.get_lca(3, 2), 0);
    assert_eq!(hld.get_lca(4, 1), 1);
    assert_eq!(hld.get_lca(0, 4), 0);
    assert_eq!(hld.subtree_size(0), 5);
    assert_eq!(hld.subtree_size(1), 3);
    assert_eq!(hld.parent(3), 1);
    assert_eq!(hld.chain_head(0), 0);
}

#[test]
fn hld_positions_form_blocks() {
    // a chain 0 - 1 - 2 with a twig 1 - 3: heavy paths stay contiguous
    let adj = vec![vec![1], vec![0, 2, 3], vec![1], vec![1]];
    let hld = Hld::new(adj);
    let n = 4;
    // positions are a permutation of 0..n with the root first
    let mut seen = vec![false; n];
    for u in 0..n {
        let p = hld.position(u);
        assert!(p < n);
        assert!(!seen[p]);
        seen[p] = true;
    }
    assert_eq!(hld.position(0), 0);
    // every subtree occupies one contiguous block of positions
    for u in 0..n {
        let start = hld.position(u);
        let size = hld.subtree_size(u);
        for v in 0..n {
            let inside = match v {
                0 => u == 0,
                1 => u == 0 || u == 1,
                _ => u == 0 || u == 1 || u == v,
            };
            let pv = hld.position(v);
            assert_eq!(inside, start <= pv && pv < start + size);
        }
    }
    // node 1 has two children; the heavier one (node 2 and node 3 tie
    // at size one, so whichever was picked) follows it immediately
    let h1 = hld.position(1) + 1;
    assert!(h1 == hld.position(2) || h1 == hld.position(3));
    let next = if h1 == hld.position(2) { 2 } else { 3 };
    assert_eq!(hld.chain_head(next), hld.chain_head(1));
}

#[test]
fn matching_small() {
    let mut bm = BipartiteMatching::new(3, 3);
    bm.add_edge(0, 0);
    bm.add_edge(0, 1);
    bm.add_edge(1, 0);
    bm.add_edge(2, 1);
    let wife = bm.maximum_matching();
    assert_eq!(wife.len(), 3);
    // two pairings are the most this instance allows
    let matched = wife.iter().filter(|&&v| v != usize::MAX).count();
    assert_eq!(matched, 2);
    // no right node is used twice
    let mut used = vec![false; 3];
    for &v in wife.iter() {
        if v != usize::MAX {
            assert!(!used[v]);
            used[v] = true;
        }
    }
}

#[test]
fn matching_maximal() {
    let mut bm = BipartiteMatching::new(2, 1);
    bm.add_edge(0, 0);
    bm.add_edge(1, 0);
    let wife = bm.maximum_matching();
    let matched = wife.iter().filter(|&&v| v != usize::MAX).count();
    assert_eq!(matched, 1);
}
