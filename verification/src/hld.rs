//! Heavy-light decomposition of a rooted tree.
//!
//! From the adjacency list of an undirected tree rooted at node 0,
//! computes for every node its parent, its subtree size, its chain
//! head and its preorder position. Positions are assigned by a descent
//! that always places the heaviest child (largest subtree) right after
//! its parent on the same chain, so every subtree and every heavy
//! chain occupies one contiguous block of positions.

use vstd::prelude::*;

verus! {

/// `(cp, dep)` certify that `adj` is the adjacency list of a tree
/// rooted at node 0: `cp` maps every non-root to its parent, `dep` to
/// its depth, each listed neighbor is the parent or a child, every
/// child is listed under its parent, and no row repeats a neighbor.
pub open spec fn tree_cert(adj: Seq<Vec<usize>>, cp: Seq<int>, dep: Seq<int>) -> bool {
    let n = adj.len() as int;
    &&& 1 <= n
    &&& cp.len() == n
    &&& dep.len() == n
    &&& cp[0] == 0
    &&& dep[0] == 0
    &&& forall|v: int| 0 <= v < n ==> 0 <= #[trigger] dep[v] < n
    &&& forall|v: int|
        1 <= v < n ==> 0 <= #[trigger] cp[v] < n && dep[v] == dep[cp[v]] + 1
    &&& forall|u: int, k: int|
        0 <= u < n && 0 <= k < adj[u]@.len() ==> #[trigger] adj[u]@[k] < n && ((adj[u]@[k] != 0
            && cp[adj[u]@[k] as int] == u) || (u != 0 && cp[u] == adj[u]@[k] as int))
    &&& forall|v: int| 1 <= v < n ==> #[trigger] adj[cp[v]]@.contains(v as usize)
    &&& forall|u: int, k1: int, k2: int|
        #![trigger adj[u]@[k1], adj[u]@[k2]]
        0 <= u < n && 0 <= k1 < k2 < adj[u]@.len() ==> adj[u]@[k1] != adj[u]@[k2]
}

/// `a` is `v` itself or an ancestor of `v` under the parent map `cp`,
/// reachable within `fuel` steps.
pub open spec fn anc_in(cp: Seq<int>, a: int, v: int, fuel: nat) -> bool
    decreases fuel,
{
    v == a || (v != 0 && fuel > 0 && anc_in(cp, a, cp[v], (fuel - 1) as nat))
}

/// Depth consistency of a parent map (the part of the certificate the
/// ancestor lemmas rest on).
pub open spec fn dep_ok(cp: Seq<int>, dep: Seq<int>, n: int) -> bool {
    &&& cp.len() == n
    &&& dep.len() == n
    &&& n >= 1
    &&& cp[0] == 0
    &&& dep[0] == 0
    &&& forall|v: int| 0 <= v < n ==> 0 <= #[trigger] dep[v] < n
    &&& forall|v: int|
        1 <= v < n ==> 0 <= #[trigger] cp[v] < n && dep[v] == dep[cp[v]] + 1
}

/// More fuel never loses an ancestor.
proof fn lemma_anc_fuel(cp: Seq<int>, a: int, v: int, f1: nat, f2: nat)
    requires
        anc_in(cp, a, v, f1),
        f1 <= f2,
    ensures
        anc_in(cp, a, v, f2),
    decreases f1,
{
    if v != a && v != 0 && f1 > 0 {
        lemma_anc_fuel(cp, a, cp[v], (f1 - 1) as nat, (f2 - 1) as nat);
    }
}

/// A chain that exists at any fuel exists within the node's depth.
proof fn lemma_anc_shrink(cp: Seq<int>, dep: Seq<int>, n: int, a: int, v: int, fuel: nat)
    requires
        dep_ok(cp, dep, n),
        0 <= v < n,
        anc_in(cp, a, v, fuel),
    ensures
        anc_in(cp, a, v, dep[v] as nat),
    decreases fuel,
{
    if v != a {
        lemma_anc_shrink(cp, dep, n, a, cp[v], (fuel - 1) as nat);
        lemma_anc_fuel(cp, a, cp[v], dep[cp[v]] as nat, (dep[v] - 1) as nat);
    }
}

/// An ancestor is at most as deep, strictly so when proper; the
/// relation with fuel `n` also steps up through the parent.
proof fn lemma_anc_dep(cp: Seq<int>, dep: Seq<int>, n: int, a: int, v: int, fuel: nat)
    requires
        dep_ok(cp, dep, n),
        0 <= v < n,
        anc_in(cp, a, v, fuel),
    ensures
        0 <= a < n,
        dep[a] <= dep[v],
        a != v ==> dep[a] < dep[v] && v != 0 && anc_in(cp, a, cp[v], n as nat),
    decreases fuel,
{
    if v != a {
        lemma_anc_dep(cp, dep, n, a, cp[v], (fuel - 1) as nat);
        lemma_anc_shrink(cp, dep, n, a, cp[v], (fuel - 1) as nat);
        lemma_anc_fuel(cp, a, cp[v], dep[cp[v]] as nat, n as nat);
    }
}

/// Every proper descendant is reached through one child of its
/// ancestor, and that child is itself in the ancestor's subtree.
proof fn lemma_anc_step(cp: Seq<int>, dep: Seq<int>, n: int, u: int, v: int)
    requires
        dep_ok(cp, dep, n),
        0 <= v < n,
        anc_in(cp, u, v, n as nat),
        v != u,
    ensures
        exists|c: int|
            1 <= c < n && cp[c] == u && #[trigger] anc_in(cp, c, v, n as nat),
    decreases dep[v],
{
    lemma_anc_dep(cp, dep, n, u, v, n as nat);
    assert(v != 0);
    if cp[v] == u {
        assert(1 <= v < n && cp[v] == u && anc_in(cp, v, v, n as nat));
    } else {
        lemma_anc_step(cp, dep, n, u, cp[v]);
        let c = choose|c: int|
            1 <= c < n && cp[c] == u && #[trigger] anc_in(cp, c, cp[v], n as nat);
        assert(anc_in(cp, c, v, n as nat)) by {
            lemma_anc_shrink(cp, dep, n, c, cp[v], n as nat);
            lemma_anc_fuel(cp, c, cp[v], dep[cp[v]] as nat, (n - 1) as nat);
        }
    }
}

/// Two ancestors of one node are comparable.
proof fn lemma_anc_comparable(cp: Seq<int>, dep: Seq<int>, n: int, a: int, b: int, v: int)
    requires
        dep_ok(cp, dep, n),
        0 <= v < n,
        anc_in(cp, a, v, n as nat),
        anc_in(cp, b, v, n as nat),
    ensures
        anc_in(cp, a, b, n as nat) || anc_in(cp, b, a, n as nat),
    decreases dep[v],
{
    if a != v && b != v {
        lemma_anc_dep(cp, dep, n, a, v, n as nat);
        lemma_anc_dep(cp, dep, n, b, v, n as nat);
        assert(v != 0);
        lemma_anc_comparable(cp, dep, n, a, b, cp[v]);
    }
}

/// Ancestry is transitive.
proof fn lemma_anc_trans(cp: Seq<int>, dep: Seq<int>, n: int, a: int, b: int, v: int)
    requires
        dep_ok(cp, dep, n),
        0 <= v < n,
        anc_in(cp, a, b, n as nat),
        anc_in(cp, b, v, n as nat),
    ensures
        anc_in(cp, a, v, n as nat),
    decreases dep[v],
{
    if v != b {
        lemma_anc_dep(cp, dep, n, b, v, n as nat);
        assert(v != 0);
        lemma_anc_trans(cp, dep, n, a, b, cp[v]);
        lemma_anc_shrink(cp, dep, n, a, cp[v], n as nat);
        lemma_anc_fuel(cp, a, cp[v], dep[cp[v]] as nat, (n - 1) as nat);
    }
}

/// The subtrees of two distinct children of one node are disjoint.
proof fn lemma_child_disjoint(
    cp: Seq<int>,
    dep: Seq<int>,
    n: int,
    c1: int,
    c2: int,
    v: int,
)
    requires
        dep_ok(cp, dep, n),
        0 <= v < n,
        1 <= c1 < n,
        1 <= c2 < n,
        cp[c1] == cp[c2],
        c1 != c2,
    ensures
        !(anc_in(cp, c1, v, n as nat) && anc_in(cp, c2, v, n as nat)),
{
    if anc_in(cp, c1, v, n as nat) && anc_in(cp, c2, v, n as nat) {
        lemma_anc_comparable(cp, dep, n, c1, c2, v);
        if anc_in(cp, c1, c2, n as nat) {
            lemma_anc_dep(cp, dep, n, c1, c2, n as nat);
        } else {
            lemma_anc_dep(cp, dep, n, c2, c1, n as nat);
        }
    }
}

/// Number of nodes among `0 .. m` that lie in the subtree of `u`
/// (that is, have `u` as an ancestor under `cp`).
pub open spec fn sub_count(cp: Seq<int>, n: int, u: int, m: int) -> int
    decreases m,
{
    if m <= 0 {
        0
    } else {
        sub_count(cp, n, u, m - 1) + if anc_in(cp, u, m - 1, n as nat) {
            1int
        } else {
            0int
        }
    }
}

/// Sum of the subtree counts of the nodes listed in `cs`.
pub open spec fn sum_sub(cp: Seq<int>, n: int, cs: Seq<int>, m: int) -> int
    decreases cs.len(),
{
    if cs.len() == 0 {
        0
    } else {
        sub_count(cp, n, cs[0], m) + sum_sub(cp, n, cs.drop_first(), m)
    }
}

/// `cs` lists distinct children of `u`.
pub open spec fn kids_ok(cp: Seq<int>, n: int, u: int, cs: Seq<int>) -> bool {
    &&& forall|i: int| 0 <= i < cs.len() ==> 1 <= #[trigger] cs[i] < n && cp[cs[i]] == u
    &&& forall|i: int, j: int| 0 <= i < j < cs.len() ==> cs[i] != cs[j]
}

/// `cs` lists every child of `u`.
pub open spec fn kids_all(cp: Seq<int>, n: int, u: int, cs: Seq<int>) -> bool {
    forall|c: int| 1 <= c < n && #[trigger] cp[c] == u ==> cs.contains(c)
}

/// `u` has at least one child.
pub open spec fn has_child(cp: Seq<int>, n: int, u: int) -> bool {
    exists|c: int| 1 <= c < n && #[trigger] cp[c] == u
}

/// Some node listed in `cs` is an ancestor of `v`.
pub open spec fn hit(cp: Seq<int>, cs: Seq<int>, v: int, n: int) -> bool {
    exists|i: int| 0 <= i < cs.len() && #[trigger] anc_in(cp, cs[i], v, n as nat)
}

proof fn lemma_count_bound(cp: Seq<int>, n: int, u: int, m: int)
    requires
        0 <= m,
    ensures
        0 <= sub_count(cp, n, u, m) <= m,
    decreases m,
{
    if m > 0 {
        lemma_count_bound(cp, n, u, m - 1);
    }
}

proof fn lemma_count_self(cp: Seq<int>, n: int, u: int, m: int)
    requires
        0 <= u < m,
    ensures
        sub_count(cp, n, u, m) >= 1,
    decreases m,
{
    lemma_count_bound(cp, n, u, m - 1);
    if u < m - 1 {
        lemma_count_self(cp, n, u, m - 1);
        assert(sub_count(cp, n, u, m) >= sub_count(cp, n, u, m - 1));
    }
}

proof fn lemma_sum_zero(cp: Seq<int>, n: int, cs: Seq<int>)
    ensures
        sum_sub(cp, n, cs, 0) == 0,
    decreases cs.len(),
{
    if cs.len() > 0 {
        lemma_sum_zero(cp, n, cs.drop_first());
    }
}

proof fn lemma_sum_push(cp: Seq<int>, n: int, cs: Seq<int>, c: int, m: int)
    ensures
        sum_sub(cp, n, cs.push(c), m) == sum_sub(cp, n, cs, m) + sub_count(cp, n, c, m),
    decreases cs.len(),
{
    if cs.len() == 0 {
        assert(cs.push(c)[0] == c);
        assert(cs.push(c).drop_first() =~= Seq::<int>::empty());
        assert(sum_sub(cp, n, Seq::<int>::empty(), m) == 0);
        assert(sum_sub(cp, n, cs, m) == 0);
        assert(sum_sub(cp, n, cs.push(c), m) == sub_count(cp, n, c, m) + sum_sub(
            cp,
            n,
            cs.push(c).drop_first(),
            m,
        ));
    } else {
        assert(cs.push(c).drop_first() =~= cs.drop_first().push(c));
        assert(cs.push(c)[0] == cs[0]);
        lemma_sum_push(cp, n, cs.drop_first(), c, m);
    }
}

/// When no listed node is an ancestor of `v == m - 1`, the sum does not
/// grow from `m - 1` to `m`.
proof fn lemma_sum_step_miss(cp: Seq<int>, n: int, cs: Seq<int>, m: int)
    requires
        1 <= m,
        forall|i: int| 0 <= i < cs.len() ==> !#[trigger] anc_in(cp, cs[i], m - 1, n as nat),
    ensures
        sum_sub(cp, n, cs, m) == sum_sub(cp, n, cs, m - 1),
    decreases cs.len(),
{
    if cs.len() > 0 {
        assert(!anc_in(cp, cs[0], m - 1, n as nat));
        assert(forall|i: int|
            0 <= i < cs.drop_first().len() ==> cs.drop_first()[i] == cs[i + 1]);
        lemma_sum_step_miss(cp, n, cs.drop_first(), m);
    }
}

/// When exactly one listed child of `u` is an ancestor of `v == m - 1`
/// (one exists, and distinct children have disjoint subtrees), the sum
/// grows by one from `m - 1` to `m`.
proof fn lemma_sum_step_hit(cp: Seq<int>, dep: Seq<int>, n: int, u: int, cs: Seq<int>, m: int)
    requires
        dep_ok(cp, dep, n),
        1 <= m <= n,
        kids_ok(cp, n, u, cs),
        hit(cp, cs, m - 1, n),
    ensures
        sum_sub(cp, n, cs, m) == sum_sub(cp, n, cs, m - 1) + 1,
    decreases cs.len(),
{
    let v = m - 1;
    if anc_in(cp, cs[0], v, n as nat) {
        assert forall|i: int| 0 <= i < cs.drop_first().len() implies !#[trigger] anc_in(
            cp,
            cs.drop_first()[i],
            v,
            n as nat,
        ) by {
            assert(cs.drop_first()[i] == cs[i + 1]);
            lemma_child_disjoint(cp, dep, n, cs[0], cs[i + 1], v);
        }
        lemma_sum_step_miss(cp, n, cs.drop_first(), m);
    } else {
        let i = choose|i: int| 0 <= i < cs.len() && #[trigger] anc_in(cp, cs[i], v, n as nat);
        assert(i >= 1);
        assert(cs.drop_first()[i - 1] == cs[i]);
        assert(forall|i2: int|
            0 <= i2 < cs.drop_first().len() ==> cs.drop_first()[i2] == cs[i2 + 1]);
        assert(hit(cp, cs.drop_first(), v, n));
        lemma_sum_step_hit(cp, dep, n, u, cs.drop_first(), m);
    }
}

/// A complete list of the distinct children of `u` partitions the
/// subtree of `u` below `u` itself: the count of `u`'s subtree is one
/// (for `u`) plus the sum of the children's counts.
proof fn lemma_partition(cp: Seq<int>, dep: Seq<int>, n: int, u: int, cs: Seq<int>, m: int)
    requires
        dep_ok(cp, dep, n),
        0 <= u < n,
        0 <= m <= n,
        kids_ok(cp, n, u, cs),
        kids_all(cp, n, u, cs),
    ensures
        sub_count(cp, n, u, m) == (if u < m {
            1int
        } else {
            0int
        }) + sum_sub(cp, n, cs, m),
    decreases m,
{
    if m == 0 {
        lemma_sum_zero(cp, n, cs);
    } else {
        let v = m - 1;
        lemma_partition(cp, dep, n, u, cs, m - 1);
        if v == u {
            assert(anc_in(cp, u, v, n as nat));
            assert forall|i: int| 0 <= i < cs.len() implies !#[trigger] anc_in(
                cp,
                cs[i],
                v,
                n as nat,
            ) by {
                if anc_in(cp, cs[i], v, n as nat) {
                    lemma_anc_dep(cp, dep, n, cs[i], v, n as nat);
                }
            }
            lemma_sum_step_miss(cp, n, cs, m);
        } else if anc_in(cp, u, v, n as nat) {
            lemma_anc_step(cp, dep, n, u, v);
            let c = choose|c: int|
                1 <= c < n && cp[c] == u && #[trigger] anc_in(cp, c, v, n as nat);
            assert(cs.contains(c));
            let i = choose|i: int| 0 <= i < cs.len() && cs[i] == c;
            assert(anc_in(cp, cs[i], v, n as nat));
            assert(hit(cp, cs, v, n));
            lemma_sum_step_hit(cp, dep, n, u, cs, m);
        } else {
            assert forall|i: int| 0 <= i < cs.len() implies !#[trigger] anc_in(
                cp,
                cs[i],
                v,
                n as nat,
            ) by {
                if anc_in(cp, cs[i], v, n as nat) {
                    assert(anc_in(cp, u, u, (n - 1) as nat));
                    assert(anc_in(cp, u, cs[i], n as nat));
                    lemma_anc_trans(cp, dep, n, u, cs[i], v);
                }
            }
            lemma_sum_step_miss(cp, n, cs, m);
        }
    }
}

/// A (possibly incomplete) list of distinct children of `u` sums to at
/// most the count of `u`'s subtree below `u` itself.
proof fn lemma_partial_bound(cp: Seq<int>, dep: Seq<int>, n: int, u: int, cs: Seq<int>, m: int)
    requires
        dep_ok(cp, dep, n),
        0 <= u < n,
        0 <= m <= n,
        kids_ok(cp, n, u, cs),
    ensures
        sum_sub(cp, n, cs, m) <= sub_count(cp, n, u, m) - (if u < m {
            1int
        } else {
            0int
        }),
    decreases m,
{
    if m == 0 {
        lemma_sum_zero(cp, n, cs);
    } else {
        let v = m - 1;
        lemma_partial_bound(cp, dep, n, u, cs, m - 1);
        if v == u {
            assert forall|i: int| 0 <= i < cs.len() implies !#[trigger] anc_in(
                cp,
                cs[i],
                v,
                n as nat,
            ) by {
                if anc_in(cp, cs[i], v, n as nat) {
                    lemma_anc_dep(cp, dep, n, cs[i], v, n as nat);
                }
            }
            lemma_sum_step_miss(cp, n, cs, m);
            assert(anc_in(cp, u, v, n as nat));
        } else if hit(cp, cs, v, n) {
            lemma_sum_step_hit(cp, dep, n, u, cs, m);
            let i = choose|i: int| 0 <= i < cs.len() && #[trigger] anc_in(cp, cs[i], v, n as nat);
            assert(anc_in(cp, u, u, (n - 1) as nat));
            assert(anc_in(cp, u, cs[i], n as nat));
            lemma_anc_trans(cp, dep, n, u, cs[i], v);
        } else {
            lemma_sum_step_miss(cp, n, cs, m);
        }
    }
}

/// The whole node range lies in the root's subtree.
proof fn lemma_root_count(cp: Seq<int>, dep: Seq<int>, n: int, m: int)
    requires
        dep_ok(cp, dep, n),
        0 <= m <= n,
    ensures
        sub_count(cp, n, 0, m) == m,
    decreases m,
{
    if m > 0 {
        lemma_root_count(cp, dep, n, m - 1);
        lemma_root_anc(cp, dep, n, m - 1);
    }
}

/// The children of `u` among the first `k` entries of its adjacency
/// row, in row order, leaving out the node `ex` (pass a value no entry
/// takes to keep every child).
pub open spec fn kids_upto(adj: Seq<Vec<usize>>, cp: Seq<int>, u: int, k: int, ex: int) -> Seq<int>
    decreases k,
{
    if k <= 0 {
        Seq::empty()
    } else {
        let e = adj[u]@[k - 1] as int;
        let rest = kids_upto(adj, cp, u, k - 1, ex);
        if e != 0 && cp[e] == u && e != ex {
            rest.push(e)
        } else {
            rest
        }
    }
}

/// An adjacency entry is in range and is a child exactly when it is
/// not the parent of its row's node.
proof fn lemma_entry_child(adj: Seq<Vec<usize>>, cp: Seq<int>, dep: Seq<int>, u: int, k: int)
    requires
        tree_cert(adj, cp, dep),
        0 <= u < adj.len(),
        0 <= k < adj[u]@.len(),
    ensures
        0 <= adj[u]@[k] < adj.len(),
        (adj[u]@[k] != 0 && cp[adj[u]@[k] as int] == u) <==> !(u != 0 && adj[u]@[k] as int
            == cp[u]),
{
    let e = adj[u]@[k] as int;
    if e != 0 && cp[e] == u && u != 0 && e == cp[u] {
        assert(dep[e] == dep[u] + 1 && dep[u] == dep[e] + 1);
    }
}

/// The prefix children are distinct children of `u`, and a node is
/// listed exactly when some prefix entry names it as a child other
/// than `ex`.
proof fn lemma_kids(adj: Seq<Vec<usize>>, cp: Seq<int>, dep: Seq<int>, u: int, k: int, ex: int)
    requires
        tree_cert(adj, cp, dep),
        0 <= u < adj.len(),
        0 <= k <= adj[u]@.len(),
    ensures
        kids_ok(cp, adj.len() as int, u, kids_upto(adj, cp, u, k, ex)),
        forall|c: int| #[trigger]
            kids_upto(adj, cp, u, k, ex).contains(c) <==> (c != ex && c != 0 && cp[c] == u
                && exists|k2: int| 0 <= k2 < k && #[trigger] adj[u]@[k2] as int == c),
    decreases k,
{
    let n = adj.len() as int;
    if k > 0 {
        lemma_kids(adj, cp, dep, u, k - 1, ex);
        let e = adj[u]@[k - 1] as int;
        let rest = kids_upto(adj, cp, u, k - 1, ex);
        let kids = kids_upto(adj, cp, u, k, ex);
        lemma_entry_child(adj, cp, dep, u, k - 1);
        if e != 0 && cp[e] == u && e != ex {
            assert(kids == rest.push(e));
            assert(1 <= e < n);
            assert(!rest.contains(e)) by {
                if rest.contains(e) {
                    let k2 = choose|k2: int| 0 <= k2 < k - 1 && #[trigger] adj[u]@[k2] as int
                        == e;
                    assert(adj[u]@[k2] == adj[u]@[k - 1]);
                }
            }
            assert forall|i: int| 0 <= i < kids.len() implies 1 <= #[trigger] kids[i] < n
                && cp[kids[i]] == u by {
                if i < rest.len() {
                    assert(kids[i] == rest[i]);
                } else {
                    assert(kids[i] == e);
                }
            }
            assert forall|i: int, j: int| 0 <= i < j < kids.len() implies kids[i]
                != kids[j] by {
                if j < rest.len() {
                    assert(kids[i] == rest[i] && kids[j] == rest[j]);
                } else {
                    assert(kids[i] == rest[i] && kids[j] == e);
                    if rest[i] == e {
                        assert(rest.contains(e));
                    }
                }
            }
            assert forall|c: int| #[trigger] kids.contains(c) implies (c != ex && c != 0
                && cp[c] == u && exists|k2: int| 0 <= k2 < k && #[trigger] adj[u]@[k2] as int
                == c) by {
                let i = choose|i: int| 0 <= i < kids.len() && kids[i] == c;
                if i < rest.len() {
                    assert(rest[i] == c);
                    assert(rest.contains(c));
                } else {
                    assert(c == e);
                    assert(adj[u]@[k - 1] as int == c);
                }
            }
            assert forall|c: int|
                c != ex && c != 0 && cp[c] == u && (exists|k2: int|
                    0 <= k2 < k && #[trigger] adj[u]@[k2] as int == c) implies #[trigger] kids.contains(
                c,
            ) by {
                let k2 = choose|k2: int| 0 <= k2 < k && #[trigger] adj[u]@[k2] as int == c;
                if k2 < k - 1 {
                    assert(rest.contains(c));
                    let i = choose|i: int| 0 <= i < rest.len() && rest[i] == c;
                    assert(kids[i] == c);
                } else {
                    assert(c == e);
                    assert(kids[rest.len() as int] == e);
                }
            }
        } else {
            assert(kids == rest);
            assert forall|c: int| #[trigger] kids.contains(c) implies (c != ex && c != 0
                && cp[c] == u && exists|k2: int| 0 <= k2 < k && #[trigger] adj[u]@[k2] as int
                == c) by {
                assert(rest.contains(c));
            }
            assert forall|c: int|
                c != ex && c != 0 && cp[c] == u && (exists|k2: int|
                    0 <= k2 < k && #[trigger] adj[u]@[k2] as int == c) implies #[trigger] kids.contains(
                c,
            ) by {
                let k2 = choose|k2: int| 0 <= k2 < k && #[trigger] adj[u]@[k2] as int == c;
                if k2 == k - 1 {
                    assert(c == e);
                    assert(u != 0 && e == cp[u] || e == ex) by {
                        if !(u != 0 && e == cp[u]) && e != ex {
                            assert(e != 0 && cp[e] == u);
                        }
                    }
                    if u != 0 && e == cp[u] {
                        assert(dep[c] == dep[u] + 1 && dep[u] == dep[c] + 1);
                    }
                }
            }
        }
    }
}

/// Extending the list by one node extends the hits by that node's
/// subtree.
proof fn lemma_hit_push(cp: Seq<int>, cs: Seq<int>, c: int, v: int, n: int)
    ensures
        hit(cp, cs.push(c), v, n) <==> (hit(cp, cs, v, n) || anc_in(cp, c, v, n as nat)),
{
    if hit(cp, cs.push(c), v, n) {
        let i = choose|i: int|
            0 <= i < cs.push(c).len() && #[trigger] anc_in(cp, cs.push(c)[i], v, n as nat);
        if i < cs.len() {
            assert(cs.push(c)[i] == cs[i]);
            assert(hit(cp, cs, v, n));
        } else {
            assert(cs.push(c)[i] == c);
        }
    }
    if hit(cp, cs, v, n) {
        let i = choose|i: int| 0 <= i < cs.len() && #[trigger] anc_in(cp, cs[i], v, n as nat);
        assert(cs.push(c)[i] == cs[i]);
        assert(hit(cp, cs.push(c), v, n));
    }
    if anc_in(cp, c, v, n as nat) {
        assert(cs.push(c)[cs.len() as int] == c);
        assert(hit(cp, cs.push(c), v, n));
    }
}

/// A child lies in its parent's subtree.
proof fn lemma_kid_in(cp: Seq<int>, n: int, u: int, c: int)
    requires
        n >= 1,
        1 <= c < n,
        cp[c] == u,
    ensures
        anc_in(cp, u, c, n as nat),
{
    assert(anc_in(cp, u, u, (n - 1) as nat));
}

/// No child is an ancestor of its own parent.
proof fn lemma_kid_not_above(cp: Seq<int>, dep: Seq<int>, n: int, u: int, c: int)
    requires
        dep_ok(cp, dep, n),
        0 <= u < n,
        1 <= c < n,
        cp[c] == u,
    ensures
        !anc_in(cp, c, u, n as nat),
{
    if anc_in(cp, c, u, n as nat) {
        lemma_anc_dep(cp, dep, n, c, u, n as nat);
    }
}

/// The root is an ancestor of every node.
proof fn lemma_root_anc(cp: Seq<int>, dep: Seq<int>, n: int, v: int)
    requires
        dep_ok(cp, dep, n),
        0 <= v < n,
    ensures
        anc_in(cp, 0, v, n as nat),
    decreases dep[v],
{
    if v != 0 {
        lemma_root_anc(cp, dep, n, cp[v]);
        lemma_anc_shrink(cp, dep, n, 0, cp[v], n as nat);
        lemma_anc_fuel(cp, 0, cp[v], dep[cp[v]] as nat, (n - 1) as nat);
    }
}


/// Fills `sub[v]` with the node count of the subtree of `v`, for every
/// `v` in the subtree of `u`; entries outside that subtree are kept.
fn sizes_rec(
    adj: &Vec<Vec<usize>>,
    u: usize,
    pu: usize,
    sub: &mut Vec<usize>,
    Ghost(cp): Ghost<Seq<int>>,
    Ghost(dep): Ghost<Seq<int>>,
)
    requires
        tree_cert(adj@, cp, dep),
        u < adj@.len(),
        old(sub)@.len() == adj@.len(),
        u != 0 ==> cp[u as int] == pu as int,
    ensures
        final(sub)@.len() == adj@.len(),
        forall|v: int|
            0 <= v < adj@.len() && !anc_in(cp, u as int, v, adj@.len() as nat)
                ==> #[trigger] final(sub)@[v] == old(sub)@[v],
        forall|v: int|
            0 <= v < adj@.len() && anc_in(cp, u as int, v, adj@.len() as nat)
                ==> #[trigger] final(sub)@[v] == sub_count(
                cp,
                adj@.len() as int,
                v,
                adj@.len() as int,
            ),
    decreases adj@.len() - dep[u as int],
{
    let nn = adj.len();
    let ghost n = adj@.len() as int;
    proof {
        assert(n == nn as int && n <= usize::MAX);
    }
    let deg = adj[u].len();
    let mut acc: usize = 1;
    let mut k: usize = 0;
    let ghost mut cs: Seq<int> = Seq::empty();
    proof {
        assert(cs =~= kids_upto(adj@, cp, u as int, 0, -1));
        assert(sum_sub(cp, n, cs, n) == 0);
        lemma_count_self(cp, n, u as int, n);
        lemma_kids(adj@, cp, dep, u as int, deg as int, -1);
    }
    while k < deg
        invariant
            tree_cert(adj@, cp, dep),
            n == adj@.len() as int,
            u < n,
            u != 0 ==> cp[u as int] == pu as int,
            deg == adj@[u as int]@.len(),
            k <= deg,
            n <= usize::MAX,
            sub@.len() == n,
            cs == kids_upto(adj@, cp, u as int, k as int, -1),
            acc == 1 + sum_sub(cp, n, cs, n),
            acc <= sub_count(cp, n, u as int, n),
            forall|v: int|
                0 <= v < n && !hit(cp, cs, v, n) ==> #[trigger] sub@[v] == old(sub)@[v],
            forall|v: int|
                0 <= v < n && hit(cp, cs, v, n) ==> #[trigger] sub@[v] == sub_count(cp, n, v, n),
        decreases deg - k,
    {
        let e = adj[u][k];
        proof {
            lemma_entry_child(adj@, cp, dep, u as int, k as int);
            lemma_kids(adj@, cp, dep, u as int, k as int, -1);
            lemma_kids(adj@, cp, dep, u as int, k as int + 1, -1);
        }
        if u == 0 || e != pu {
            let ghost old_sub = sub@;
            sizes_rec(adj, e, u, sub, Ghost(cp), Ghost(dep));
            let se = sub[e];
            proof {
                assert(anc_in(cp, e as int, e as int, n as nat));
                assert(se == sub_count(cp, n, e as int, n));
                let cs2 = cs.push(e as int);
                assert(cs2 == kids_upto(adj@, cp, u as int, k as int + 1, -1)) by {
                    assert(adj@[u as int]@[k as int] as int == e as int);
                }
                lemma_sum_push(cp, n, cs, e as int, n);
                lemma_kids(adj@, cp, dep, u as int, k as int + 1, -1);
                lemma_partial_bound(cp, dep, n, u as int, cs2, n);
                lemma_count_bound(cp, n, u as int, n);
                assert(1 + sum_sub(cp, n, cs2, n) <= sub_count(cp, n, u as int, n));
                assert forall|v: int| 0 <= v < n && !hit(cp, cs2, v, n) implies #[trigger] sub@[v]
                    == old(sub)@[v] by {
                    lemma_hit_push(cp, cs, e as int, v, n);
                    assert(old_sub[v] == old(sub)@[v]);
                }
                assert forall|v: int| 0 <= v < n && hit(cp, cs2, v, n) implies #[trigger] sub@[v]
                    == sub_count(cp, n, v, n) by {
                    lemma_hit_push(cp, cs, e as int, v, n);
                    if anc_in(cp, e as int, v, n as nat) {
                    } else {
                        let i = choose|i: int|
                            0 <= i < cs.len() && #[trigger] anc_in(cp, cs[i], v, n as nat);
                        lemma_child_disjoint(cp, dep, n, cs[i], e as int, v);
                        assert(old_sub[v] == sub_count(cp, n, v, n));
                    }
                }
                cs = cs2;
            }
            acc = acc + se;
        } else {
            proof {
                assert(cs == kids_upto(adj@, cp, u as int, k as int + 1, -1)) by {
                    assert(adj@[u as int]@[k as int] as int == e as int);
                    assert(u != 0 && e as int == cp[u as int]);
                    assert(!(e as int != 0 && cp[e as int] == u as int));
                }
            }
        }
        k = k + 1;
    }
    proof {
        lemma_kids(adj@, cp, dep, u as int, deg as int, -1);
        assert(kids_all(cp, n, u as int, cs)) by {
            assert forall|c: int| 1 <= c < n && #[trigger] cp[c] == u as int implies cs.contains(
                c,
            ) by {
                assert(adj@[cp[c]]@.contains(c as usize));
                let k2 = choose|k2: int|
                    0 <= k2 < adj@[u as int]@.len() && adj@[u as int]@[k2] == c as usize;
                assert(adj@[u as int]@[k2] as int == c);
            }
        }
        lemma_partition(cp, dep, n, u as int, cs, n);
        assert(acc == sub_count(cp, n, u as int, n));
        assert(!hit(cp, cs, u as int, n)) by {
            if hit(cp, cs, u as int, n) {
                let i = choose|i: int|
                    0 <= i < cs.len() && #[trigger] anc_in(cp, cs[i], u as int, n as nat);
                lemma_kid_not_above(cp, dep, n, u as int, cs[i]);
            }
        }
    }
    let ghost pre = sub@;
    sub[u] = acc;
    proof {
        assert forall|v: int|
            0 <= v < n && anc_in(cp, u as int, v, n as nat) implies #[trigger] sub@[v]
            == sub_count(cp, n, v, n) by {
            if v == u as int {
            } else {
                lemma_anc_step(cp, dep, n, u as int, v);
                let c = choose|c: int|
                    1 <= c < n && cp[c] == u as int && #[trigger] anc_in(cp, c, v, n as nat);
                assert(cs.contains(c));
                let i = choose|i: int| 0 <= i < cs.len() && cs[i] == c;
                assert(anc_in(cp, cs[i], v, n as nat));
                assert(hit(cp, cs, v, n));
                assert(v != u as int && pre[v] == sub_count(cp, n, v, n));
            }
        }
        assert forall|v: int|
            0 <= v < n && !anc_in(cp, u as int, v, n as nat) implies #[trigger] sub@[v]
            == old(sub)@[v] by {
            assert(anc_in(cp, u as int, u as int, n as nat));
            assert(v != u as int);
            assert(!hit(cp, cs, v, n)) by {
                if hit(cp, cs, v, n) {
                    let i = choose|i: int|
                        0 <= i < cs.len() && #[trigger] anc_in(cp, cs[i], v, n as nat);
                    lemma_kid_in(cp, n, u as int, cs[i]);
                    lemma_anc_trans(cp, dep, n, u as int, cs[i], v);
                }
            }
        }
    }
}

/// The tables describe a finished placement of the subtree of `u`:
/// inside it parents follow `cp`; the positions of every subtree form
/// a block that starts at its root's position and has the subtree's
/// size; positions are distinct; each chain head is an ancestor on the
/// same chain; a node continues its parent's chain or heads its own;
/// a node that continues its parent's chain sits right after the
/// parent and has the largest subtree among its siblings; and every
/// node with a child passes its chain to one of them.
pub open spec fn placed_sub(
    cp: Seq<int>,
    n: int,
    u: int,
    par: Seq<usize>,
    top: Seq<usize>,
    tin: Seq<usize>,
) -> bool {
    &&& forall|v: int|
        0 <= v < n && v != u && #[trigger] anc_in(cp, u, v, n as nat) ==> par[v] as int == cp[v]
    &&& forall|a: int, v: int|
        #![trigger anc_in(cp, u, a, n as nat), anc_in(cp, a, v, n as nat)]
        0 <= a < n && 0 <= v < n && anc_in(cp, u, a, n as nat) && anc_in(cp, a, v, n as nat)
            ==> tin[a] <= tin[v] < tin[a] + sub_count(cp, n, a, n)
    &&& forall|a: int, b: int|
        #![trigger anc_in(cp, u, a, n as nat), anc_in(cp, u, b, n as nat)]
        0 <= a < n && 0 <= b < n && anc_in(cp, u, a, n as nat) && anc_in(cp, u, b, n as nat) && a
            != b ==> tin[a] != tin[b]
    &&& forall|v: int|
        0 <= v < n && #[trigger] anc_in(cp, u, v, n as nat) ==> top[v] < n && anc_in(
            cp,
            top[v] as int,
            v,
            n as nat,
        )
    &&& forall|v: int|
        0 <= v < n && v != u && #[trigger] anc_in(cp, u, v, n as nat) ==> (top[v] == top[cp[v]]
            || top[v] as int == v)
    &&& forall|v: int|
        0 <= v < n && v != u && #[trigger] anc_in(cp, u, v, n as nat) && top[v] == top[cp[v]]
            ==> tin[v] == tin[cp[v]] + 1
    &&& forall|v: int, c2: int|
        #![trigger anc_in(cp, u, v, n as nat), cp[c2]]
        0 <= v < n && v != u && anc_in(cp, u, v, n as nat) && top[v] == top[cp[v]] && 1 <= c2 < n
            && cp[c2] == cp[v] ==> sub_count(cp, n, c2, n) <= sub_count(cp, n, v, n)
    &&& forall|v: int|
        0 <= v < n && #[trigger] anc_in(cp, u, v, n as nat) && has_child(cp, n, v) ==> exists|
            c2: int,
        | 1 <= c2 < n && #[trigger] cp[c2] == v && top[c2] == top[v]
}

/// The same properties over the already placed children `cs` of a node
/// whose own placement at `pos` is still open; their blocks fill the
/// positions after `pos` up to `cur`.
pub open spec fn placing_ok(
    cp: Seq<int>,
    n: int,
    pos: int,
    cur: int,
    cs: Seq<int>,
    par: Seq<usize>,
    top: Seq<usize>,
    tin: Seq<usize>,
) -> bool {
    &&& forall|v: int| 0 <= v < n && #[trigger] hit(cp, cs, v, n) ==> par[v] as int == cp[v]
    &&& forall|v: int| 0 <= v < n && #[trigger] hit(cp, cs, v, n) ==> pos < tin[v] < cur
    &&& forall|a: int, b: int|
        #![trigger hit(cp, cs, a, n), hit(cp, cs, b, n)]
        0 <= a < n && 0 <= b < n && hit(cp, cs, a, n) && hit(cp, cs, b, n) && a != b ==> tin[a]
            != tin[b]
    &&& forall|a: int, v: int|
        #![trigger hit(cp, cs, a, n), anc_in(cp, a, v, n as nat)]
        0 <= a < n && 0 <= v < n && hit(cp, cs, a, n) && anc_in(cp, a, v, n as nat) ==> tin[a]
            <= tin[v] < tin[a] + sub_count(cp, n, a, n)
    &&& forall|v: int|
        0 <= v < n && #[trigger] hit(cp, cs, v, n) ==> top[v] < n && anc_in(
            cp,
            top[v] as int,
            v,
            n as nat,
        )
    &&& forall|v: int|
        0 <= v < n && #[trigger] hit(cp, cs, v, n) ==> (top[v] == top[cp[v]] || top[v] as int
            == v)
    &&& forall|v: int|
        0 <= v < n && #[trigger] hit(cp, cs, v, n) && top[v] == top[cp[v]] ==> tin[v]
            == tin[cp[v]] + 1
    &&& forall|v: int, c2: int|
        #![trigger hit(cp, cs, v, n), cp[c2]]
        0 <= v < n && hit(cp, cs, v, n) && top[v] == top[cp[v]] && 1 <= c2 < n && cp[c2] == cp[v]
            ==> sub_count(cp, n, c2, n) <= sub_count(cp, n, v, n)
    &&& forall|v: int|
        0 <= v < n && #[trigger] hit(cp, cs, v, n) && has_child(cp, n, v) ==> exists|c2: int|
            1 <= c2 < n && #[trigger] cp[c2] == v && top[c2] == top[v]
}


/// Folds one freshly placed child `c` into the running placement of
/// its parent: the properties of the already placed children `cs`,
/// untouched by the child's placement, join the child's own finished
/// subtree at block `[cur, cur + size of c)`.
#[verifier::rlimit(100)]
#[verifier::spinoff_prover]
proof fn lemma_place_child(
    cp: Seq<int>,
    dep: Seq<int>,
    n: int,
    u: int,
    hd: int,
    pos: int,
    cur: int,
    cs: Seq<int>,
    c: int,
    heavy: bool,
    pre_par: Seq<usize>,
    pre_top: Seq<usize>,
    pre_tin: Seq<usize>,
    par: Seq<usize>,
    top: Seq<usize>,
    tin: Seq<usize>,
)
    requires
        dep_ok(cp, dep, n),
        0 <= u < n,
        1 <= c < n,
        cp[c] == u,
        0 <= hd < n,
        anc_in(cp, hd, u, n as nat),
        par.len() == n,
        top.len() == n,
        tin.len() == n,
        pre_par.len() == n,
        pre_top.len() == n,
        pre_tin.len() == n,
        kids_ok(cp, n, u, cs),
        !cs.contains(c),
        0 <= pos < cur,
        cur + sub_count(cp, n, c, n) <= n,
        placing_ok(cp, n, pos, cur, cs, pre_par, pre_top, pre_tin),
        pre_tin[u] as int == pos,
        pre_top[u] as int == hd,
        // effects of the child's placement
        placed_sub(cp, n, c, par, top, tin),
        tin[c] as int == cur,
        par[c] as int == u,
        heavy ==> top[c] as int == hd && cur == pos + 1 && (forall|c2: int|
            1 <= c2 < n && #[trigger] cp[c2] == u ==> sub_count(cp, n, c2, n) <= sub_count(
                cp,
                n,
                c,
                n,
            )),
        !heavy ==> top[c] as int == c,
        forall|v: int|
            0 <= v < n && !(#[trigger] anc_in(cp, c, v, n as nat)) ==> par[v] == pre_par[v]
                && top[v] == pre_top[v] && tin[v] == pre_tin[v],
    ensures
        placing_ok(cp, n, pos, cur + sub_count(cp, n, c, n), cs.push(c), par, top, tin),
{
    let nf = n as nat;
    let cs2 = cs.push(c);
    let cur2 = cur + sub_count(cp, n, c, n);
    lemma_kid_in(cp, n, u, c);
    lemma_kid_not_above(cp, dep, n, u, c);
    lemma_count_self(cp, n, c, n);
    assert(!anc_in(cp, c, u, n as nat));
    assert(tin[u] as int == pos && top[u] as int == hd && par[u] == pre_par[u]);
    // an old hit is never in the child's subtree, and its whole old
    // subtree block is untouched
    assert forall|v: int| 0 <= v < n && hit(cp, cs, v, nf as int) implies !anc_in(
        cp,
        c,
        v,
        nf,
    ) by {
        let i = choose|i: int| 0 <= i < cs.len() && #[trigger] anc_in(cp, cs[i], v, nf);
        if cs[i] == c {
            assert(cs.contains(c));
        }
        lemma_child_disjoint(cp, dep, n, cs[i], c, v);
    }
    // clause: parents
    assert forall|v: int| 0 <= v < n && #[trigger] hit(cp, cs2, v, n) implies par[v] as int
        == cp[v] by {
        lemma_hit_push(cp, cs, c, v, n);
        if anc_in(cp, c, v, nf) {
            if v != c {
            }
        } else {
            assert(par[v] == pre_par[v]);
        }
    }
    // clause: position range
    assert forall|v: int| 0 <= v < n && #[trigger] hit(cp, cs2, v, n) implies pos < tin[v]
        < cur2 by {
        lemma_hit_push(cp, cs, c, v, n);
        if anc_in(cp, c, v, nf) {
            assert(anc_in(cp, c, c, nf));
            assert(tin[c] <= tin[v] < tin[c] + sub_count(cp, n, c, n));
        } else {
            assert(tin[v] == pre_tin[v]);
        }
    }
    // clause: distinct positions
    assert forall|a: int, b: int|
        0 <= a < n && 0 <= b < n && #[trigger] hit(cp, cs2, a, n) && #[trigger] hit(
            cp,
            cs2,
            b,
            n,
        ) && a != b implies tin[a] != tin[b] by {
        lemma_hit_push(cp, cs, c, a, n);
        lemma_hit_push(cp, cs, c, b, n);
        if anc_in(cp, c, a, nf) && anc_in(cp, c, b, nf) {
        } else if !anc_in(cp, c, a, nf) && !anc_in(cp, c, b, nf) {
            assert(tin[a] == pre_tin[a] && tin[b] == pre_tin[b]);
        } else if anc_in(cp, c, a, nf) {
            assert(anc_in(cp, c, c, nf));
            assert(tin[c] <= tin[a] < tin[c] + sub_count(cp, n, c, n));
            assert(tin[b] == pre_tin[b] && pos < tin[b] < cur);
        } else {
            assert(anc_in(cp, c, c, nf));
            assert(tin[c] <= tin[b] < tin[c] + sub_count(cp, n, c, n));
            assert(tin[a] == pre_tin[a] && pos < tin[a] < cur);
        }
    }
    // clause: blocks
    assert forall|a: int, v: int|
        0 <= a < n && 0 <= v < n && #[trigger] hit(cp, cs2, a, n) && #[trigger] anc_in(
            cp,
            a,
            v,
            nf,
        ) implies tin[a] <= tin[v] < tin[a] + sub_count(cp, n, a, n) by {
        lemma_hit_push(cp, cs, c, a, n);
        if anc_in(cp, c, a, nf) {
            assert(tin[a] <= tin[v] < tin[a] + sub_count(cp, n, a, n));
        } else {
            assert(hit(cp, cs, a, n));
            assert(!anc_in(cp, c, v, nf)) by {
                if anc_in(cp, c, v, nf) {
                    let i = choose|i: int|
                        0 <= i < cs.len() && #[trigger] anc_in(cp, cs[i], a, nf);
                    lemma_anc_trans(cp, dep, n, cs[i], a, v);
                    if cs[i] == c {
                        assert(cs.contains(c));
                    }
                    lemma_child_disjoint(cp, dep, n, cs[i], c, v);
                }
            }
            assert(!anc_in(cp, c, a, nf));
            assert(tin[a] == pre_tin[a] && tin[v] == pre_tin[v]);
        }
    }
    // clause: heads are chain ancestors
    assert forall|v: int| 0 <= v < n && #[trigger] hit(cp, cs2, v, n) implies top[v] < n
        && anc_in(cp, top[v] as int, v, nf) by {
        lemma_hit_push(cp, cs, c, v, n);
        if anc_in(cp, c, v, nf) {
            if v == c {
                if heavy {
                    lemma_anc_trans(cp, dep, n, hd, u, c);
                }
            }
        } else {
            assert(top[v] == pre_top[v]);
        }
    }
    // clause: continue or head
    assert forall|v: int| 0 <= v < n && #[trigger] hit(cp, cs2, v, n) implies (top[v]
        == top[cp[v]] || top[v] as int == v) by {
        lemma_hit_push(cp, cs, c, v, n);
        if anc_in(cp, c, v, nf) {
            if v == c {
                if heavy {
                    assert(top[cp[c]] as int == hd);
                }
            }
        } else {
            assert(top[v] == pre_top[v] && top[cp[v]] == pre_top[cp[v]]) by {
                    let i = choose|i: int| 0 <= i < cs.len() && #[trigger] anc_in(cp, cs[i], v, nf);
                assert(v != 0) by {
                    lemma_anc_dep(cp, dep, n, cs[i], v, nf);
                    if v == 0 {
                        assert(dep[cs[i]] <= dep[0]);
                        assert(dep[cs[i]] == dep[u] + 1);
                    }
                }
                assert(!anc_in(cp, c, cp[v], nf)) by {
                    if anc_in(cp, c, cp[v], nf) {
                        lemma_anc_shrink(cp, dep, n, c, cp[v], nf);
                        lemma_anc_fuel(cp, c, cp[v], dep[cp[v]] as nat, (n - 1) as nat);
                        assert(anc_in(cp, c, v, nf));
                    }
                }
            }
        }
    }
    // clause: a continuing node sits right after its parent
    assert forall|v: int|
        0 <= v < n && #[trigger] hit(cp, cs2, v, n) && top[v] == top[cp[v]] implies tin[v]
        == tin[cp[v]] + 1 by {
        lemma_hit_push(cp, cs, c, v, n);
        if anc_in(cp, c, v, nf) {
            if v == c {
                if heavy {
                    assert(tin[cp[c]] as int == pos);
                } else {
                    assert(top[c] as int == c);
                    assert(top[cp[c]] as int == hd);
                    if c == hd {
                        lemma_anc_dep(cp, dep, n, hd, u, nf);
                    }
                }
            }
        } else {
            assert(hit(cp, cs, v, n));
            assert(top[v] == pre_top[v] && tin[v] == pre_tin[v]);
            let i = choose|i: int| 0 <= i < cs.len() && #[trigger] anc_in(cp, cs[i], v, nf);
            assert(v != 0) by {
                lemma_anc_dep(cp, dep, n, cs[i], v, nf);
                if v == 0 {
                    assert(dep[cs[i]] <= dep[0]);
                    assert(dep[cs[i]] == dep[u] + 1);
                }
            }
            assert(!anc_in(cp, c, cp[v], nf)) by {
                if anc_in(cp, c, cp[v], nf) {
                    lemma_anc_shrink(cp, dep, n, c, cp[v], nf);
                    lemma_anc_fuel(cp, c, cp[v], dep[cp[v]] as nat, (n - 1) as nat);
                    assert(anc_in(cp, c, v, nf));
                }
            }
            assert(top[cp[v]] == pre_top[cp[v]] && tin[cp[v]] == pre_tin[cp[v]]);
        }
    }
    // clause: a continuing node is a heaviest sibling
    assert forall|v: int, c2: int|
        0 <= v < n && #[trigger] hit(cp, cs2, v, n) && top[v] == top[cp[v]] && 1 <= c2 < n
            && #[trigger] cp[c2] == cp[v] implies sub_count(cp, n, c2, n) <= sub_count(
        cp,
        n,
        v,
        n,
    ) by {
        lemma_hit_push(cp, cs, c, v, n);
        if anc_in(cp, c, v, nf) {
            if v == c {
                if heavy {
                } else {
                    assert(top[c] as int == c);
                    assert(top[cp[c]] as int == hd);
                    if c == hd {
                        lemma_anc_dep(cp, dep, n, hd, u, nf);
                    }
                }
            }
        } else {
            assert(hit(cp, cs, v, n));
            assert(top[v] == pre_top[v] && tin[v] == pre_tin[v]);
            let i = choose|i: int| 0 <= i < cs.len() && #[trigger] anc_in(cp, cs[i], v, nf);
            assert(v != 0) by {
                lemma_anc_dep(cp, dep, n, cs[i], v, nf);
                if v == 0 {
                    assert(dep[cs[i]] <= dep[0]);
                    assert(dep[cs[i]] == dep[u] + 1);
                }
            }
            assert(!anc_in(cp, c, cp[v], nf)) by {
                if anc_in(cp, c, cp[v], nf) {
                    lemma_anc_shrink(cp, dep, n, c, cp[v], nf);
                    lemma_anc_fuel(cp, c, cp[v], dep[cp[v]] as nat, (n - 1) as nat);
                    assert(anc_in(cp, c, v, nf));
                }
            }
            assert(top[cp[v]] == pre_top[cp[v]]);
        }
    }
    // clause: the chain goes on through a child
    assert forall|v: int|
        0 <= v < n && #[trigger] hit(cp, cs2, v, n) && has_child(cp, n, v) implies exists|
        c2: int,
    | 1 <= c2 < n && #[trigger] cp[c2] == v && top[c2] == top[v] by {
        lemma_hit_push(cp, cs, c, v, n);
        if anc_in(cp, c, v, nf) {
            assert(exists|c2: int| 1 <= c2 < n && #[trigger] cp[c2] == v && top[c2] == top[v]);
        } else {
            assert(hit(cp, cs, v, n));
            let w = choose|c2: int| 1 <= c2 < n && #[trigger] cp[c2] == v && pre_top[c2]
                == pre_top[v];
            assert(!anc_in(cp, c, w, nf)) by {
                if anc_in(cp, c, w, nf) {
                    assert(anc_in(cp, v, w, nf)) by {
                        lemma_kid_in(cp, n, v, w);
                    }
                    let i = choose|i: int|
                        0 <= i < cs.len() && #[trigger] anc_in(cp, cs[i], v, nf);
                    lemma_anc_trans(cp, dep, n, cs[i], v, w);
                    if cs[i] == c {
                        assert(cs.contains(c));
                    }
                    lemma_child_disjoint(cp, dep, n, cs[i], c, w);
                }
            }
            assert(top[w] == pre_top[w] && top[v] == pre_top[v]);
            assert(cp[w] == v && top[w] == top[v]);
        }
    }
}


/// Writes parent, chain head and position for every node of the
/// subtree of `u`, whose block of positions starts at `pos`. `hd` is
/// the head of the chain `u` sits on; `pu` goes to `u`'s parent entry.
/// The heaviest child is placed first, right after `u`, on `u`'s
/// chain; every other child heads a chain of its own.
#[verifier::rlimit(100)]
#[verifier::spinoff_prover]
fn place_rec(
    adj: &Vec<Vec<usize>>,
    u: usize,
    pu: usize,
    hd: usize,
    pos: usize,
    sub: &Vec<usize>,
    par: &mut Vec<usize>,
    top: &mut Vec<usize>,
    tin: &mut Vec<usize>,
    Ghost(cp): Ghost<Seq<int>>,
    Ghost(dep): Ghost<Seq<int>>,
)
    requires
        tree_cert(adj@, cp, dep),
        u < adj@.len(),
        hd < adj@.len(),
        u != 0 ==> cp[u as int] == pu as int,
        anc_in(cp, hd as int, u as int, adj@.len() as nat),
        old(par)@.len() == adj@.len(),
        old(top)@.len() == adj@.len(),
        old(tin)@.len() == adj@.len(),
        sub@.len() == adj@.len(),
        forall|v: int|
            0 <= v < adj@.len() && #[trigger] anc_in(cp, u as int, v, adj@.len() as nat)
                ==> sub@[v] == sub_count(cp, adj@.len() as int, v, adj@.len() as int),
        pos + sub_count(cp, adj@.len() as int, u as int, adj@.len() as int) <= adj@.len(),
    ensures
        final(par)@.len() == adj@.len(),
        final(top)@.len() == adj@.len(),
        final(tin)@.len() == adj@.len(),
        forall|v: int|
            0 <= v < adj@.len() && !(#[trigger] anc_in(cp, u as int, v, adj@.len() as nat))
                ==> final(par)@[v] == old(par)@[v] && final(top)@[v] == old(top)@[v]
                && final(tin)@[v] == old(tin)@[v],
        final(tin)@[u as int] as int == pos,
        final(top)@[u as int] == hd,
        final(par)@[u as int] == pu,
        placed_sub(cp, adj@.len() as int, u as int, final(par)@, final(top)@, final(tin)@),
    decreases adj@.len() - dep[u as int],
{
    let nn = adj.len();
    let ghost n = adj@.len() as int;
    let ghost nf = n as nat;
    proof {
        assert(n == nn as int && n <= usize::MAX);
        lemma_count_self(cp, n, u as int, n);
        lemma_count_bound(cp, n, u as int, n);
        assert(anc_in(cp, u as int, u as int, nf));
    }
    let deg = adj[u].len();
    let mut hvy: usize = usize::MAX;
    let mut k: usize = 0;
    while k < deg
        invariant
            tree_cert(adj@, cp, dep),
            n == adj@.len() as int,
            nf == n as nat,
            n <= usize::MAX,
            u < n,
            u != 0 ==> cp[u as int] == pu as int,
            deg == adj@[u as int]@.len(),
            k <= deg,
            sub@.len() == n,
            forall|v: int|
                0 <= v < n && #[trigger] anc_in(cp, u as int, v, nf) ==> sub@[v] == sub_count(
                    cp,
                    n,
                    v,
                    n,
                ),
            hvy == usize::MAX ==> kids_upto(adj@, cp, u as int, k as int, -1)
                =~= Seq::<int>::empty(),
            hvy != usize::MAX ==> 1 <= hvy < n && cp[hvy as int] == u as int,
            forall|i: int|
                0 <= i < kids_upto(adj@, cp, u as int, k as int, -1).len() ==> hvy != usize::MAX
                    && sub_count(
                    cp,
                    n,
                    #[trigger] kids_upto(adj@, cp, u as int, k as int, -1)[i],
                    n,
                ) <= sub_count(cp, n, hvy as int, n),
        decreases deg - k,
    {
        let e = adj[u][k];
        proof {
            lemma_entry_child(adj@, cp, dep, u as int, k as int);
        }
        let ghost ks = kids_upto(adj@, cp, u as int, k as int, -1);
        let ghost ks2 = kids_upto(adj@, cp, u as int, k as int + 1, -1);
        if u == 0 || e != pu {
            proof {
                lemma_kid_in(cp, n, u as int, e as int);
                assert(ks2 == ks.push(e as int)) by {
                    assert(adj@[u as int]@[k as int] as int == e as int);
                }
            }
            if hvy == usize::MAX || sub[e] > sub[hvy] {
                proof {
                    if hvy != usize::MAX {
                        lemma_kid_in(cp, n, u as int, hvy as int);
                        assert(sub@[hvy as int] == sub_count(cp, n, hvy as int, n));
                    }
                    assert(sub@[e as int] == sub_count(cp, n, e as int, n));
                }
                hvy = e;
            }
            proof {
                lemma_kid_in(cp, n, u as int, e as int);
                assert(sub@[e as int] == sub_count(cp, n, e as int, n));
                lemma_kid_in(cp, n, u as int, hvy as int);
                assert(sub@[hvy as int] == sub_count(cp, n, hvy as int, n));
                assert forall|i: int| 0 <= i < ks2.len() implies sub_count(
                    cp,
                    n,
                    #[trigger] ks2[i],
                    n,
                ) <= sub_count(cp, n, hvy as int, n) by {
                    if i < ks.len() {
                        assert(ks2[i] == ks[i]);
                    } else {
                        assert(ks2[i] == e as int);
                    }
                }
            }
        } else {
            proof {
                assert(ks2 == ks) by {
                    assert(adj@[u as int]@[k as int] as int == e as int);
                    assert(u != 0 && e as int == cp[u as int]);
                    assert(!(e as int != 0 && cp[e as int] == u as int));
                }
            }
        }
        k = k + 1;
    }
    let ghost kall = kids_upto(adj@, cp, u as int, deg as int, -1);
    proof {
        lemma_kids(adj@, cp, dep, u as int, deg as int, -1);
        assert forall|c: int| 1 <= c < n && #[trigger] cp[c] == u as int implies kall.contains(
            c,
        ) by {
            assert(adj@[cp[c]]@.contains(c as usize));
            let k2 = choose|k2: int|
                0 <= k2 < adj@[u as int]@.len() && adj@[u as int]@[k2] == c as usize;
            assert(adj@[u as int]@[k2] as int == c);
        }
        if hvy == usize::MAX {
            assert(!has_child(cp, n, u as int)) by {
                if has_child(cp, n, u as int) {
                    let c = choose|c: int| 1 <= c < n && #[trigger] cp[c] == u as int;
                    assert(kall.contains(c));
                    let i = choose|i: int| 0 <= i < kall.len() && kall[i] == c;
                }
            }
        } else {
            assert forall|c2: int| 1 <= c2 < n && #[trigger] cp[c2] == u as int implies sub_count(
                cp,
                n,
                c2,
                n,
            ) <= sub_count(cp, n, hvy as int, n) by {
                assert(kall.contains(c2));
                let i = choose|i: int| 0 <= i < kall.len() && kall[i] == c2;
                assert(sub_count(cp, n, kall[i], n) <= sub_count(cp, n, hvy as int, n));
            }
        }
    }
    par.set(u, pu);
    top.set(u, hd);
    tin.set(u, pos);
    let mut cur = pos + 1;
    let ghost mut cs: Seq<int> = Seq::empty();
    proof {
        assert forall|v: int| 0 <= v < n implies !(#[trigger] hit(cp, cs, v, n)) by {
            if hit(cp, cs, v, n) {
                let i = choose|i: int| 0 <= i < cs.len() && #[trigger] anc_in(cp, cs[i], v, nf);
            }
        }
        assert(placing_ok(cp, n, pos as int, cur as int, cs, par@, top@, tin@));
        assert(sum_sub(cp, n, cs, n) == 0);
    }
    if hvy != usize::MAX {
        let ghost pp = par@;
        let ghost pt = top@;
        let ghost pi = tin@;
        proof {
            lemma_kid_in(cp, n, u as int, hvy as int);
            lemma_anc_trans(cp, dep, n, hd as int, u as int, hvy as int);
            assert forall|v: int|
                0 <= v < n && #[trigger] anc_in(cp, hvy as int, v, nf) implies sub@[v]
                == sub_count(cp, n, v, n) by {
                lemma_anc_trans(cp, dep, n, u as int, hvy as int, v);
            }
            assert(!cs.contains(hvy as int)) by {
                if cs.contains(hvy as int) {
                    let i = choose|i: int| 0 <= i < cs.len() && cs[i] == hvy as int;
                }
            }
            lemma_sum_push(cp, n, cs, hvy as int, n);
            lemma_partial_bound(cp, dep, n, u as int, cs.push(hvy as int), n);
            assert(cur as int + sub_count(cp, n, hvy as int, n) <= n);
        }
        place_rec(adj, hvy, u, hd, cur, sub, par, top, tin, Ghost(cp), Ghost(dep));
        proof {
            lemma_place_child(
                cp,
                dep,
                n,
                u as int,
                hd as int,
                pos as int,
                cur as int,
                cs,
                hvy as int,
                true,
                pp,
                pt,
                pi,
                par@,
                top@,
                tin@,
            );
            lemma_kid_not_above(cp, dep, n, u as int, hvy as int);
            let ghost cse: Seq<int> = Seq::empty();
            let ghost csn = cse.push(hvy as int);
            assert forall|v: int|
                0 <= v < n && v != u as int && !(#[trigger] hit(cp, csn, v, n)) implies par@[v]
                == pp[v] && top@[v] == pt[v] && tin@[v] == pi[v] by {
                lemma_hit_push(cp, cse, hvy as int, v, n);
                assert(!anc_in(cp, hvy as int, v, nf));
            }
            cs = csn;
        }
        let sh = sub[hvy];
        cur = cur + sh;
    }
    let ghost cs0 = cs;
    let ghost ex: int = hvy as int;
    proof {
        assert(cs == cs0 + kids_upto(adj@, cp, u as int, 0, ex)) by {
            assert(cs0 + kids_upto(adj@, cp, u as int, 0, ex) =~= cs0);
        }
    }
    let mut k: usize = 0;
    while k < deg
        invariant
            tree_cert(adj@, cp, dep),
            n == adj@.len() as int,
            nf == n as nat,
            n <= usize::MAX,
            u < n,
            hd < n,
            u != 0 ==> cp[u as int] == pu as int,
            anc_in(cp, hd as int, u as int, nf),
            deg == adj@[u as int]@.len(),
            k <= deg,
            sub@.len() == n,
            par@.len() == n,
            top@.len() == n,
            tin@.len() == n,
            forall|v: int|
                0 <= v < n && #[trigger] anc_in(cp, u as int, v, nf) ==> sub@[v] == sub_count(
                    cp,
                    n,
                    v,
                    n,
                ),
            pos + sub_count(cp, n, u as int, n) <= n,
            sub_count(cp, n, u as int, n) >= 1,
            par@[u as int] == pu,
            top@[u as int] == hd,
            tin@[u as int] as int == pos,
            hvy == usize::MAX ==> !has_child(cp, n, u as int) && cs0 == Seq::<int>::empty(),
            hvy != usize::MAX ==> 1 <= hvy < n && cp[hvy as int] == u as int && cs0
                == Seq::<int>::empty().push(hvy as int) && top@[hvy as int] == hd && (forall|
                c2: int,
            |
                1 <= c2 < n && #[trigger] cp[c2] == u as int ==> sub_count(cp, n, c2, n)
                    <= sub_count(cp, n, hvy as int, n)),
            ex == hvy as int,
            cs == cs0 + kids_upto(adj@, cp, u as int, k as int, ex),
            kids_ok(cp, n, u as int, cs),
            cur as int == pos + 1 + sum_sub(cp, n, cs, n),
            cur as int <= pos + sub_count(cp, n, u as int, n),
            pos < cur,
            placing_ok(cp, n, pos as int, cur as int, cs, par@, top@, tin@),
            forall|v: int|
                0 <= v < n && v != u as int && !(#[trigger] hit(cp, cs, v, n)) ==> par@[v]
                    == old(par)@[v] && top@[v] == old(top)@[v] && tin@[v] == old(tin)@[v],
        decreases deg - k,
    {
        let e = adj[u][k];
        proof {
            lemma_entry_child(adj@, cp, dep, u as int, k as int);
            lemma_kids(adj@, cp, dep, u as int, k as int, ex);
            lemma_kids(adj@, cp, dep, u as int, k as int + 1, ex);
        }
        let ghost ks = kids_upto(adj@, cp, u as int, k as int, ex);
        let ghost ks2 = kids_upto(adj@, cp, u as int, k as int + 1, ex);
        if (u == 0 || e != pu) && e != hvy {
            let ghost pp = par@;
            let ghost pt = top@;
            let ghost pi = tin@;
            proof {
                lemma_kid_in(cp, n, u as int, e as int);
                assert(ks2 == ks.push(e as int)) by {
                    assert(adj@[u as int]@[k as int] as int == e as int);
                }
                assert(!cs.contains(e as int)) by {
                    if cs.contains(e as int) {
                        let i = choose|i: int| 0 <= i < cs.len() && cs[i] == e as int;
                        if i < cs0.len() {
                            assert(cs0[i] == e as int);
                        } else {
                            assert(ks[i - cs0.len()] == e as int);
                            assert(ks.contains(e as int));
                            let k2 = choose|k2: int|
                                0 <= k2 < k as int && #[trigger] adj@[u as int]@[k2] as int
                                    == e as int;
                            assert(adj@[u as int]@[k2] == adj@[u as int]@[k as int]);
                        }
                    }
                }
                assert forall|v: int|
                    0 <= v < n && #[trigger] anc_in(cp, e as int, v, nf) implies sub@[v]
                    == sub_count(cp, n, v, n) by {
                    lemma_anc_trans(cp, dep, n, u as int, e as int, v);
                }
                assert(kids_ok(cp, n, u as int, cs.push(e as int))) by {
                    let cs2 = cs.push(e as int);
                    assert forall|i: int| 0 <= i < cs2.len() implies 1 <= #[trigger] cs2[i] < n
                        && cp[cs2[i]] == u as int by {
                        if i < cs.len() {
                            assert(cs2[i] == cs[i]);
                        } else {
                            assert(cs2[i] == e as int);
                        }
                    }
                    assert forall|i: int, j: int| 0 <= i < j < cs2.len() implies cs2[i]
                        != cs2[j] by {
                        if j < cs.len() {
                            assert(cs2[i] == cs[i] && cs2[j] == cs[j]);
                        } else {
                            assert(cs2[i] == cs[i] && cs2[j] == e as int);
                            if cs[i] == e as int {
                                assert(cs.contains(e as int));
                            }
                        }
                    }
                }
                lemma_sum_push(cp, n, cs, e as int, n);
                lemma_partial_bound(cp, dep, n, u as int, cs.push(e as int), n);
                assert(cur as int + sub_count(cp, n, e as int, n) <= n);
            }
            place_rec(adj, e, u, e, cur, sub, par, top, tin, Ghost(cp), Ghost(dep));
            proof {
                lemma_place_child(
                    cp,
                    dep,
                    n,
                    u as int,
                    hd as int,
                    pos as int,
                    cur as int,
                    cs,
                    e as int,
                    false,
                    pp,
                    pt,
                    pi,
                    par@,
                    top@,
                    tin@,
                );
                lemma_kid_not_above(cp, dep, n, u as int, e as int);
                assert(par@[u as int] == pu && top@[u as int] == hd && tin@[u as int] as int
                    == pos);
                if hvy != usize::MAX {
                    assert(!anc_in(cp, e as int, hvy as int, nf)) by {
                        if anc_in(cp, e as int, hvy as int, nf) {
                            assert(anc_in(cp, hvy as int, hvy as int, nf));
                            lemma_child_disjoint(cp, dep, n, e as int, hvy as int, hvy as int);
                        }
                    }
                    assert(top@[hvy as int] == hd);
                }
                let ghost csn = cs.push(e as int);
                assert(csn == cs0 + ks2) by {
                    assert((cs0 + ks).push(e as int) =~= cs0 + ks.push(e as int));
                }
                assert forall|v: int|
                    0 <= v < n && v != u as int && !(#[trigger] hit(cp, csn, v, n)) implies par@[v]
                    == old(par)@[v] && top@[v] == old(top)@[v] && tin@[v] == old(tin)@[v] by {
                    lemma_hit_push(cp, cs, e as int, v, n);
                    assert(!anc_in(cp, e as int, v, nf));
                    assert(pp[v] == old(par)@[v] && pt[v] == old(top)@[v] && pi[v] == old(
                        tin,
                    )@[v]);
                }
                cs = csn;
            }
            let se = sub[e];
            cur = cur + se;
        } else {
            proof {
                assert(ks2 == ks) by {
                    assert(adj@[u as int]@[k as int] as int == e as int);
                    if u == 0 || e != pu {
                        assert(e as int == ex);
                    } else {
                        assert(u != 0 && e as int == cp[u as int]);
                        assert(!(e as int != 0 && cp[e as int] == u as int));
                    }
                }
            }
        }
        k = k + 1;
    }
    proof {
        lemma_kids(adj@, cp, dep, u as int, deg as int, ex);
        let ks = kids_upto(adj@, cp, u as int, deg as int, ex);
        assert(kids_all(cp, n, u as int, cs)) by {
            assert forall|c: int| 1 <= c < n && #[trigger] cp[c] == u as int implies cs.contains(
                c,
            ) by {
                if c == ex {
                    assert(cs[0] == c);
                } else {
                    assert(adj@[cp[c]]@.contains(c as usize));
                    let k2 = choose|k2: int|
                        0 <= k2 < adj@[u as int]@.len() && adj@[u as int]@[k2] == c as usize;
                    assert(adj@[u as int]@[k2] as int == c);
                    assert(ks.contains(c));
                    let i = choose|i: int| 0 <= i < ks.len() && ks[i] == c;
                    assert(cs[cs0.len() + i] == c);
                }
            }
        }
        lemma_partition(cp, dep, n, u as int, cs, n);
        assert(cur as int == pos + sub_count(cp, n, u as int, n));
        // every subtree node other than u was placed under some child
        assert forall|v: int|
            0 <= v < n && v != u as int && #[trigger] anc_in(cp, u as int, v, nf) implies hit(
            cp,
            cs,
            v,
            n,
        ) by {
            lemma_anc_step(cp, dep, n, u as int, v);
            let c = choose|c: int|
                1 <= c < n && cp[c] == u as int && #[trigger] anc_in(cp, c, v, nf);
            assert(cs.contains(c));
            let i = choose|i: int| 0 <= i < cs.len() && cs[i] == c;
            assert(anc_in(cp, cs[i], v, nf));
        }
        // hits lie inside the subtree of u
        assert forall|v: int| 0 <= v < n && #[trigger] hit(cp, cs, v, n) implies anc_in(
            cp,
            u as int,
            v,
            nf,
        ) && v != u as int by {
            let i = choose|i: int| 0 <= i < cs.len() && #[trigger] anc_in(cp, cs[i], v, nf);
            lemma_kid_in(cp, n, u as int, cs[i]);
            lemma_anc_trans(cp, dep, n, u as int, cs[i], v);
            lemma_kid_not_above(cp, dep, n, u as int, cs[i]);
        }
        // the finished subtree placement
        assert forall|a: int, v: int|
            0 <= a < n && 0 <= v < n && #[trigger] anc_in(cp, u as int, a, nf)
                && #[trigger] anc_in(cp, a, v, nf) implies tin@[a] <= tin@[v] < tin@[a]
            + sub_count(cp, n, a, n) by {
            if a == u as int {
                if v != u as int {
                    assert(hit(cp, cs, v, n));
                }
            } else {
                assert(hit(cp, cs, a, n));
            }
        }
        assert forall|v: int|
            0 <= v < n && #[trigger] anc_in(cp, u as int, v, nf) && has_child(
                cp,
                n,
                v,
            ) implies exists|c2: int|
            1 <= c2 < n && #[trigger] cp[c2] == v && top@[c2] == top@[v] by {
            if v == u as int {
                assert(hvy != usize::MAX);
                assert(cp[hvy as int] == u as int && top@[hvy as int] == top@[u as int]);
            } else {
                assert(hit(cp, cs, v, n));
            }
        }
        assert(placed_sub(cp, n, u as int, par@, top@, tin@));
        assert forall|v: int|
            0 <= v < n && !(#[trigger] anc_in(cp, u as int, v, nf)) implies par@[v] == old(
            par,
        )@[v] && top@[v] == old(top)@[v] && tin@[v] == old(tin)@[v] by {
            assert(v != u as int);
            assert(!hit(cp, cs, v, n));
        }
    }
}


/// Heavy-light decomposition tables: parent, subtree size, chain head
/// and preorder position of each node.
pub struct Hld {
    par: Vec<usize>,
    sub: Vec<usize>,
    top: Vec<usize>,
    tin: Vec<usize>,
}

impl Hld {
    /// Number of nodes.
    pub closed spec fn spec_len(&self) -> nat {
        self.par@.len() as nat
    }

    /// The parent table (the sentinel `usize::MAX` for the root).
    pub closed spec fn spec_parent(&self, u: int) -> usize {
        self.par@[u]
    }

    /// The subtree-size table.
    pub closed spec fn spec_subtree(&self, u: int) -> usize {
        self.sub@[u]
    }

    /// The chain-head table.
    pub closed spec fn spec_head(&self, u: int) -> usize {
        self.top@[u]
    }

    /// The preorder-position table.
    pub closed spec fn spec_position(&self, u: int) -> usize {
        self.tin@[u]
    }

    /// Shape: four tables of one entry per node, chain heads and
    /// positions in range.
    pub closed spec fn inv(&self) -> bool {
        let n = self.par@.len() as int;
        &&& self.sub@.len() == n
        &&& self.top@.len() == n
        &&& self.tin@.len() == n
        &&& forall|u: int| 0 <= u < n ==> #[trigger] self.top@[u] < n
        &&& forall|u: int| 0 <= u < n ==> #[trigger] self.par@[u] < n || self.par@[u] == usize::MAX
    }

    /// The tables agree with the parent-and-depth certificate
    /// `(cp, dep)` of the tree `adj`: parents follow `cp` (the root
    /// keeps the sentinel); subtree sizes count the nodes below; the
    /// positions are distinct, in range, give the root position zero,
    /// and place every subtree in the contiguous block that starts at
    /// its root's position and has its size; every chain head is an
    /// ancestor on the same chain, the root heads the first chain, a
    /// node continues its parent's chain or heads its own, a node that
    /// continues its parent's chain sits right after the parent and has
    /// the largest subtree among its siblings, and every node with a
    /// child passes its chain to one of them.
    pub open spec fn decomp(&self, adj: Seq<Vec<usize>>, cp: Seq<int>, dep: Seq<int>) -> bool {
        let n = adj.len() as int;
        &&& tree_cert(adj, cp, dep)
        &&& self.spec_len() == n
        &&& self.spec_parent(0) == usize::MAX
        &&& forall|v: int| 1 <= v < n ==> #[trigger] self.spec_parent(v) as int == cp[v]
        &&& forall|v: int|
            0 <= v < n ==> #[trigger] self.spec_subtree(v) as int == sub_count(cp, n, v, n)
        &&& self.spec_position(0) == 0
        &&& forall|v: int| 0 <= v < n ==> #[trigger] self.spec_position(v) < n
        &&& forall|a: int, b: int|
            #![trigger self.spec_position(a), self.spec_position(b)]
            0 <= a < n && 0 <= b < n && a != b ==> self.spec_position(a) != self.spec_position(b)
        &&& forall|a: int, v: int|
            0 <= a < n && 0 <= v < n && #[trigger] anc_in(cp, a, v, n as nat)
                ==> self.spec_position(a) <= self.spec_position(v) < self.spec_position(a)
                + self.spec_subtree(a)
        &&& self.spec_head(0) == 0
        &&& forall|v: int|
            0 <= v < n ==> #[trigger] self.spec_head(v) < n && anc_in(
                cp,
                self.spec_head(v) as int,
                v,
                n as nat,
            )
        &&& forall|v: int|
            1 <= v < n ==> (#[trigger] self.spec_head(v) == self.spec_head(cp[v])
                || self.spec_head(v) as int == v)
        &&& forall|v: int|
            1 <= v < n && #[trigger] self.spec_head(v) == self.spec_head(cp[v])
                ==> self.spec_position(v) == self.spec_position(cp[v]) + 1
        &&& forall|v: int, c: int|
            #![trigger self.spec_head(v), cp[c]]
            1 <= v < n && self.spec_head(v) == self.spec_head(cp[v]) && 1 <= c < n && cp[c]
                == cp[v] ==> sub_count(cp, n, c, n) <= sub_count(cp, n, v, n)
        &&& forall|v: int|
            0 <= v < n && has_child(cp, n, v) ==> exists|c: int|
                1 <= c < n && #[trigger] cp[c] == v && self.spec_head(c) == self.spec_head(v)
    }

    /// The tables are a heavy-light decomposition of the tree `adj`,
    /// for some certificate of its shape.
    pub open spec fn models(&self, adj: Seq<Vec<usize>>) -> bool {
        exists|cp: Seq<int>, dep: Seq<int>| #[trigger] tree_cert(adj, cp, dep) && self.decomp(
            adj,
            cp,
            dep,
        )
    }

    /// Parent of `u` (the sentinel `usize::MAX` for the root).
    pub fn parent(&self, u: usize) -> (r: usize)
        requires
            self.inv(),
            u < self.spec_len(),
        ensures
            r == self.spec_parent(u as int),
            r < self.spec_len() || r == usize::MAX,
    {
        self.par[u]
    }

    /// Subtree size of `u`.
    pub fn subtree_size(&self, u: usize) -> (r: usize)
        requires
            self.inv(),
            u < self.spec_len(),
        ensures
            r == self.spec_subtree(u as int),
    {
        self.sub[u]
    }

    /// Chain head of `u`.
    pub fn chain_head(&self, u: usize) -> (r: usize)
        requires
            self.inv(),
            u < self.spec_len(),
        ensures
            r == self.spec_head(u as int),
            r < self.spec_len(),
    {
        self.top[u]
    }

    /// Preorder position of `u`.
    pub fn position(&self, u: usize) -> (r: usize)
        requires
            self.inv(),
            u < self.spec_len(),
        ensures
            r == self.spec_position(u as int),
    {
        self.tin[u]
    }

    /// Builds the decomposition of the tree rooted at node 0: one pass
    /// computes every subtree size, a second places every node, always
    /// descending into the heaviest child first so that it continues
    /// its parent's chain in the next position.
    pub fn new(adj: Vec<Vec<usize>>) -> (r: Self)
        requires
            exists|cp: Seq<int>, dep: Seq<int>| tree_cert(adj@, cp, dep),
        ensures
            r.inv(),
            r.spec_len() == adj@.len(),
            r.models(adj@),
    {
        let ghost (cp, dep) = choose|cp: Seq<int>, dep: Seq<int>| tree_cert(adj@, cp, dep);
        let ghost n = adj@.len() as int;
        let ghost nf = n as nat;
        let nn = adj.len();
        let mut sub: Vec<usize> = Vec::new();
        let mut par: Vec<usize> = Vec::new();
        let mut top: Vec<usize> = Vec::new();
        let mut tin: Vec<usize> = Vec::new();
        let mut i: usize = 0;
        while i < nn
            invariant
                i <= nn,
                sub@.len() == i,
                par@.len() == i,
                top@.len() == i,
                tin@.len() == i,
            decreases nn - i,
        {
            sub.push(1);
            par.push(0);
            top.push(0);
            tin.push(0);
            i = i + 1;
        }
        sizes_rec(&adj, 0, 0, &mut sub, Ghost(cp), Ghost(dep));
        proof {
            assert(anc_in(cp, 0, 0, nf));
            lemma_root_count(cp, dep, n, n);
        }
        place_rec(
            &adj,
            0,
            usize::MAX,
            0,
            0,
            &sub,
            &mut par,
            &mut top,
            &mut tin,
            Ghost(cp),
            Ghost(dep),
        );
        let r = Hld { par, sub, top, tin };
        proof {
            assert forall|v: int| 0 <= v < n implies #[trigger] anc_in(cp, 0, v, nf) by {
                lemma_root_anc(cp, dep, n, v);
            }
            assert(r.decomp(adj@, cp, dep)) by {
                assert forall|v: int| 1 <= v < n implies #[trigger] r.spec_parent(v) as int
                    == cp[v] by {
                    assert(anc_in(cp, 0, v, nf));
                }
                assert forall|v: int| 0 <= v < n implies #[trigger] r.spec_subtree(v) as int
                    == sub_count(cp, n, v, n) by {
                    assert(anc_in(cp, 0, v, nf));
                }
                assert forall|a: int, v: int|
                    0 <= a < n && 0 <= v < n && #[trigger] anc_in(cp, a, v, nf) implies r.spec_position(
                    a,
                ) <= r.spec_position(v) < r.spec_position(a) + r.spec_subtree(a) by {
                    assert(anc_in(cp, 0, a, nf));
                    assert(r.spec_subtree(a) as int == sub_count(cp, n, a, n));
                    assert(r.tin@[a] <= r.tin@[v] < r.tin@[a] + sub_count(cp, n, a, n));
                }
                assert forall|v: int| 0 <= v < n implies #[trigger] r.spec_position(v) < n by {
                    assert(anc_in(cp, 0, v, nf));
                    assert(anc_in(cp, 0, 0, nf));
                    assert(r.tin@[0] <= r.tin@[v] < r.tin@[0] + sub_count(cp, n, 0, n));
                }
                assert forall|a: int, b: int|
                    0 <= a < n && 0 <= b < n && a != b implies #[trigger] r.spec_position(a)
                    != #[trigger] r.spec_position(b) by {
                    assert(anc_in(cp, 0, a, nf) && anc_in(cp, 0, b, nf));
                }
                assert forall|v: int| 0 <= v < n implies #[trigger] r.spec_head(v) < n && anc_in(
                    cp,
                    r.spec_head(v) as int,
                    v,
                    nf,
                ) by {
                    assert(anc_in(cp, 0, v, nf));
                }
                assert forall|v: int| 1 <= v < n implies (#[trigger] r.spec_head(v)
                    == r.spec_head(cp[v]) || r.spec_head(v) as int == v) by {
                    assert(anc_in(cp, 0, v, nf));
                }
                assert forall|v: int|
                    1 <= v < n && #[trigger] r.spec_head(v) == r.spec_head(cp[v]) implies r.spec_position(
                    v,
                ) == r.spec_position(cp[v]) + 1 by {
                    assert(anc_in(cp, 0, v, nf));
                }
                assert forall|v: int, c: int|
                    1 <= v < n && #[trigger] r.spec_head(v) == r.spec_head(cp[v]) && 1 <= c < n
                        && #[trigger] cp[c] == cp[v] implies sub_count(cp, n, c, n) <= sub_count(
                    cp,
                    n,
                    v,
                    n,
                ) by {
                    assert(anc_in(cp, 0, v, nf));
                }
                assert forall|v: int|
                    0 <= v < n && has_child(cp, n, v) implies exists|c: int|
                    1 <= c < n && #[trigger] cp[c] == v && r.spec_head(c) == r.spec_head(v) by {
                    assert(anc_in(cp, 0, v, nf));
                    let c = choose|c: int|
                        1 <= c < n && #[trigger] cp[c] == v && r.top@[c] == r.top@[v];
                    assert(r.spec_head(c) == r.spec_head(v));
                }
            }
            assert(r.models(adj@));
            assert(r.inv()) by {
                assert forall|v: int| 0 <= v < n implies #[trigger] r.par@[v] < n || r.par@[v]
                    == usize::MAX by {
                    if v != 0 {
                        assert(r.spec_parent(v) as int == cp[v]);
                    }
                }
                assert forall|v: int| 0 <= v < n implies #[trigger] r.top@[v] < n by {
                    assert(r.spec_head(v) < n && anc_in(cp, r.spec_head(v) as int, v, nf));
                }
            }
        }
        r
    }

    /// Lowest common ancestor of `u` and `v`: climbs out of whichever
    /// chain has the head with the smaller subtree until both nodes
    /// share a chain; there the one with the smaller position is the
    /// answer, and it is the lowest common ancestor under any
    /// certificate that the tables decompose.
    #[verifier::rlimit(100)]
    #[verifier::spinoff_prover]
    pub fn get_lca(&self, u: usize, v: usize) -> (r: usize)
        requires
            self.inv(),
            exists|adjq: Seq<Vec<usize>>, cpq: Seq<int>, depq: Seq<int>| #[trigger] self.decomp(
                adjq,
                cpq,
                depq,
            ),
            u < self.spec_len(),
            v < self.spec_len(),
        ensures
            r < self.spec_len(),
            u == v ==> r == u,
            forall|adjq: Seq<Vec<usize>>, cpq: Seq<int>, depq: Seq<int>|
                #[trigger] self.decomp(adjq, cpq, depq) ==> is_lca(
                    cpq,
                    self.spec_len() as int,
                    r as int,
                    u as int,
                    v as int,
                ),
    {
        let ghost (adjq, cpq, depq) = choose|
            adjq: Seq<Vec<usize>>,
            cpq: Seq<int>,
            depq: Seq<int>,
        | self.decomp(adjq, cpq, depq);
        let ghost n = self.spec_len() as int;
        let ghost nf = n as nat;
        let mut a = u;
        let mut b = v;
        while self.top[a] != self.top[b]
            invariant
                self.inv(),
                self.decomp(adjq, cpq, depq),
                n == self.spec_len() as int,
                nf == n as nat,
                n == adjq.len() as int,
                u < n,
                v < n,
                a < n,
                b < n,
                u == v ==> a == u && b == v,
                anc_in(cpq, a as int, u as int, nf),
                anc_in(cpq, b as int, v as int, nf),
                forall|w: int|
                    0 <= w < n && #[trigger] anc_in(cpq, w, u as int, nf) && anc_in(
                        cpq,
                        w,
                        v as int,
                        nf,
                    ) ==> anc_in(cpq, w, a as int, nf) && anc_in(cpq, w, b as int, nf),
            decreases depq[a as int] + depq[b as int],
        {
            let ta = self.top[a];
            let tb = self.top[b];
            if self.sub[ta] < self.sub[tb] {
                proof {
                    assert(self.spec_head(a as int) == ta && self.spec_head(b as int) == tb);
                    self.lemma_climb(
                        adjq,
                        cpq,
                        depq,
                        u as int,
                        v as int,
                        a as int,
                        b as int,
                    );
                }
                let p = self.par[ta];
                a = p;
            } else {
                proof {
                    assert(self.spec_head(a as int) == ta && self.spec_head(b as int) == tb);
                    self.lemma_climb(
                        adjq,
                        cpq,
                        depq,
                        v as int,
                        u as int,
                        b as int,
                        a as int,
                    );
                }
                let p = self.par[tb];
                b = p;
            }
        }
        let r = if self.tin[a] <= self.tin[b] {
            a
        } else {
            b
        };
        proof {
            let t = self.spec_head(a as int) as int;
            assert(self.spec_head(b as int) as int == t);
            if depq[a as int] >= depq[b as int] {
                self.lemma_chain_comparable(adjq, cpq, depq, t, a as int, b as int);
                assert(self.spec_position(b as int) <= self.spec_position(a as int));
                if self.tin@[a as int] <= self.tin@[b as int] {
                    assert(self.spec_position(a as int) == self.spec_position(b as int));
                    assert(a == b);
                } else {
                    lemma_anc_trans(cpq, depq, n, b as int, a as int, u as int);
                }
            } else {
                self.lemma_chain_comparable(adjq, cpq, depq, t, b as int, a as int);
                assert(self.spec_position(a as int) <= self.spec_position(b as int));
                lemma_anc_trans(cpq, depq, n, a as int, b as int, v as int);
            }
            assert(is_lca(cpq, n, r as int, u as int, v as int));
            assert forall|adjq2: Seq<Vec<usize>>, cpq2: Seq<int>, depq2: Seq<int>|
                #[trigger] self.decomp(adjq2, cpq2, depq2) implies is_lca(
                cpq2,
                self.spec_len() as int,
                r as int,
                u as int,
                v as int,
            ) by {
                assert(cpq2 =~= cpq) by {
                    assert(cpq2.len() == n && cpq.len() == n);
                    assert forall|x: int| 0 <= x < n implies cpq2[x] == cpq[x] by {
                        if x != 0 {
                            assert(self.spec_parent(x) as int == cpq[x]);
                            assert(self.spec_parent(x) as int == cpq2[x]);
                        }
                    }
                }
            }
        }
        r
    }
}


/// `r` is the lowest common ancestor of `u` and `v` under the parent
/// map `cp`: a common ancestor that every common ancestor is an
/// ancestor of.
pub open spec fn is_lca(cp: Seq<int>, n: int, r: int, u: int, v: int) -> bool {
    &&& 0 <= r < n
    &&& anc_in(cp, r, u, n as nat)
    &&& anc_in(cp, r, v, n as nat)
    &&& forall|w: int|
        0 <= w < n && #[trigger] anc_in(cp, w, u, n as nat) && anc_in(cp, w, v, n as nat)
            ==> anc_in(cp, w, r, n as nat)
}

/// A proper subtree's count is strictly below the enclosing count.
proof fn lemma_count_strict(cp: Seq<int>, dep: Seq<int>, n: int, x: int, y: int, m: int)
    requires
        dep_ok(cp, dep, n),
        0 <= x < n,
        0 <= y < n,
        x != y,
        anc_in(cp, x, y, n as nat),
        0 <= m <= n,
    ensures
        sub_count(cp, n, y, m) <= sub_count(cp, n, x, m) - (if x < m {
            1int
        } else {
            0int
        }),
    decreases m,
{
    if m > 0 {
        lemma_count_strict(cp, dep, n, x, y, m - 1);
        let w = m - 1;
        if w == x {
            assert(anc_in(cp, x, x, n as nat));
            assert(!anc_in(cp, y, x, n as nat)) by {
                if anc_in(cp, y, x, n as nat) {
                    lemma_anc_dep(cp, dep, n, y, x, n as nat);
                    lemma_anc_dep(cp, dep, n, x, y, n as nat);
                }
            }
        } else if anc_in(cp, y, w, n as nat) {
            lemma_anc_trans(cp, dep, n, x, y, w);
        }
    }
}

impl Hld {
    /// One climbing step of the common-ancestor search: when the two
    /// chains differ and the head of `a`'s chain has the smaller
    /// subtree, that head is not the root, every common ancestor of
    /// `u` and `v` stays above the head's parent, and the step goes up.
    #[verifier::rlimit(100)]
    #[verifier::spinoff_prover]
    proof fn lemma_climb(
        &self,
        adjq: Seq<Vec<usize>>,
        cpq: Seq<int>,
        depq: Seq<int>,
        u: int,
        v: int,
        a: int,
        b: int,
    )
        requires
            self.decomp(adjq, cpq, depq),
            0 <= u < adjq.len(),
            0 <= v < adjq.len(),
            0 <= a < adjq.len(),
            0 <= b < adjq.len(),
            anc_in(cpq, a, u, adjq.len() as nat),
            anc_in(cpq, b, v, adjq.len() as nat),
            forall|w: int|
                0 <= w < adjq.len() && #[trigger] anc_in(cpq, w, u, adjq.len() as nat) && anc_in(
                    cpq,
                    w,
                    v,
                    adjq.len() as nat,
                ) ==> anc_in(cpq, w, a, adjq.len() as nat) && anc_in(cpq, w, b, adjq.len() as nat),
            self.spec_head(a) != self.spec_head(b),
            self.spec_subtree(self.spec_head(a) as int) <= self.spec_subtree(
                self.spec_head(b) as int,
            ),
        ensures
            self.spec_head(a) as int != 0,
            0 <= cpq[self.spec_head(a) as int] < adjq.len(),
            self.spec_parent(self.spec_head(a) as int) as int == cpq[self.spec_head(a) as int],
            anc_in(cpq, cpq[self.spec_head(a) as int], u, adjq.len() as nat),
            depq[cpq[self.spec_head(a) as int]] < depq[a],
            forall|w: int|
                0 <= w < adjq.len() && #[trigger] anc_in(cpq, w, u, adjq.len() as nat) && anc_in(
                    cpq,
                    w,
                    v,
                    adjq.len() as nat,
                ) ==> anc_in(cpq, w, cpq[self.spec_head(a) as int], adjq.len() as nat),
    {
        let n = adjq.len() as int;
        let nf = n as nat;
        let ta = self.spec_head(a) as int;
        let tb = self.spec_head(b) as int;
        assert(ta < n && anc_in(cpq, ta, a, nf));
        assert(tb < n && anc_in(cpq, tb, b, nf));
        assert(self.spec_subtree(ta) as int == sub_count(cpq, n, ta, n));
        assert(self.spec_subtree(tb) as int == sub_count(cpq, n, tb, n));
        lemma_root_count(cpq, depq, n, n);
        lemma_root_anc(cpq, depq, n, tb);
        assert(ta != 0) by {
            if ta == 0 {
                lemma_count_bound(cpq, n, tb, n);
                lemma_count_strict(cpq, depq, n, 0, tb, n);
            }
        }
        assert(self.spec_parent(ta) as int == cpq[ta]);
        let pa = cpq[ta];
        assert(0 <= pa < n);
        assert(anc_in(cpq, pa, ta, nf)) by {
            assert(anc_in(cpq, pa, pa, (n - 1) as nat));
        }
        lemma_anc_trans(cpq, depq, n, pa, ta, a);
        lemma_anc_trans(cpq, depq, n, pa, a, u);
        assert forall|w: int|
            0 <= w < n && #[trigger] anc_in(cpq, w, u, nf) && anc_in(cpq, w, v, nf) implies anc_in(
            cpq,
            w,
            pa,
            nf,
        ) by {
            assert(anc_in(cpq, w, a, nf) && anc_in(cpq, w, b, nf));
            lemma_anc_comparable(cpq, depq, n, w, ta, a);
            if anc_in(cpq, w, ta, nf) && w != ta {
                lemma_anc_dep(cpq, depq, n, w, ta, nf);
            } else {
                assert(anc_in(cpq, ta, w, nf));
                lemma_anc_trans(cpq, depq, n, ta, w, b);
                lemma_anc_comparable(cpq, depq, n, ta, tb, b);
                if anc_in(cpq, ta, tb, nf) {
                    lemma_count_strict(cpq, depq, n, ta, tb, n);
                } else {
                    self.lemma_chain_between(adjq, cpq, depq, tb, ta, b);
                    self.lemma_chain_between(adjq, cpq, depq, ta, ta, a);
                }
                assert(false);
            }
        }
        lemma_anc_dep(cpq, depq, n, ta, a, nf);
    }

    /// Every node on the upward path between a node and its chain head
    /// lies on that same chain.
    proof fn lemma_chain_between(
        &self,
        adjq: Seq<Vec<usize>>,
        cpq: Seq<int>,
        depq: Seq<int>,
        t: int,
        w: int,
        b: int,
    )
        requires
            self.decomp(adjq, cpq, depq),
            0 <= b < adjq.len(),
            0 <= w < adjq.len(),
            anc_in(cpq, t, w, adjq.len() as nat),
            anc_in(cpq, w, b, adjq.len() as nat),
            self.spec_head(b) as int == t,
        ensures
            self.spec_head(w) as int == t,
        decreases depq[b],
    {
        let n = adjq.len() as int;
        let nf = n as nat;
        if b != w {
            lemma_anc_dep(cpq, depq, n, w, b, nf);
            assert(b != 0);
            if self.spec_head(b) as int == b {
                lemma_anc_dep(cpq, depq, n, t, w, nf);
            } else {
                assert(self.spec_head(cpq[b]) as int == t);
                self.lemma_chain_between(adjq, cpq, depq, t, w, cpq[b]);
            }
        }
    }

    /// Two nodes on one chain are comparable: the shallower is an
    /// ancestor of the deeper.
    proof fn lemma_chain_comparable(
        &self,
        adjq: Seq<Vec<usize>>,
        cpq: Seq<int>,
        depq: Seq<int>,
        t: int,
        a: int,
        b: int,
    )
        requires
            self.decomp(adjq, cpq, depq),
            0 <= a < adjq.len(),
            0 <= b < adjq.len(),
            self.spec_head(a) as int == t,
            self.spec_head(b) as int == t,
            depq[a] >= depq[b],
        ensures
            anc_in(cpq, b, a, adjq.len() as nat),
        decreases depq[a] + depq[b],
    {
        let n = adjq.len() as int;
        let nf = n as nat;
        let ta = self.spec_head(a) as int;
        assert(anc_in(cpq, t, a, nf) && anc_in(cpq, t, b, nf));
        if a == b {
        } else if b == t {
        } else if a == t {
            lemma_anc_dep(cpq, depq, n, t, b, nf);
            assert(b == t);
        } else {
            assert(a != 0) by {
                if a == 0 {
                    lemma_anc_dep(cpq, depq, n, t, a, nf);
                    assert(depq[t] <= 0 && t != a);
                }
            }
            assert(b != 0) by {
                if b == 0 {
                    lemma_anc_dep(cpq, depq, n, t, b, nf);
                    assert(depq[t] <= 0 && t != b);
                }
            }
            assert(self.spec_head(cpq[a]) as int == t);
            assert(self.spec_head(cpq[b]) as int == t);
            lemma_anc_dep(cpq, depq, n, t, a, nf);
            lemma_anc_dep(cpq, depq, n, t, b, nf);
            if depq[a] == depq[b] {
                self.lemma_chain_comparable(adjq, cpq, depq, t, cpq[a], cpq[b]);
                self.lemma_chain_comparable(adjq, cpq, depq, t, cpq[b], cpq[a]);
                lemma_anc_dep(cpq, depq, n, cpq[b], cpq[a], nf);
                lemma_anc_dep(cpq, depq, n, cpq[a], cpq[b], nf);
                assert(cpq[a] == cpq[b]);
                assert(self.spec_position(a) == self.spec_position(cpq[a]) + 1);
                assert(self.spec_position(b) == self.spec_position(cpq[b]) + 1);
                assert(self.spec_position(a) == self.spec_position(b));
                assert(false);
            } else {
                self.lemma_chain_comparable(adjq, cpq, depq, t, cpq[a], b);
                lemma_anc_shrink(cpq, depq, n, b, cpq[a], nf);
                lemma_anc_fuel(cpq, b, cpq[a], depq[cpq[a]] as nat, (n - 1) as nat);
            }
        }
    }
}

} // verus!
