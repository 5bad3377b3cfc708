//! Facts about the lowest set bit and the binary-indexed (Fenwick)
//! layout, shared by the binary-indexed trees.
//!
//! Node `j` (1-based) of a binary-indexed tree covers the element
//! interval `[j - lowbit(j), j)`. The lemmas here are the bit-level
//! facts those structures rest on: how the query chain `j &= j - 1`
//! and the update chain `j += lowbit(j)` walk the covering intervals.

use vstd::prelude::*;

verus! {

/// Lowest set bit of `j`, written as `j ^ (j & (j - 1))`: clearing the
/// lowest set bit and xoring back isolates it. Meaningful for `j >= 1`.
pub open spec fn lowbit(j: usize) -> usize {
    j ^ (j & ((j - 1) as usize))
}

/// Executable lowest set bit.
pub fn lowbit_exec(j: usize) -> (r: usize)
    requires
        j >= 1,
    ensures
        r == lowbit(j),
{
    j ^ (j & (j - 1))
}

/// Node `j` covers element indices `[j - lowbit(j), j)`.
pub open spec fn node_lo(j: usize) -> int {
    j - lowbit(j)
}

/// Element `i` lies in the interval covered by node `j`.
pub open spec fn covers(j: usize, i: int) -> bool {
    node_lo(j) <= i < j
}

/// The lowest set bit of a positive number is between 1 and the number.
pub proof fn lemma_lowbit_range(j: usize)
    by (bit_vector)
    requires
        j >= 1,
    ensures
        1 <= lowbit(j),
        lowbit(j) <= j,
{
}

/// Clearing the lowest set bit steps to the covered interval's start.
pub proof fn lemma_query_step(j: usize)
    by (bit_vector)
    requires
        j >= 1,
    ensures
        (j & ((j - 1) as usize)) == j - lowbit(j),
{
}

/// The next node on the update chain starts no later than this one,
/// so its interval covers everything this one covers.
pub proof fn lemma_update_step(j: usize)
    by (bit_vector)
    requires
        1 <= j,
        2 * j == (2 * j) as usize,
    ensures
        lowbit((j + lowbit(j)) as usize) >= 2 * lowbit(j),
{
}

/// Nodes strictly between `j` and `j + lowbit(j)` start at or after `j`,
/// so they cover nothing below `j`.
pub proof fn lemma_chain_gap(j: usize, k: usize)
    by (bit_vector)
    requires
        j >= 1,
        j < k,
        k < j + lowbit(j),
    ensures
        k - lowbit(k) >= j,
{
}

/// With `i` aligned to `2 * len` and `len` a power of two, the node
/// ending at `i + len` covers exactly `[i, i + len)`.
#[verifier::rlimit(100)]
pub proof fn lemma_aligned_lowbit(i: usize, len: usize)
    by (bit_vector)
    requires
        len >= 1,
        len & ((len - 1) as usize) == 0,
        2 * len == (2 * len) as usize,
        i % ((2 * len) as usize) == 0,
        i + len == (i + len) as usize,
    ensures
        lowbit((i + len) as usize) == len,
{
}

/// Doubling preserves the power-of-two mask test.
pub proof fn lemma_pow2_mask_double(len: usize)
    by (bit_vector)
    requires
        len >= 1,
        2 * len == (2 * len) as usize,
        len & ((len - 1) as usize) == 0,
    ensures
        ((2 * len) as usize) & ((2 * len - 1) as usize) == 0,
{
}

/// `c` is a child of node `k` in the binary-indexed layout: the update
/// chain steps from `c` straight to `k`.
pub open spec fn is_child(c: usize, k: int) -> bool {
    c >= 1 && c + lowbit(c) == k
}

/// A node and its lowest set bit sum to an even number, so odd nodes
/// have no children.
pub proof fn lemma_child_sum_even(c: usize)
    by (bit_vector)
    requires
        c >= 1,
    ensures
        (c + lowbit(c)) % 2 == 0,
{
}

/// An odd node's lowest set bit is 1.
pub proof fn lemma_odd_lowbit(c: usize)
    by (bit_vector)
    requires
        c % 2 == 1,
    ensures
        lowbit(c) == 1,
{
}

/// Among the children of one node, a smaller child lies at or below
/// the start of a larger child's interval.
pub proof fn lemma_children_order(c: usize, i: usize, j: usize)
    by (bit_vector)
    requires
        c >= 1,
        i >= 1,
        c < i,
        c + lowbit(c) == j,
        i + lowbit(i) == j,
    ensures
        c <= i - lowbit(i),
{
}

/// When a child's interval does not start at its parent's start, the
/// node just below that start is the next smaller child.
pub proof fn lemma_prev_child(i: usize, j: usize)
    by (bit_vector)
    requires
        i >= 1,
        2 * i == (2 * i) as usize,
        i + lowbit(i) == j,
        i - lowbit(i) > j - lowbit(j as usize),
    ensures
        ((i - lowbit(i)) as usize) + lowbit((i - lowbit(i)) as usize) == j,
        i - lowbit(i) >= 1,
{
}

/// Halving preserves the power-of-two mask test.
pub proof fn lemma_pow2_mask_half(len: usize)
    by (bit_vector)
    requires
        len >= 2,
        len & ((len - 1) as usize) == 0,
    ensures
        (len / 2) & ((len / 2 - 1) as usize) == 0,
        len / 2 >= 1,
        len % 2 == 0,
{
}

} // verus!
