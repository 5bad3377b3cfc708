//! Xorshift-rotate generator with 128 bits of state, and a
//! Fisher-Yates shuffle driven by it.

use vstd::prelude::*;

verus! {

/// Pseudo-random generator in the xoroshiro128+ family.
///
/// The two state words are supplied explicitly by the caller, so a
/// given seed always reproduces the same stream.
pub struct Xrsr {
    s0: u64,
    s1: u64,
}

/// Output word of one generator step applied to state `(s0, s1)`:
/// the sum of the state words, reduced modulo 2^64.
pub open spec fn step_result(s0: u64, s1: u64) -> u64 {
    vstd::wrapping::u64_specs::wrapping_add(s0, s1)
}

/// First state word after one generator step.
pub open spec fn step_s0(s0: u64, s1: u64) -> u64 {
    ((s0 << 24) | (s0 >> 40)) ^ (s1 ^ s0) ^ ((s1 ^ s0) << 16)
}

/// Second state word after one generator step.
pub open spec fn step_s1(s0: u64, s1: u64) -> u64 {
    ((s1 ^ s0) << 37) | ((s1 ^ s0) >> 27)
}

/// The Fisher-Yates shuffle as a mathematical function: walking `i`
/// from the back, swap position `i` with position `gen() mod (i + 1)`,
/// threading the generator state; yields the final contents and the
/// two final state words.
pub open spec fn fisher_yates<T>(data: Seq<T>, s0: u64, s1: u64, i: int) -> (Seq<T>, u64, u64)
    decreases i,
{
    if i < 1 {
        (data, s0, s1)
    } else {
        let j = step_result(s0, s1) as int % (i + 1);
        fisher_yates(
            data.update(i, data[j]).update(j, data[i]),
            step_s0(s0, s1),
            step_s1(s0, s1),
            i - 1,
        )
    }
}

impl Xrsr {
    /// View of the generator state as the pair of state words.
    pub closed spec fn view(&self) -> (u64, u64) {
        (self.s0, self.s1)
    }

    /// Builds a generator from an explicit two-word seed.
    pub fn new(seed0: u64, seed1: u64) -> (r: Self)
        ensures
            r@ == (seed0, seed1),
    {
        Xrsr { s0: seed0, s1: seed1 }
    }

    /// Advances the state one step and returns the output word.
    pub fn gen(&mut self) -> (r: u64)
        ensures
            r == step_result(old(self)@.0, old(self)@.1),
            final(self)@.0 == step_s0(old(self)@.0, old(self)@.1),
            final(self)@.1 == step_s1(old(self)@.0, old(self)@.1),
    {
        let s0 = self.s0;
        let mut s1 = self.s1;
        let result = s0.wrapping_add(s1);
        s1 = s1 ^ s0;
        self.s0 = ((s0 << 24) | (s0 >> 40)) ^ s1 ^ (s1 << 16);
        self.s1 = (s1 << 37) | (s1 >> 27);
        result
    }

    /// Fisher-Yates shuffle from the back of the slice. The exact
    /// result and the generator's final state are pinned by the
    /// `fisher_yates` recursion on the seed, so a given seed always
    /// produces the same rearrangement; in particular the result holds
    /// exactly the elements of the input.
    pub fn shuffle<T: Copy>(&mut self, data: &mut Vec<T>)
        ensures
            final(data)@.len() == old(data)@.len(),
            final(data)@.to_multiset() == old(data)@.to_multiset(),
            final(data)@ == fisher_yates(
                old(data)@,
                old(self)@.0,
                old(self)@.1,
                old(data)@.len() - 1,
            ).0,
            final(self)@.0 == fisher_yates(
                old(data)@,
                old(self)@.0,
                old(self)@.1,
                old(data)@.len() - 1,
            ).1,
            final(self)@.1 == fisher_yates(
                old(data)@,
                old(self)@.0,
                old(self)@.1,
                old(data)@.len() - 1,
            ).2,
    {
        let ghost target = fisher_yates(old(data)@, old(self)@.0, old(self)@.1, old(data)@.len() - 1);
        let len = data.len();
        if len == 0 {
            return;
        }
        let mut i: usize = len - 1;
        while i >= 1
            invariant
                i < len,
                data@.len() == len,
                data@.len() == old(data)@.len(),
                data@.to_multiset() == old(data)@.to_multiset(),
                target == fisher_yates(old(data)@, old(self)@.0, old(self)@.1, len - 1),
                fisher_yates(data@, self@.0, self@.1, i as int) == target,
            decreases i,
    {
            let ghost pre_data = data@;
            let ghost pre_s0 = self@.0;
            let ghost pre_s1 = self@.1;
            let j = (self.gen() % ((i + 1) as u64)) as usize;
            proof {
                lemma_swap_multiset(data@, i as int, j as int);
                assert(j as int == step_result(pre_s0, pre_s1) as int % (i as int + 1));
            }
            let vi = data[i];
            let vj = data[j];
            data[i] = vj;
            data[j] = vi;
            proof {
                assert(data@ == pre_data.update(i as int, pre_data[j as int]).update(
                    j as int,
                    pre_data[i as int],
                ));
            }
            i = i - 1;
        }
        proof {
            assert(fisher_yates(data@, self@.0, self@.1, 0) == (data@, self@.0, self@.1));
        }
    }
}

/// Swapping two positions of a sequence keeps its multiset of elements.
proof fn lemma_swap_multiset<T>(s: Seq<T>, i: int, j: int)
    requires
        0 <= i < s.len(),
        0 <= j < s.len(),
    ensures
        s.update(i, s[j]).update(j, s[i]).to_multiset() == s.to_multiset(),
{
    broadcast use vstd::seq_lib::to_multiset_update;
    broadcast use vstd::seq_lib::group_to_multiset_ensures;

    let s1 = s.update(i, s[j]);
    let s2 = s1.update(j, s[i]);
    assert(s.contains(s[i]));
    assert(s.to_multiset().count(s[i]) > 0);
    assert(s1[j] == s[j]);
    assert(s1.to_multiset() == s.to_multiset().insert(s[j]).remove(s[i]));
    assert(s2.to_multiset() == s1.to_multiset().insert(s[i]).remove(s[j]));
    assert(s2.to_multiset() =~= s.to_multiset());
}

} // verus!
