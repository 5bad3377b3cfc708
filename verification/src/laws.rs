//! Construction-method independence of the aggregate structures.
//!
//! Each aggregate structure's queries are specified as folds of its
//! logical contents, so two ways of building the same contents answer
//! every query identically. The lemmas here close the remaining gap:
//! sequential point operations, applied once per position to a fresh
//! structure, produce exactly the contents that bulk construction
//! promises.

use vstd::prelude::*;
use crate::monoid::{Monoid, mfold, MinI32, MaxI32};

verus! {

/// The fold of a nonempty sequence under the minimum combiner is the
/// sequence's least element: it occurs in the sequence and bounds every
/// element from below. Together with the sparse table's and range
/// trees' fold contracts, every range query returns exactly the naive
/// minimum of its slice.
pub proof fn lemma_min_fold_is_minimum(s: Seq<i32>)
    requires
        s.len() > 0,
    ensures
        s.contains(mfold::<i32, MinI32>(s)),
        forall|i: int| 0 <= i < s.len() ==> mfold::<i32, MinI32>(s) <= #[trigger] s[i],
    decreases s.len(),
{
    let d = s.drop_last();
    if s.len() == 1 {
        assert(mfold::<i32, MinI32>(d) == i32::MAX);
        assert(s[0] == s.last());
    } else {
        lemma_min_fold_is_minimum(d);
        let m = mfold::<i32, MinI32>(d);
        assert(d.contains(m));
        let w = choose|w: int| 0 <= w < d.len() && d[w] == m;
        assert(s[w] == m);
        assert forall|i: int| 0 <= i < s.len() implies mfold::<i32, MinI32>(s) <= #[trigger] s[i]
            by {
            if i < s.len() - 1 {
                assert(d[i] == s[i]);
            }
        }
    }
}

/// The fold of a nonempty sequence under the maximum combiner is the
/// sequence's greatest element.
pub proof fn lemma_max_fold_is_maximum(s: Seq<i32>)
    requires
        s.len() > 0,
    ensures
        s.contains(mfold::<i32, MaxI32>(s)),
        forall|i: int| 0 <= i < s.len() ==> mfold::<i32, MaxI32>(s) >= #[trigger] s[i],
    decreases s.len(),
{
    let d = s.drop_last();
    if s.len() == 1 {
        assert(mfold::<i32, MaxI32>(d) == i32::MIN);
        assert(s[0] == s.last());
    } else {
        lemma_max_fold_is_maximum(d);
        let m = mfold::<i32, MaxI32>(d);
        assert(d.contains(m));
        let w = choose|w: int| 0 <= w < d.len() && d[w] == m;
        assert(s[w] == m);
        assert forall|i: int| 0 <= i < s.len() implies mfold::<i32, MaxI32>(s) >= #[trigger] s[i]
            by {
            if i < s.len() - 1 {
                assert(d[i] == s[i]);
            }
        }
    }
}

/// Contents of a fresh binary-indexed tree after one `update` per
/// position, in positions below `k`: the combine of the data value
/// into the identity.
pub open spec fn updated_prefix<X, M: Monoid<X>>(data: Seq<X>, k: int) -> Seq<X> {
    Seq::new(data.len(), |i: int| if i < k { M::op(data[i], M::id()) } else { M::id() })
}

/// Round-trip law for the binary-indexed tree: a fresh tree updated
/// once at every position holds exactly the initial data, which is
/// also what bulk construction builds; since every query is a fold of
/// the contents, the two construction methods agree on all queries.
pub proof fn lemma_bit_round_trip<X, M: Monoid<X>>(data: Seq<X>)
    ensures
        updated_prefix::<X, M>(data, 0) == Seq::new(data.len(), |i: int| M::id()),
        forall|k: int|
            0 <= k < data.len() ==> #[trigger] updated_prefix::<X, M>(data, k + 1)
                == updated_prefix::<X, M>(data, k).update(k, M::op(data[k], M::id())),
        updated_prefix::<X, M>(data, data.len() as int) == data,
{
    assert(updated_prefix::<X, M>(data, 0) =~= Seq::new(data.len(), |i: int| M::id()));
    assert forall|k: int| 0 <= k < data.len() implies #[trigger] updated_prefix::<X, M>(
        data,
        k + 1,
    ) == updated_prefix::<X, M>(data, k).update(k, M::op(data[k], M::id())) by {
        assert(updated_prefix::<X, M>(data, k + 1) =~= updated_prefix::<X, M>(data, k).update(
            k,
            M::op(data[k], M::id()),
        ));
    }
    assert(updated_prefix::<X, M>(data, data.len() as int) =~= data) by {
        assert forall|i: int| 0 <= i < data.len() implies updated_prefix::<X, M>(
            data,
            data.len() as int,
        )[i] == data[i] by {
            M::id_right(data[i]);
        }
    }
}

/// Contents of a structure after overwriting positions below `k` with
/// the data values, leaving the rest as they were.
pub open spec fn overwritten_prefix<X>(s0: Seq<X>, data: Seq<X>, k: int) -> Seq<X> {
    Seq::new(s0.len(), |i: int| if i < k { data[i] } else { s0[i] })
}

/// Round-trip law for the range-aggregate tree: writing every leaf of
/// any same-sized tree (by `set`, or by `set_leaf` followed by `build`)
/// yields exactly the data, which is what building from the data gives;
/// since `prod` is a fold of the leaves, the construction methods agree
/// on all range queries.
pub proof fn lemma_seg_round_trip<X>(s0: Seq<X>, data: Seq<X>)
    requires
        s0.len() == data.len(),
    ensures
        overwritten_prefix(s0, data, 0) == s0,
        forall|k: int|
            0 <= k < data.len() ==> #[trigger] overwritten_prefix(s0, data, k + 1)
                == overwritten_prefix(s0, data, k).update(k, data[k]),
        overwritten_prefix(s0, data, data.len() as int) == data,
{
    assert(overwritten_prefix(s0, data, 0) =~= s0);
    assert forall|k: int| 0 <= k < data.len() implies #[trigger] overwritten_prefix(
        s0,
        data,
        k + 1,
    ) == overwritten_prefix(s0, data, k).update(k, data[k]) by {
        assert(overwritten_prefix(s0, data, k + 1) =~= overwritten_prefix(s0, data, k).update(
            k,
            data[k],
        ));
    }
    assert(overwritten_prefix(s0, data, data.len() as int) =~= data);
}

} // verus!
