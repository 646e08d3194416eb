//! Leaves laid out in another order than the items, with the map back.
use vstd::prelude::*;

use crate::rectangle::{Rectangle, envelope_of, lemma_bounds_unique, lemma_envelope_bounds};

verus! {

broadcast use vstd::seq_lib::group_to_multiset_ensures;

/// Leaf `q` holds item `sigma[q]`, or is empty padding when `sigma[q]` is
/// not an item index; each item stands at exactly one leaf.
pub open spec fn permuted(items: Seq<Rectangle>, leaves: Seq<Rectangle>, sigma: Seq<usize>) -> bool {
    &&& sigma.len() == leaves.len()
    &&& sigma.len() <= usize::MAX
    &&& items.len() <= leaves.len()
    &&& leaves.len() == 0 <==> items.len() == 0
    &&& forall|q: int|
        0 <= q < leaves.len() ==> if (#[trigger] sigma[q]) < items.len() {
            leaves[q] == items[sigma[q] as int]
        } else {
            leaves[q].empty()
        }
    &&& forall|q1: int, q2: int|
        0 <= q1 < leaves.len() && 0 <= q2 < leaves.len() && q1 != q2 && (#[trigger] sigma[q1]) < items.len() ==> sigma[q1] != #[trigger] sigma[q2]
    &&& forall|i: int| 0 <= i < items.len() ==> #[trigger] placed(sigma, i)
}

/// Padding (index `usize::MAX`) runs up to a node boundary: a leaf that
/// holds an item right after padding starts a node of `d` leaves, and the
/// first leaf holds an item.
pub open spec fn padding_aligned(sigma: Seq<usize>, d: int) -> bool {
    &&& sigma.len() > 0 ==> sigma[0] != usize::MAX
    &&& forall|q: int|
        0 <= q && q + 1 < sigma.len() && sigma[q] == usize::MAX && (#[trigger] sigma[q + 1]) != usize::MAX
            ==> (q + 1) % d == 0
}

/// Some leaf holds item `i`.
pub open spec fn placed(sigma: Seq<usize>, i: int) -> bool {
    exists|q: int| 0 <= q < sigma.len() && sigma[q] == i
}

/// Some entry carries position `i`.
pub open spec fn carried<A>(cur: Seq<A>, idx: spec_fn(A) -> int, i: int) -> bool {
    exists|p: int| 0 <= p < cur.len() && idx(cur[p]) == i
}

/// A reordering of entries that each carry their own position.
pub proof fn lemma_reordered<A>(init: Seq<A>, cur: Seq<A>, idx: spec_fn(A) -> int)
    requires
        forall|i: int| 0 <= i < init.len() ==> #[trigger] idx(init[i]) == i,
        cur.to_multiset() == init.to_multiset(),
    ensures
        cur.len() == init.len(),
        forall|p: int| 0 <= p < cur.len() ==> 0 <= #[trigger] idx(cur[p]) < init.len() && cur[p] == init[idx(cur[p])],
        forall|p: int, q: int| 0 <= p < cur.len() && 0 <= q < cur.len() && #[trigger] idx(cur[p]) == #[trigger] idx(cur[q]) ==> p == q,
        forall|i: int| 0 <= i < init.len() ==> #[trigger] carried(cur, idx, i),
{
    assert(init.len() == init.to_multiset().len());
    assert(cur.len() == cur.to_multiset().len());
    assert forall|p: int| 0 <= p < cur.len() implies 0 <= #[trigger] idx(cur[p]) < init.len() && cur[p] == init[idx(cur[p])] by {
        assert(cur.contains(cur[p]));
        assert(cur.to_multiset().count(cur[p]) > 0);
        assert(init.contains(cur[p]));
        let j = choose|j: int| 0 <= j < init.len() && init[j] == cur[p];
        assert(idx(init[j]) == j);
    }
    assert(init.no_duplicates()) by {
        assert forall|a: int, b: int| 0 <= a < init.len() && 0 <= b < init.len() && a != b implies init[a] != init[b] by {
            assert(idx(init[a]) == a && idx(init[b]) == b);
        }
    }
    init.lemma_multiset_has_no_duplicates();
    cur.lemma_multiset_has_no_duplicates_conv();
    assert forall|p: int, q: int| 0 <= p < cur.len() && 0 <= q < cur.len() && #[trigger] idx(cur[p]) == #[trigger] idx(cur[q]) implies p == q by {
        assert(cur[p] == init[idx(cur[p])]);
        assert(cur[q] == init[idx(cur[q])]);
    }
    assert forall|i: int| 0 <= i < init.len() implies #[trigger] carried(cur, idx, i) by {
        assert(init.contains(init[i]));
        assert(init.to_multiset().count(init[i]) > 0);
        assert(cur.contains(init[i]));
        let p = choose|p: int| 0 <= p < cur.len() && cur[p] == init[i];
        assert(idx(cur[p]) == i);
    }
}

/// The leaves have the envelope of the items.
pub proof fn lemma_permuted_envelope(items: Seq<Rectangle>, leaves: Seq<Rectangle>, sigma: Seq<usize>)
    requires
        permuted(items, leaves, sigma),
    ensures
        envelope_of(leaves).same(envelope_of(items)),
{
    lemma_envelope_bounds(leaves);
    lemma_envelope_bounds(items);
    assert forall|j: int| 0 <= j < leaves.len() && !leaves[j].empty() implies exists|k: int|
        0 <= k < items.len() && #[trigger] items[k] == #[trigger] leaves[j] by {
        assert(sigma[j] < items.len());
        assert(items[sigma[j] as int] == leaves[j]);
    }
    assert forall|k: int| 0 <= k < items.len() && !items[k].empty() implies exists|j: int|
        0 <= j < leaves.len() && #[trigger] items[k] == #[trigger] leaves[j] by {
        assert(placed(sigma, k));
        let q = choose|q: int| 0 <= q < sigma.len() && sigma[q] == k;
        assert(leaves[q] == items[k]);
    }
    lemma_bounds_unique(envelope_of(leaves), leaves, envelope_of(items), items);
}

} // verus!
