//! What holds of every index built here, whatever its variant.
use vstd::prelude::*;

use crate::layout::is_height;
use crate::rectangle::{Rectangle, envelope_of, lemma_envelope_bounds};
use crate::rtree::answers;

verus! {

/// The indices of the items that meet `q`, found by testing each one.
pub open spec fn brute_force(items: Seq<Rectangle>, q: Rectangle) -> Set<usize> {
    Set::new(|i: usize| i < items.len() && q.meets(items[i as int]))
}

/// A query returns exactly the indices that testing every item finds, each
/// once, and each below the number of items.
pub proof fn law_brute_force(items: Seq<Rectangle>, q: Rectangle, r: Seq<usize>)
    requires
        answers(items, q, r),
    ensures
        r.to_set() == brute_force(items, q),
        r.no_duplicates(),
        forall|k: int| 0 <= k < r.len() ==> #[trigger] r[k] < items.len(),
{
    assert(r.to_set() =~= brute_force(items, q));
    assert forall|k: int| 0 <= k < r.len() implies #[trigger] r[k] < items.len() by {
        assert(r.contains(r[k]));
    }
}

/// Two indices over the same items answer every query alike, whatever their
/// degree and whether or how their leaves were presorted.
pub proof fn law_same_answers(items: Seq<Rectangle>, q: Rectangle, r1: Seq<usize>, r2: Seq<usize>)
    requires
        answers(items, q, r1),
        answers(items, q, r2),
    ensures
        r1.to_set() == r2.to_set(),
        r1.len() == r2.len(),
{
    assert(r1.to_set() =~= r2.to_set());
    r1.unique_seq_to_set();
    r2.unique_seq_to_set();
}

/// An index over no items answers every query with nothing, has no levels,
/// and its envelope is empty.
pub proof fn law_empty_index(d: int, q: Rectangle, r: Seq<usize>, h: int, e: Rectangle)
    requires
        answers(Seq::empty(), q, r),
        is_height(d, 0, h),
        e.same(envelope_of(Seq::empty())),
    ensures
        r.len() == 0,
        h == 0,
        e.empty(),
{
    if r.len() > 0 {
        assert(r.contains(r[0]));
    }
}

/// A query that holds the envelope of the items returns every item that
/// holds a point; all of them when none is empty.
pub proof fn law_containment(items: Seq<Rectangle>, q: Rectangle, r: Seq<usize>)
    requires
        answers(items, q, r),
        q.holds(envelope_of(items)),
    ensures
        forall|i: usize| #[trigger] r.contains(i) <==> (i < items.len() && !items[i as int].empty()),
        (forall|i: int| 0 <= i < items.len() ==> !(#[trigger] items[i]).empty()) ==> r.len() == items.len(),
{
    lemma_envelope_bounds(items);
    let e = envelope_of(items);
    assert forall|i: usize| #[trigger] r.contains(i) <==> (i < items.len() && !items[i as int].empty()) by {
        if i < items.len() {
            assert(e.covers(items[i as int]));
        }
    }
    if forall|i: int| 0 <= i < items.len() ==> !(#[trigger] items[i]).empty() {
        let ri = r.map_values(|x: usize| x as int);
        assert(ri.no_duplicates()) by {
            assert forall|a: int, b: int| 0 <= a < ri.len() && 0 <= b < ri.len() && a != b implies ri[a] != ri[b] by {
                assert(r[a] != r[b]);
            }
        }
        assert forall|x: int| ri.to_set().contains(x) <==> vstd::set_lib::set_int_range(0, items.len() as int).contains(x) by {
            if ri.to_set().contains(x) {
                let k = choose|k: int| 0 <= k < ri.len() && ri[k] == x;
                assert(r.contains(r[k]));
            }
            if 0 <= x < items.len() {
                let i = x as usize;
                assert(r.contains(i));
                let k = choose|k: int| 0 <= k < r.len() && r[k] == i;
                assert(ri[k] == x);
            }
        }
        assert(ri.to_set() =~= vstd::set_lib::set_int_range(0, items.len() as int));
        ri.unique_seq_to_set();
        vstd::set_lib::lemma_int_range(0, items.len() as int);
    }
}

} // verus!
