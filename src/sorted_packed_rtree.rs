//! The presorted tree of `packed_rtree` over the plainly descended packed
//! tree.
use vstd::prelude::*;

use crate::omt::{Entry, lemma_aligned, lemma_nested_multiset, lemma_within_run, separated, sort_range};
use crate::packed_rtree::{OMT_DEGREE, hilbert_layout, lay_out_groups};
use vstd::arithmetic::div_mod::lemma_fundamental_div_mod_converse;
use crate::packed_rtree_native::PackedRTreeNative;
use crate::packed_rtree_unsorted::clamp_degree;
use crate::permutation::{padding_aligned, lemma_permuted_envelope, permuted, placed};
use crate::hilbert::curve_over;
use crate::rectangle::{HasEnvelope, Rectangle, center_of, envelope_of, envelopes};
use crate::rtree::RTree;
use crate::utils::{ceil_div, divup, fits, lemma_ceil_div_facts};

verus! {

broadcast use vstd::seq_lib::group_to_multiset_ensures;

pub struct SortedPackedRTree {
    raw_rtree: PackedRTreeNative,
    // item index of each leaf; an index past the items marks padding
    shuffled_indices: Vec<usize>,
    items: Ghost<Seq<Rectangle>>,
}

impl SortedPackedRTree {
    #[verifier::type_invariant]
    closed spec fn inv(&self) -> bool {
        permuted(self.items@, self.raw_rtree.items(), self.shuffled_indices@)
    }

    pub closed spec fn items_view(&self) -> Seq<Rectangle> {
        self.items@
    }

    pub closed spec fn raw_view(&self) -> PackedRTreeNative {
        self.raw_rtree
    }

    /// The item index of each leaf.
    pub closed spec fn sigma_view(&self) -> Seq<usize> {
        self.shuffled_indices@
    }

    pub fn new_empty() -> (r: Self)
        ensures
            r.items_view().len() == 0,
            r.raw_view().items().len() == 0,
            r.raw_view().degree_spec() == 2,
            r.sigma_view().len() == 0,
    {
        let raw_rtree = PackedRTreeNative::new_empty();
        SortedPackedRTree { raw_rtree, shuffled_indices: Vec::new(), items: Ghost(Seq::empty()) }
    }

    /// The tree over `items` with the leaves in the order of the Hilbert
    /// ranks of their centers; empty when every item is empty.
    pub fn new_hilbert<T: HasEnvelope>(degree: usize, items: &[T]) -> (r: Self)
        requires
            fits(clamp_degree(degree) as int, items@.len() as int),
        ensures
            envelope_of(envelopes(items@)).empty() ==> r.items_view().len() == 0
                && r.raw_view().items().len() == 0,
            !envelope_of(envelopes(items@)).empty() ==> r.items_view() == envelopes(items@)
                && r.raw_view().items().len() == items@.len()
                && r.raw_view().degree_spec() == clamp_degree(degree),
            !envelope_of(envelopes(items@)).empty() ==> forall|a: int, b: int|
                0 <= a < b < r.raw_view().items().len() ==> curve_over(envelope_of(envelopes(items@))).rank_spec(
                    center_of(#[trigger] r.raw_view().items()[a]),
                ) <= curve_over(envelope_of(envelopes(items@))).rank_spec(center_of(#[trigger] r.raw_view().items()[b])),
    {
        let total_envelope = Rectangle::of(items);
        if total_envelope.is_empty() {
            return Self::new_empty();
        }
        let (rects, shuffled_indices) = hilbert_layout(items, total_envelope);
        let raw_rtree = PackedRTreeNative::new(degree, rects.as_slice());
        SortedPackedRTree { raw_rtree, shuffled_indices, items: Ghost(envelopes(items@)) }
    }
}

impl SortedPackedRTree {
    /// The item index of each leaf; an index past the items marks padding.
    pub fn permutation(&self) -> (r: &[usize])
        ensures
            r@ == self.sigma_view(),
            permuted(self.items_view(), self.raw_view().items(), r@),
    {
        proof {
            use_type_invariant(self);
        }
        self.shuffled_indices.as_slice()
    }

    /// The packed tree over the reordered leaves.
    pub fn raw_rtree(&self) -> (r: &PackedRTreeNative)
        ensures
            *r == self.raw_view(),
    {
        &self.raw_rtree
    }
}

impl SortedPackedRTree {
    /// The tree over `items`, of degree 16 whatever `_degree` says, with the leaves in
    /// the order of the sort-based tiling; each group of leaves that fits one node
    /// starts a node of its own, padded with empty leaves.
    pub fn new_omt<T: HasEnvelope>(_degree: usize, items: &[T]) -> (r: Self)
        requires
            items@.len() * 1024 < usize::MAX,
        ensures
            r.items_view() == envelopes(items@),
            items@.len() == 0 ==> r.raw_view().items().len() == 0,
            items@.len() > 0 ==> r.raw_view().degree_spec() == OMT_DEGREE,
            items@.len() > 0 ==> items@.len() <= r.raw_view().items().len() <= 16 * items@.len(),
            padding_aligned(r.sigma_view(), OMT_DEGREE as int),
    {
        if items.len() == 0 {
            let r = Self::new_empty();
            proof {
                assert(r.items_view() =~= envelopes(items@));
            }
            return r;
        }
        let (rects, shuffled_indices) = omt_sorted_layout(items);
        proof {
            assert(fits(OMT_DEGREE as int, rects@.len() as int)) by (nonlinear_arith)
                requires
                    rects@.len() <= 16 * items@.len(),
                    items@.len() * 1024 < usize::MAX,
                    OMT_DEGREE == 16,
            ;
        }
        let raw_rtree = PackedRTreeNative::new(OMT_DEGREE, rects.as_slice());
        SortedPackedRTree { raw_rtree, shuffled_indices, items: Ghost(envelopes(items@)) }
    }
}

/// Columns and rows per node of the sort-based tiling.
pub const NCOLS: usize = 4;

pub const NROWS: usize = 4;

/// Tiles `entries[lo..hi]` by sorting: the range is sorted by the centers'
/// x and cut into `ncols` columns, each column sorted by the centers' y and
/// cut into `nrows` rows, and each row tiled again until fewer than
/// `ncols * nrows` entries are left; `starts` marks where each of those
/// groups begins.
fn partition_omt(entries: &mut Vec<Entry>, lo: usize, hi: usize, ncols: usize, nrows: usize, starts: &mut Vec<bool>)
    requires
        lo <= hi <= old(entries)@.len(),
        old(starts)@.len() == old(entries)@.len(),
        2 <= ncols <= 16,
        2 <= nrows <= 16,
        2 * old(entries)@.len() <= usize::MAX,
    ensures
        final(entries)@.len() == old(entries)@.len(),
        final(entries)@.subrange(lo as int, hi as int).to_multiset() == old(entries)@.subrange(lo as int, hi as int).to_multiset(),
        forall|i: int| 0 <= i < old(entries)@.len() && (i < lo || hi <= i) ==> #[trigger] final(entries)@[i] == old(entries)@[i],
        final(starts)@.len() == old(starts)@.len(),
        hi - lo >= ncols * nrows ==> separated(final(entries)@, lo as int, hi as int, ceil_div((hi - lo) as int, ncols as int), true),
    decreases hi - lo,
{
    let size = hi - lo;
    proof {
        assert(4 <= ncols * nrows <= 256) by (nonlinear_arith)
            requires
                2 <= ncols <= 16,
                2 <= nrows <= 16,
        ;
    }
    if size < ncols * nrows {
        if lo < hi {
            starts.set(lo, true);
        }
        return;
    }
    let ghost e0 = entries@;
    sort_range(entries, lo, hi, true);
    let column_size = divup(size, ncols);
    let ghost cs = column_size as int;
    proof {
        lemma_ceil_div_facts(size as int, ncols as int);
        lemma_fundamental_div_mod_converse(0, cs, 0, 0);
        assert(separated(entries@, lo as int, hi as int, cs, true));
    }
    let mut ix = lo;
    while ix < hi
        invariant
            lo <= ix <= hi <= e0.len(),
            size == hi - lo,
            size >= ncols * nrows,
            2 <= ncols <= 16,
            2 <= nrows <= 16,
            2 * e0.len() <= usize::MAX,
            cs == column_size,
            1 <= column_size < size,
            (ix - lo) % cs == 0 || ix == hi,
            entries@.len() == e0.len(),
            starts@.len() == e0.len(),
            entries@.subrange(lo as int, hi as int).to_multiset() == e0.subrange(lo as int, hi as int).to_multiset(),
            forall|i: int| 0 <= i < e0.len() && (i < lo || hi <= i) ==> #[trigger] entries@[i] == e0[i],
            separated(entries@, lo as int, hi as int, cs, true),
        decreases hi - ix,
    {
        let col_end = if hi - ix <= column_size {
            hi
        } else {
            ix + column_size
        };
        let actual = col_end - ix;
        let row_size = divup(actual, nrows);
        proof {
            lemma_ceil_div_facts(actual as int, nrows as int);
            let rs = ceil_div(actual as int, nrows as int);
            assert(rs <= actual) by (nonlinear_arith)
                requires
                    nrows * rs <= actual + nrows - 1,
                    rs >= 1,
                    actual >= 1,
                    nrows >= 2,
            ;
        }
        let ghost b1 = entries@;
        sort_range(entries, ix, col_end, false);
        proof {
            lemma_nested_multiset(b1, entries@, lo as int, hi as int, ix as int, col_end as int);
            lemma_within_run(b1, entries@, lo as int, hi as int, cs, ix as int, col_end as int, true);
        }
        let mut iy = ix;
        while iy < col_end
            invariant
                lo <= ix <= iy <= col_end <= hi <= e0.len(),
                col_end <= ix + column_size,
                (ix - lo) % cs == 0,
                1 <= row_size <= column_size,
                2 <= ncols <= 16,
                2 <= nrows <= 16,
                2 * e0.len() <= usize::MAX,
                cs == column_size,
                1 <= column_size < size,
                size == hi - lo,
                entries@.len() == e0.len(),
                starts@.len() == e0.len(),
                entries@.subrange(lo as int, hi as int).to_multiset() == e0.subrange(lo as int, hi as int).to_multiset(),
                forall|i: int| 0 <= i < e0.len() && (i < lo || hi <= i) ==> #[trigger] entries@[i] == e0[i],
                separated(entries@, lo as int, hi as int, cs, true),
            decreases col_end - iy,
        {
            let row_end = if col_end - iy <= row_size {
                col_end
            } else {
                iy + row_size
            };
            let ghost b2 = entries@;
            partition_omt(entries, iy, row_end, ncols, nrows, starts);
            proof {
                lemma_nested_multiset(b2, entries@, lo as int, hi as int, iy as int, row_end as int);
                lemma_nested_multiset(b2, entries@, ix as int, col_end as int, iy as int, row_end as int);
                assert forall|i: int| 0 <= i < b2.len() && (i < ix || col_end <= i) implies #[trigger] entries@[i] == b2[i] by {}
                lemma_within_run(b2, entries@, lo as int, hi as int, cs, ix as int, col_end as int, true);
            }
            iy = row_end;
        }
        proof {
            if col_end < hi {
                lemma_aligned(lo as int, cs, ix as int, 1);
            }
        }
        ix = col_end;
    }
}

/// The leaves of a tree of degree 16 over `items` in the order of the
/// sort-based tiling, each group padded to a whole node, with the item index
/// of each leaf (`PADDING` for padding).
pub fn omt_sorted_layout<T: HasEnvelope>(items: &[T]) -> (r: (Vec<Rectangle>, Vec<usize>))
    requires
        items@.len() > 0,
        items@.len() * 1024 < usize::MAX,
    ensures
        permuted(envelopes(items@), r.0@, r.1@),
        r.0@.len() <= 16 * items@.len(),
        padding_aligned(r.1@, 16),
{
    let ghost env = envelopes(items@);
    let mut entries: Vec<Entry> = Vec::new();
    let mut starts: Vec<bool> = Vec::new();
    let mut i: usize = 0;
    while i < items.len()
        invariant
            env == envelopes(items@),
            i <= items@.len(),
            entries@.len() == i,
            starts@.len() == i,
            forall|j: int| 0 <= j < i ==> (#[trigger] entries@[j]).0 == j && entries@[j].1 == env[j],
        decreases items@.len() - i,
    {
        entries.push((i, items[i].envelope()));
        starts.push(false);
        i += 1;
    }
    let ghost init = entries@;
    let len = entries.len();
    partition_omt(&mut entries, 0, len, NCOLS, NROWS, &mut starts);
    proof {
        assert(entries@.subrange(0, len as int) =~= entries@);
        assert(init.subrange(0, len as int) =~= init);
    }
    lay_out_groups(&entries, &starts, Ghost(init), Ghost(env))
}

impl RTree for SortedPackedRTree {
    open spec fn items(&self) -> Seq<Rectangle> {
        self.items_view()
    }

    open spec fn degree_spec(&self) -> nat {
        self.raw_view().degree_spec()
    }

    open spec fn slot_count(&self) -> nat {
        self.raw_view().slot_count()
    }

    fn is_empty(&self) -> (r: bool) {
        proof {
            use_type_invariant(self);
        }
        self.raw_rtree.is_empty()
    }

    fn height(&self) -> (r: usize) {
        self.raw_rtree.height()
    }

    fn degree(&self) -> (r: usize) {
        self.raw_rtree.degree()
    }

    fn envelope(&self) -> (r: Rectangle) {
        proof {
            use_type_invariant(self);
            lemma_permuted_envelope(self.items@, self.raw_rtree.items(), self.shuffled_indices@);
        }
        self.raw_rtree.envelope()
    }

    fn query_rect(&self, query: &Rectangle) -> (r: Vec<usize>) {
        proof {
            use_type_invariant(self);
        }
        let ghost items = self.items@;
        let ghost leaves = self.raw_rtree.items();
        let ghost sigma = self.shuffled_indices@;
        let raw_results = self.raw_rtree.query_rect(query);
        proof {
            assert forall|i: usize| raw_results@.contains(i) <==> (i < leaves.len() && query.meets(#[trigger] leaves[i as int])) by {
                assert(raw_results@.contains(i) <==> (i < self.raw_rtree.items().len() && query.meets(self.raw_rtree.items()[i as int])));
            }
        }
        let mut results: Vec<usize> = Vec::new();
        let mut a: usize = 0;
        while a < raw_results.len()
            invariant
                permuted(items, leaves, sigma),
                items == self.items@,
                leaves == self.raw_rtree.items(),
                sigma == self.shuffled_indices@,
                raw_results@.no_duplicates(),
                forall|i: usize| raw_results@.contains(i) <==> (i < leaves.len() && query.meets(#[trigger] leaves[i as int])),
                a <= raw_results@.len(),
                results@.len() == a,
                forall|b: int| 0 <= b < a ==> #[trigger] results@[b] == sigma[raw_results@[b] as int] && results@[b] < items.len(),
            decreases raw_results@.len() - a,
        {
            let leaf = raw_results[a];
            proof {
                assert(raw_results@.contains(leaf));
                assert(query.meets(leaves[leaf as int]));
            }
            results.push(self.shuffled_indices[leaf]);
            a += 1;
        }
        proof {
            assert forall|b1: int, b2: int| 0 <= b1 < results@.len() && 0 <= b2 < results@.len() && b1 != b2 implies results@[b1] != results@[b2] by {
                assert(raw_results@[b1] != raw_results@[b2]);
                assert(raw_results@.contains(raw_results@[b1]));
                assert(raw_results@.contains(raw_results@[b2]));
                let q1 = raw_results@[b1] as int;
                let q2 = raw_results@[b2] as int;
                assert(sigma[q1] < items.len());
                assert(sigma[q1] != sigma[q2]);
            }
            assert forall|i: usize| results@.contains(i) <==> (i < items.len() && query.meets(#[trigger] items[i as int])) by {
                if results@.contains(i) {
                    let b = choose|b: int| 0 <= b < results@.len() && results@[b] == i;
                    assert(raw_results@.contains(raw_results@[b]));
                }
                if i < items.len() && query.meets(items[i as int]) {
                    assert(placed(sigma, i as int));
                    let q = choose|q: int| 0 <= q < sigma.len() && sigma[q] == i;
                    assert(leaves[q] == items[i as int]);
                    assert(raw_results@.contains(q as usize));
                    let b = choose|b: int| 0 <= b < raw_results@.len() && raw_results@[b] == q as usize;
                    assert(results@[b] == i);
                }
            }
        }
        results
    }
}

} // verus!
