//! A packed tree over presorted items: the leaves hold the items in an order
//! chosen for locality, and queries map leaf positions back to item indices.
use vstd::prelude::*;

use crate::hilbert::{Hilbert, curve_over};
use crate::omt::{Entry, is_square, partition_tiles, sq};
use crate::packed_rtree_unsorted::{PackedRTreeUnsorted, clamp_degree};
use crate::permutation::{carried, lemma_permuted_envelope, lemma_reordered, padding_aligned, permuted, placed};
use crate::rectangle::{HasEnvelope, Rectangle, center_of, envelope_of, envelopes};
use crate::rtree::RTree;
use crate::utils::fits;

verus! {

broadcast use vstd::seq_lib::group_to_multiset_ensures;

pub struct PackedRTree {
    raw_rtree: PackedRTreeUnsorted,
    // item index of each leaf; an index past the items marks padding
    shuffled_indices: Vec<usize>,
    items: Ghost<Seq<Rectangle>>,
}

/// Relies on `slice::sort_unstable_by_key`: the entries come out ordered by
/// rank, rearranged from those that went in.
#[verifier::external_body]
fn sort_by_rank(entries: &mut Vec<(u64, usize, Rectangle)>)
    ensures
        final(entries)@.to_multiset() == old(entries)@.to_multiset(),
        forall|a: int, b: int| 0 <= a < b < final(entries)@.len() ==> final(entries)@[a].0 <= final(entries)@[b].0,
{
    entries.sort_unstable_by_key(|e| e.0);
}

impl PackedRTree {
    #[verifier::type_invariant]
    closed spec fn inv(&self) -> bool {
        permuted(self.items@, self.raw_rtree.items(), self.shuffled_indices@)
    }

    pub closed spec fn items_view(&self) -> Seq<Rectangle> {
        self.items@
    }

    pub closed spec fn raw_view(&self) -> PackedRTreeUnsorted {
        self.raw_rtree
    }

    /// The item index of each leaf.
    pub closed spec fn sigma_view(&self) -> Seq<usize> {
        self.shuffled_indices@
    }

    pub fn new_empty() -> (r: Self)
        ensures
            r.items_view().len() == 0,
            r.raw_view().items().len() == 0,
            r.raw_view().degree_spec() == 2,
            r.sigma_view().len() == 0,
    {
        let raw_rtree = PackedRTreeUnsorted::new_empty();
        PackedRTree { raw_rtree, shuffled_indices: Vec::new(), items: Ghost(Seq::empty()) }
    }

    /// The tree over `items` with the leaves in the order of the Hilbert
    /// ranks of their centers; empty when every item is empty.
    pub fn new_hilbert<T: HasEnvelope>(degree: usize, items: &[T]) -> (r: Self)
        requires
            fits(clamp_degree(degree) as int, items@.len() as int),
        ensures
            envelope_of(envelopes(items@)).empty() ==> r.items_view().len() == 0
                && r.raw_view().items().len() == 0,
            !envelope_of(envelopes(items@)).empty() ==> r.items_view() == envelopes(items@)
                && r.raw_view().items().len() == items@.len()
                && r.raw_view().degree_spec() == clamp_degree(degree),
            !envelope_of(envelopes(items@)).empty() ==> forall|a: int, b: int|
                0 <= a < b < r.raw_view().items().len() ==> curve_over(envelope_of(envelopes(items@))).rank_spec(
                    center_of(#[trigger] r.raw_view().items()[a]),
                ) <= curve_over(envelope_of(envelopes(items@))).rank_spec(center_of(#[trigger] r.raw_view().items()[b])),
    {
        let total_envelope = Rectangle::of(items);
        if total_envelope.is_empty() {
            return Self::new_empty();
        }
        let (rects, shuffled_indices) = hilbert_layout(items, total_envelope);
        let raw_rtree = PackedRTreeUnsorted::new(degree, rects);
        PackedRTree { raw_rtree, shuffled_indices, items: Ghost(envelopes(items@)) }
    }
}

impl PackedRTree {
    /// The item index of each leaf; an index past the items marks padding.
    pub fn permutation(&self) -> (r: &[usize])
        ensures
            r@ == self.sigma_view(),
            permuted(self.items_view(), self.raw_view().items(), r@),
    {
        proof {
            use_type_invariant(self);
        }
        self.shuffled_indices.as_slice()
    }

    /// The packed tree over the reordered leaves.
    pub fn raw_rtree(&self) -> (r: &PackedRTreeUnsorted)
        ensures
            *r == self.raw_view(),
    {
        &self.raw_rtree
    }
}

/// Degree of the tree that OMT packs: four by four tiles per node.
pub const OMT_DEGREE: usize = 16;

/// Marks a padding leaf: no item has this index.
pub const PADDING: usize = usize::MAX;

impl PackedRTree {
    /// The tree over `items`, of degree 16, with the leaves in
    /// overlap-minimizing tile order; each group of leaves that fits one node
    /// starts a node of its own, padded with empty leaves.
    /// The items must be few enough that the padded tree fits in memory.
    pub fn new_omt<T: HasEnvelope>(items: &[T]) -> (r: Self)
        requires
            items@.len() * 1024 < usize::MAX,
        ensures
            r.items_view() == envelopes(items@),
            items@.len() == 0 ==> r.raw_view().items().len() == 0,
            items@.len() > 0 ==> r.raw_view().degree_spec() == OMT_DEGREE,
            items@.len() > 0 ==> items@.len() <= r.raw_view().items().len() <= 16 * items@.len(),
            padding_aligned(r.sigma_view(), OMT_DEGREE as int),
    {
        if items.len() == 0 {
            let r = Self::new_empty();
            proof {
                assert(r.items_view() =~= envelopes(items@));
            }
            return r;
        }
        let (rects, shuffled_indices) = omt_layout(items);
        proof {
            assert(fits(OMT_DEGREE as int, rects@.len() as int)) by (nonlinear_arith)
                requires
                    rects@.len() <= 16 * items@.len(),
                    items@.len() * 1024 < usize::MAX,
                    OMT_DEGREE == 16,
            ;
        }
        let raw_rtree = PackedRTreeUnsorted::new(OMT_DEGREE, rects);
        PackedRTree { raw_rtree, shuffled_indices, items: Ghost(envelopes(items@)) }
    }
}

/// The leaves of a tree over `items` in the order of the Hilbert ranks of
/// their centers in `total_envelope`, with the item index of each leaf.
pub fn hilbert_layout<T: HasEnvelope>(items: &[T], total_envelope: Rectangle) -> (r: (Vec<Rectangle>, Vec<usize>))
    requires
        total_envelope == envelope_of(envelopes(items@)),
        !total_envelope.empty(),
    ensures
        permuted(envelopes(items@), r.0@, r.1@),
        r.0@.len() == items@.len(),
        forall|a: int, b: int|
            0 <= a < b < r.0@.len() ==> curve_over(total_envelope).rank_spec(center_of(#[trigger] r.0@[a]))
                <= curve_over(total_envelope).rank_spec(center_of(#[trigger] r.0@[b])),
{
    let ghost env = envelopes(items@);
    proof {
        if items@.len() == 0 {
            assert(envelopes(items@) =~= Seq::<Rectangle>::empty());
        }
    }
    let hilbert_square = Hilbert::new(total_envelope);
    let mut entries: Vec<(u64, usize, Rectangle)> = Vec::new();
    let mut i: usize = 0;
    while i < items.len()
        invariant
            hilbert_square.wf(),
            env == envelopes(items@),
            i <= items@.len(),
            entries@.len() == i,
            forall|j: int| 0 <= j < i ==> (#[trigger] entries@[j]).1 == j && entries@[j].2 == env[j],
            hilbert_square == curve_over(total_envelope),
            forall|j: int| 0 <= j < i ==> (#[trigger] entries@[j]).0 == hilbert_square.rank_spec(center_of(entries@[j].2)),
        decreases items@.len() - i,
    {
        let e = items[i].envelope();
        let h = hilbert_square.hilbert(e.center());
        entries.push((h, i, e));
        i += 1;
    }
    let ghost init = entries@;
    sort_by_rank(&mut entries);
    proof {
        lemma_reordered(init, entries@, |e: (u64, usize, Rectangle)| e.1 as int);
        assert forall|q: int| 0 <= q < entries@.len() implies (#[trigger] entries@[q]).0 == curve_over(total_envelope).rank_spec(center_of(entries@[q].2)) by {
            let idx = |e: (u64, usize, Rectangle)| e.1 as int;
            assert(entries@[q] == init[idx(entries@[q])]);
        }
    }
    let mut rects: Vec<Rectangle> = Vec::new();
    let mut shuffled_indices: Vec<usize> = Vec::new();
    let mut p: usize = 0;
    while p < entries.len()
        invariant
            p <= entries@.len(),
            rects@.len() == p,
            shuffled_indices@.len() == p,
            forall|q: int| 0 <= q < p ==> #[trigger] rects@[q] == entries@[q].2 && shuffled_indices@[q] == entries@[q].1,
            forall|q: int| 0 <= q < entries@.len() ==> (#[trigger] entries@[q]).0 == curve_over(total_envelope).rank_spec(center_of(entries@[q].2)),
            forall|a: int, b: int| 0 <= a < b < entries@.len() ==> entries@[a].0 <= entries@[b].0,
        decreases entries@.len() - p,
    {
        rects.push(entries[p].2);
        shuffled_indices.push(entries[p].1);
        p += 1;
    }
    let ghost e = entries@;
    let ghost rs = rects@;
    proof {
        let idx = |x: (u64, usize, Rectangle)| x.1 as int;
        let leaves = rs;
        let sigma = shuffled_indices@;
        assert(env.len() == e.len());
        assert forall|q: int| 0 <= q < leaves.len() implies if (#[trigger] sigma[q]) < env.len() {
            leaves[q] == env[sigma[q] as int]
        } else {
            leaves[q].empty()
        } by {
            assert(rs[q] == e[q].2);
            assert(idx(e[q]) == sigma[q]);
            assert(e[q] == init[idx(e[q])]);
        }
        assert forall|q1: int, q2: int|
            0 <= q1 < leaves.len() && 0 <= q2 < leaves.len() && q1 != q2 && (#[trigger] sigma[q1]) < env.len() implies sigma[q1] != #[trigger] sigma[q2] by {
            assert(rs[q1] == e[q1].2 && rs[q2] == e[q2].2);
            assert(idx(e[q1]) == sigma[q1] && idx(e[q2]) == sigma[q2]);
        }
        assert forall|k: int| 0 <= k < env.len() implies #[trigger] placed(sigma, k) by {
            assert(carried(e, idx, k));
            let q = choose|q: int| 0 <= q < e.len() && idx(e[q]) == k;
            assert(rs[q] == e[q].2);
            assert(sigma[q] == k);
        }
        assert(leaves.len() > 0);
        assert(sigma.len() == shuffled_indices.len());
    }
    proof {
        assert forall|a: int, b: int|
            0 <= a < b < rects@.len() implies curve_over(total_envelope).rank_spec(center_of(#[trigger] rects@[a]))
                <= curve_over(total_envelope).rank_spec(center_of(#[trigger] rects@[b])) by {
            assert(rects@[a] == entries@[a].2 && rects@[b] == entries@[b].2);
        }
    }
    (rects, shuffled_indices)
}

/// The leaves of a tree of degree 16 over `items` in overlap-minimizing tile
/// order, each group of leaves that fits one node padded to a whole node, with
/// the item index of each leaf (`PADDING` for padding).
pub fn omt_layout<T: HasEnvelope>(items: &[T]) -> (r: (Vec<Rectangle>, Vec<usize>))
    requires
        items@.len() > 0,
        items@.len() * 1024 < usize::MAX,
    ensures
        permuted(envelopes(items@), r.0@, r.1@),
        r.0@.len() <= 16 * items@.len(),
        padding_aligned(r.1@, 16),
{
    let degree = OMT_DEGREE;
    let ghost env = envelopes(items@);
    let ghost n = items@.len() as int;
    let mut entries: Vec<Entry> = Vec::new();
    let mut starts: Vec<bool> = Vec::new();
    let mut i: usize = 0;
    while i < items.len()
        invariant
            env == envelopes(items@),
            i <= items@.len(),
            entries@.len() == i,
            starts@.len() == i,
            forall|j: int| 0 <= j < i ==> (#[trigger] entries@[j]).0 == j && entries@[j].1 == env[j],
        decreases items@.len() - i,
    {
        entries.push((i, items[i].envelope()));
        starts.push(false);
        i += 1;
    }
    let ghost init = entries@;
    let len = entries.len();
    proof {
        assert(is_square(16)) by {
            assert(sq(4) == 16);
        }
    }
    partition_tiles(&mut entries, 0, len, degree, &mut starts);
    lay_out_groups(&entries, &starts, Ghost(init), Ghost(env))
}

/// Lays out `entries` as leaves, each group that `starts` marks beginning a
/// node of 16 leaves, the node before it padded with empty leaves; with the
/// item index of each leaf (`PADDING` for padding).
pub(crate) fn lay_out_groups(
    entries: &Vec<Entry>,
    starts: &Vec<bool>,
    Ghost(init): Ghost<Seq<Entry>>,
    Ghost(env): Ghost<Seq<Rectangle>>,
) -> (r: (Vec<Rectangle>, Vec<usize>))
    requires
        init.len() == entries@.len(),
        starts@.len() == entries@.len(),
        env.len() == entries@.len(),
        entries@.len() > 0,
        entries@.len() * 1024 < usize::MAX,
        forall|i: int| 0 <= i < init.len() ==> (#[trigger] init[i]).0 == i && init[i].1 == env[i],
        entries@.to_multiset() == init.to_multiset(),
    ensures
        permuted(env, r.0@, r.1@),
        r.0@.len() <= 16 * entries@.len(),
        padding_aligned(r.1@, 16),
{
    let degree = OMT_DEGREE;
    let len = entries.len();
    let ghost n = len as int;
    proof {
        lemma_reordered(init, entries@, |e: Entry| e.0 as int);
    }
    let ghost e = entries@;
    let ghost idx = |x: Entry| x.0 as int;
    let mut rects: Vec<Rectangle> = Vec::new();
    let mut shuffled_indices: Vec<usize> = Vec::new();
    let ghost mut at: Seq<int> = Seq::empty();
    let ghost mut from: Seq<int> = Seq::empty();
    proof {
        assert forall|q: int| 0 <= q < e.len() implies (#[trigger] e[q]).0 < len by {
            assert(idx(e[q]) < init.len());
        }
    }
    let mut p: usize = 0;
    while p < len
        invariant
            len == e.len(),
            e == entries@,
            n == len,
            init.len() == len,
            forall|q: int| 0 <= q < e.len() ==> (#[trigger] e[q]).0 < len,
            starts@.len() == len,
            degree == 16,
            n * 1024 < usize::MAX,
            forall|q: int| 0 <= q < e.len() ==> 0 <= #[trigger] idx(e[q]) < init.len() && e[q] == init[idx(e[q])],
            p <= len,
            rects@.len() == shuffled_indices@.len(),
            from.len() == rects@.len(),
            at.len() == p,
            p <= rects@.len() <= 16 * p,
            forall|j: int|
                0 <= j < p ==> 0 <= #[trigger] at[j] < rects@.len() && from[at[j]] == j && rects@[at[j]]
                    == e[j].1 && shuffled_indices@[at[j]] == e[j].0,
            forall|q: int|
                0 <= q < rects@.len() ==> (#[trigger] from[q] == -1 && shuffled_indices@[q] == PADDING
                    && rects@[q].empty()) || (0 <= from[q] < p && at[from[q]] == q),
            padding_aligned(shuffled_indices@, 16),
            shuffled_indices@.len() > 0 ==> shuffled_indices@.last() != PADDING,
        decreases len - p,
    {
        if starts[p] && p > 0 {
            while rects.len() % degree != 0
                invariant
                    rects@.len() == shuffled_indices@.len(),
                    from.len() == rects@.len(),
                    at.len() == p,
                    p <= rects@.len() <= 16 * p,
                    forall|j: int|
                        0 <= j < p ==> 0 <= #[trigger] at[j] < rects@.len() && from[at[j]] == j && rects@[at[j]]
                            == e[j].1 && shuffled_indices@[at[j]] == e[j].0,
                    forall|q: int|
                        0 <= q < rects@.len() ==> (#[trigger] from[q] == -1 && shuffled_indices@[q] == PADDING
                            && rects@[q].empty()) || (0 <= from[q] < p && at[from[q]] == q),
                    degree == 16,
                    p < len,
                    len == e.len(),
                    p > 0,
                    padding_aligned(shuffled_indices@, 16),
                decreases 16 * p - rects@.len(),
            {
                proof {
                    assert(rects@.len() != 16 * p) by {
                        assert((16 * p) % 16 == 0) by (nonlinear_arith);
                    }
                }
                let ghost s0 = shuffled_indices@;
                rects.push(Rectangle::new_empty());
                shuffled_indices.push(PADDING);
                proof {
                    from = from.push(-1);
                    assert forall|q: int|
                        0 <= q && q + 1 < shuffled_indices@.len() && shuffled_indices@[q] == usize::MAX && (#[trigger] shuffled_indices@[q + 1]) != usize::MAX
                            implies (q + 1) % 16 == 0 by {
                        assert(shuffled_indices@[q] == s0[q] && shuffled_indices@[q + 1] == s0[q + 1]);
                    }
                }
            }
        }
        proof {
            assert((0int) % 16 == 0);
        }
        let ghost s1 = shuffled_indices@;
        proof {
            assert(s1.len() > 0 && s1.last() == PADDING ==> s1.len() % 16 == 0);
            assert(e[p as int].0 < len);
            assert(n < usize::MAX);
            assert(entries@[p as int].0 != PADDING);
        }
        rects.push(entries[p].1);
        shuffled_indices.push(entries[p].0);
        proof {
            assert forall|q: int|
                0 <= q && q + 1 < shuffled_indices@.len() && shuffled_indices@[q] == usize::MAX && (#[trigger] shuffled_indices@[q + 1]) != usize::MAX
                    implies (q + 1) % 16 == 0 by {
                assert(shuffled_indices@[q] == s1[q]);
                if q + 1 < s1.len() {
                    assert(shuffled_indices@[q + 1] == s1[q + 1]);
                }
            }
            if s1.len() > 0 {
                assert(shuffled_indices@[0] == s1[0]);
            }
            assert(shuffled_indices@.last() == entries@[p as int].0);
        }
        proof {
            from = from.push(p as int);
            at = at.push(rects@.len() - 1);
        }
        p += 1;
    }
    let ghost rs = rects@;
    let ghost sigma = shuffled_indices@;
    proof {
        assert(fits(degree as int, rs.len() as int)) by (nonlinear_arith)
            requires
                rs.len() <= 16 * n,
                n * 1024 < usize::MAX,
                degree == 16,
        ;
    }
    proof {
        let leaves = rs;
        assert forall|q: int| 0 <= q < leaves.len() implies if (#[trigger] sigma[q]) < env.len() {
            leaves[q] == env[sigma[q] as int]
        } else {
            leaves[q].empty()
        } by {
            if from[q] != -1 {
                let j = from[q];
                assert(at[j] == q);
                assert(e[j] == init[idx(e[j])]);
            }
        }
        assert forall|q1: int, q2: int|
            0 <= q1 < leaves.len() && 0 <= q2 < leaves.len() && q1 != q2 && (#[trigger] sigma[q1]) < env.len() implies sigma[q1] != #[trigger] sigma[q2] by {
            if from[q1] != -1 && from[q2] != -1 {
                let j1 = from[q1];
                let j2 = from[q2];
                assert(at[j1] == q1 && at[j2] == q2);
                assert(idx(e[j1]) == sigma[q1] && idx(e[j2]) == sigma[q2]);
            }
        }
        assert forall|k: int| 0 <= k < env.len() implies #[trigger] placed(sigma, k) by {
            assert(carried(e, idx, k));
            let j = choose|j: int| 0 <= j < e.len() && idx(e[j]) == k;
            assert(sigma[at[j]] == k);
        }
        assert(sigma.len() == shuffled_indices.len());
    }
    (rects, shuffled_indices)
}

impl RTree for PackedRTree {
    open spec fn items(&self) -> Seq<Rectangle> {
        self.items_view()
    }

    open spec fn degree_spec(&self) -> nat {
        self.raw_view().degree_spec()
    }

    open spec fn slot_count(&self) -> nat {
        self.raw_view().slot_count()
    }

    fn is_empty(&self) -> (r: bool) {
        proof {
            use_type_invariant(self);
        }
        self.raw_rtree.is_empty()
    }

    fn height(&self) -> (r: usize) {
        self.raw_rtree.height()
    }

    fn degree(&self) -> (r: usize) {
        self.raw_rtree.degree()
    }

    fn envelope(&self) -> (r: Rectangle) {
        proof {
            use_type_invariant(self);
            lemma_permuted_envelope(self.items@, self.raw_rtree.items(), self.shuffled_indices@);
        }
        self.raw_rtree.envelope()
    }

    fn query_rect(&self, query: &Rectangle) -> (r: Vec<usize>) {
        proof {
            use_type_invariant(self);
        }
        let ghost items = self.items@;
        let ghost leaves = self.raw_rtree.items();
        let ghost sigma = self.shuffled_indices@;
        let raw_results = self.raw_rtree.query_rect(query);
        proof {
            assert forall|i: usize| raw_results@.contains(i) <==> (i < leaves.len() && query.meets(#[trigger] leaves[i as int])) by {
                assert(raw_results@.contains(i) <==> (i < self.raw_rtree.items().len() && query.meets(self.raw_rtree.items()[i as int])));
            }
        }
        let mut results: Vec<usize> = Vec::new();
        let mut a: usize = 0;
        while a < raw_results.len()
            invariant
                permuted(items, leaves, sigma),
                items == self.items@,
                leaves == self.raw_rtree.items(),
                sigma == self.shuffled_indices@,
                raw_results@.no_duplicates(),
                forall|i: usize| raw_results@.contains(i) <==> (i < leaves.len() && query.meets(#[trigger] leaves[i as int])),
                a <= raw_results@.len(),
                results@.len() == a,
                forall|b: int| 0 <= b < a ==> #[trigger] results@[b] == sigma[raw_results@[b] as int] && results@[b] < items.len(),
            decreases raw_results@.len() - a,
        {
            let leaf = raw_results[a];
            proof {
                assert(raw_results@.contains(leaf));
                assert(query.meets(leaves[leaf as int]));
            }
            results.push(self.shuffled_indices[leaf]);
            a += 1;
        }
        proof {
            assert forall|b1: int, b2: int| 0 <= b1 < results@.len() && 0 <= b2 < results@.len() && b1 != b2 implies results@[b1] != results@[b2] by {
                assert(raw_results@[b1] != raw_results@[b2]);
                assert(raw_results@.contains(raw_results@[b1]));
                assert(raw_results@.contains(raw_results@[b2]));
                let q1 = raw_results@[b1] as int;
                let q2 = raw_results@[b2] as int;
                assert(sigma[q1] < items.len());
                assert(sigma[q1] != sigma[q2]);
            }
            assert forall|i: usize| results@.contains(i) <==> (i < items.len() && query.meets(#[trigger] items[i as int])) by {
                if results@.contains(i) {
                    let b = choose|b: int| 0 <= b < results@.len() && results@[b] == i;
                    assert(raw_results@.contains(raw_results@[b]));
                }
                if i < items.len() && query.meets(items[i as int]) {
                    assert(placed(sigma, i as int));
                    let q = choose|q: int| 0 <= q < sigma.len() && sigma[q] == i;
                    assert(leaves[q] == items[i as int]);
                    assert(raw_results@.contains(q as usize));
                    let b = choose|b: int| 0 <= b < raw_results@.len() && raw_results@[b] == q as usize;
                    assert(results@[b] == i);
                }
            }
        }
        results
    }
}

} // verus!
