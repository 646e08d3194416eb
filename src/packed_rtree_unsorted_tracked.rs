//! The packed tree stored as four parallel arrays of bounds, one per side;
//! a query tests the children of a node side by side, one array at a time.
use vstd::prelude::*;

use crate::layout::{children, hi_of, in_entry, lemma_child_range, lemma_holds_down, lemma_leaves_first, lemma_level_size_bounds, lemma_levels, lemma_meets_up, lemma_node_covers_leaf, lemma_pw_pos, lemma_range_fits, lemma_root_envelope, lemma_stack_weight_nonneg, lemma_stack_weight_push, lemma_start_mono, lemma_weight_pos, lo_of, pack, packed_wf, power, pw, slots, stack_weight, weight};
use crate::packed_rtree_unsorted::clamp_degree;
use crate::rectangle::{HasEnvelope, Rectangle, envelopes};
use crate::rtree::RTree;
use crate::utils::{fits, level_size, level_start};

verus! {

/// One side of every node, in the layout of the flat tree.
pub struct Bounds(Vec<i64>);

impl Bounds {
    pub closed spec fn view(&self) -> Seq<i64> {
        self.0@
    }

    pub fn new() -> (r: Self)
        ensures
            r.view().len() == 0,
    {
        Bounds(Vec::new())
    }

    pub fn with_capacity(capacity: usize) -> (r: Self)
        ensures
            r.view().len() == 0,
    {
        Bounds(Vec::with_capacity(capacity))
    }

    pub fn push(&mut self, x: i64)
        ensures
            final(self).view() == old(self).view().push(x),
    {
        self.0.push(x);
    }

    pub fn len(&self) -> (r: usize)
        ensures
            r == self.view().len(),
    {
        self.0.len()
    }

    pub fn extend_from_slice(&mut self, other: &[i64])
        ensures
            final(self).view() == old(self).view() + other@,
    {
        self.0.extend_from_slice(other);
    }

    pub fn get(&self, i: usize) -> (r: i64)
        requires
            i < self.view().len(),
        ensures
            r == self.view()[i as int],
    {
        self.0[i]
    }
}

/// The rectangles that four arrays of sides describe.
pub open spec fn sides_view(x_mins: Seq<i64>, y_mins: Seq<i64>, x_maxs: Seq<i64>, y_maxs: Seq<i64>) -> Seq<Rectangle> {
    Seq::new(
        x_mins.len(),
        |i: int| Rectangle { x_min: x_mins[i], y_min: y_mins[i], x_max: x_maxs[i], y_max: y_maxs[i] },
    )
}

pub struct PackedRTreeUnsortedTracked {
    degree: usize,
    size: usize,
    // nodes of level k are level_indices[k] .. level_indices[k + 1] (end exclusive)
    level_indices: Vec<usize>,
    x_mins: Bounds,
    y_mins: Bounds,
    x_maxs: Bounds,
    y_maxs: Bounds,
}

impl PackedRTreeUnsortedTracked {
    pub closed spec fn nodes(&self) -> Seq<Rectangle> {
        sides_view(self.x_mins.view(), self.y_mins.view(), self.x_maxs.view(), self.y_maxs.view())
    }

    #[verifier::type_invariant]
    closed spec fn inv(&self) -> bool {
        &&& self.y_mins.view().len() == self.x_mins.view().len()
        &&& self.x_maxs.view().len() == self.x_mins.view().len()
        &&& self.y_maxs.view().len() == self.x_mins.view().len()
        &&& packed_wf(self.degree as int, self.size as int, self.level_indices@, self.nodes())
    }

    pub closed spec fn leaf_rects(&self) -> Seq<Rectangle> {
        self.nodes().take(self.size as int)
    }

    pub closed spec fn degree_view(&self) -> nat {
        self.degree as nat
    }

    pub fn new_empty() -> (r: Self)
        ensures
            r.leaf_rects().len() == 0,
            r.degree_view() == 2,
    {
        Self {
            degree: 2,
            size: 0,
            level_indices: Vec::new(),
            x_mins: Bounds::new(),
            y_mins: Bounds::new(),
            x_maxs: Bounds::new(),
            y_maxs: Bounds::new(),
        }
    }

    /// Builds the tree over the envelopes of `rects`; a degree below 2 counts as 2.
    pub fn new<IR: HasEnvelope>(degree: usize, rects: &[IR]) -> (r: Self)
        requires
            fits(clamp_degree(degree) as int, rects@.len() as int),
        ensures
            r.leaf_rects() == envelopes(rects@),
            r.degree_view() == if rects@.len() == 0 {
                2
            } else {
                clamp_degree(degree)
            },
    {
        if rects.len() == 0 {
            let r = Self::new_empty();
            proof {
                assert(r.leaf_rects() =~= envelopes(rects@));
            }
            return r;
        }
        let degree = if degree < 2 {
            2
        } else {
            degree
        };
        let size = rects.len();
        let mut leaves: Vec<Rectangle> = Vec::new();
        let mut i: usize = 0;
        while i < rects.len()
            invariant
                i <= rects@.len(),
                leaves@ == envelopes(rects@).take(i as int),
            decreases rects@.len() - i,
        {
            leaves.push(rects[i].envelope());
            i += 1;
            proof {
                assert(leaves@ =~= envelopes(rects@).take(i as int));
            }
        }
        proof {
            assert(envelopes(rects@).take(i as int) =~= envelopes(rects@));
        }
        let (level_indices, tree) = pack(degree, leaves);
        let tree_size = tree.len();
        let mut x_mins = Bounds::with_capacity(tree_size);
        let mut y_mins = Bounds::with_capacity(tree_size);
        let mut x_maxs = Bounds::with_capacity(tree_size);
        let mut y_maxs = Bounds::with_capacity(tree_size);
        let mut j: usize = 0;
        while j < tree_size
            invariant
                tree_size == tree@.len(),
                j <= tree_size,
                x_mins.view().len() == j,
                y_mins.view().len() == j,
                x_maxs.view().len() == j,
                y_maxs.view().len() == j,
                forall|k: int| 0 <= k < j ==> #[trigger] sides_view(x_mins.view(), y_mins.view(), x_maxs.view(), y_maxs.view())[k] == tree@[k],
            decreases tree_size - j,
        {
            let rect = tree[j];
            let ghost (a0, b0, c0, d0) = (x_mins.view(), y_mins.view(), x_maxs.view(), y_maxs.view());
            x_mins.push(rect.x_min);
            y_mins.push(rect.y_min);
            x_maxs.push(rect.x_max);
            y_maxs.push(rect.y_max);
            j += 1;
            proof {
                assert forall|k: int| 0 <= k < j implies #[trigger] sides_view(x_mins.view(), y_mins.view(), x_maxs.view(), y_maxs.view())[k] == tree@[k] by {
                    if k < j - 1 {
                        assert(sides_view(a0, b0, c0, d0)[k] == tree@[k]);
                        assert(x_mins.view()[k] == a0[k]);
                        assert(y_mins.view()[k] == b0[k]);
                        assert(x_maxs.view()[k] == c0[k]);
                        assert(y_maxs.view()[k] == d0[k]);
                    }
                }
            }
        }
        proof {
            assert(sides_view(x_mins.view(), y_mins.view(), x_maxs.view(), y_maxs.view()) =~= tree@);
        }
        Self { degree, size, level_indices, x_mins, y_mins, x_maxs, y_maxs }
    }
}

impl PackedRTreeUnsortedTracked {
    /// Node `i` holds no point.
    fn is_empty_at(&self, i: usize) -> (r: bool)
        requires
            i < self.nodes().len(),
        ensures
            r == self.nodes()[i as int].empty(),
    {
        proof {
            use_type_invariant(self);
        }
        self.x_mins.get(i) > self.x_maxs.get(i) || self.y_mins.get(i) > self.y_maxs.get(i)
    }

    /// Node `i` meets `query`.
    fn meets_at(&self, query: &Rectangle, i: usize) -> (r: bool)
        requires
            i < self.nodes().len(),
        ensures
            r == query.meets(self.nodes()[i as int]),
    {
        proof {
            use_type_invariant(self);
        }
        !query.is_empty() && !self.is_empty_at(i) && query.x_max >= self.x_mins.get(i) && query.y_max
            >= self.y_mins.get(i) && query.x_min <= self.x_maxs.get(i) && query.y_min <= self.y_maxs.get(i)
    }

    /// For each of the `degree` nodes from `first`: whether it meets `query`,
    /// and whether `query` holds it. Each array of sides is read in one pass.
    fn child_tests(&self, query: &Rectangle, first: usize) -> (r: (Vec<bool>, Vec<bool>))
        requires
            first + self.degree <= self.nodes().len(),
        ensures
            r.0@.len() == self.degree,
            r.1@.len() == self.degree,
            forall|j: int| 0 <= j < self.degree ==> #[trigger] r.0@[j] == query.meets(self.nodes()[first + j]),
            forall|j: int| 0 <= j < self.degree ==> #[trigger] r.1@[j] == query.holds(self.nodes()[first + j]),
    {
        proof {
            use_type_invariant(self);
        }
        let d = self.degree;
        let ghost t = self.nodes();
        let query_ok = !query.is_empty();
        let n_nodes = self.x_mins.len();
        let mut intersects: Vec<bool> = Vec::new();
        let mut contains: Vec<bool> = Vec::new();
        let mut idx: usize = 0;
        while idx < d
            invariant
                d == self.degree,
                first + d <= t.len(),
                n_nodes == t.len(),
                t == self.nodes(),
                query_ok == !query.empty(),
                idx <= d,
                intersects@.len() == idx,
                contains@.len() == idx,
                forall|j: int| 0 <= j < idx ==> #[trigger] intersects@[j] == (query_ok && !t[first + j].empty()),
                forall|j: int| 0 <= j < idx ==> #[trigger] contains@[j] == (query_ok && !t[first + j].empty()),
            decreases d - idx,
        {
            let ok = query_ok && !self.is_empty_at(first + idx);
            intersects.push(ok);
            contains.push(ok);
            idx += 1;
        }
        let mut idx: usize = 0;
        while idx < d
            invariant
                d == self.degree,
                first + d <= t.len(),
                n_nodes == t.len(),
                t == self.nodes(),
                t.len() == self.x_mins.view().len(),
                idx <= d,
                intersects@.len() == d,
                contains@.len() == d,
                forall|j: int| 0 <= j < idx ==> #[trigger] intersects@[j] == (!query.empty() && !t[first + j].empty() && query.x_max >= t[first + j].x_min),
                forall|j: int| idx <= j < d ==> #[trigger] intersects@[j] == (!query.empty() && !t[first + j].empty()),
                forall|j: int| 0 <= j < idx ==> #[trigger] contains@[j] == (!query.empty() && !t[first + j].empty() && query.x_min <= t[first + j].x_min),
                forall|j: int| idx <= j < d ==> #[trigger] contains@[j] == (!query.empty() && !t[first + j].empty()),
            decreases d - idx,
        {
            let x_min = self.x_mins.get(first + idx);
            let a = intersects[idx] && query.x_max >= x_min;
            let b = contains[idx] && query.x_min <= x_min;
            intersects.set(idx, a);
            contains.set(idx, b);
            idx += 1;
        }
        let mut idx: usize = 0;
        while idx < d
            invariant
                d == self.degree,
                first + d <= t.len(),
                n_nodes == t.len(),
                t == self.nodes(),
                t.len() == self.y_mins.view().len(),
                idx <= d,
                intersects@.len() == d,
                contains@.len() == d,
                forall|j: int| 0 <= j < idx ==> #[trigger] intersects@[j] == (!query.empty() && !t[first + j].empty() && query.x_max >= t[first + j].x_min && query.y_max >= t[first + j].y_min),
                forall|j: int| idx <= j < d ==> #[trigger] intersects@[j] == (!query.empty() && !t[first + j].empty() && query.x_max >= t[first + j].x_min),
                forall|j: int| 0 <= j < idx ==> #[trigger] contains@[j] == (!query.empty() && !t[first + j].empty() && query.x_min <= t[first + j].x_min && query.y_min <= t[first + j].y_min),
                forall|j: int| idx <= j < d ==> #[trigger] contains@[j] == (!query.empty() && !t[first + j].empty() && query.x_min <= t[first + j].x_min),
            decreases d - idx,
        {
            let y_min = self.y_mins.get(first + idx);
            let a = intersects[idx] && query.y_max >= y_min;
            let b = contains[idx] && query.y_min <= y_min;
            intersects.set(idx, a);
            contains.set(idx, b);
            idx += 1;
        }
        let mut idx: usize = 0;
        while idx < d
            invariant
                d == self.degree,
                first + d <= t.len(),
                n_nodes == t.len(),
                t == self.nodes(),
                t.len() == self.x_maxs.view().len(),
                idx <= d,
                intersects@.len() == d,
                contains@.len() == d,
                forall|j: int| 0 <= j < idx ==> #[trigger] intersects@[j] == (!query.empty() && !t[first + j].empty() && query.x_max >= t[first + j].x_min && query.y_max >= t[first + j].y_min && query.x_min <= t[first + j].x_max),
                forall|j: int| idx <= j < d ==> #[trigger] intersects@[j] == (!query.empty() && !t[first + j].empty() && query.x_max >= t[first + j].x_min && query.y_max >= t[first + j].y_min),
                forall|j: int| 0 <= j < idx ==> #[trigger] contains@[j] == (!query.empty() && !t[first + j].empty() && query.x_min <= t[first + j].x_min && query.y_min <= t[first + j].y_min && query.x_max >= t[first + j].x_max),
                forall|j: int| idx <= j < d ==> #[trigger] contains@[j] == (!query.empty() && !t[first + j].empty() && query.x_min <= t[first + j].x_min && query.y_min <= t[first + j].y_min),
            decreases d - idx,
        {
            let x_max = self.x_maxs.get(first + idx);
            let a = intersects[idx] && query.x_min <= x_max;
            let b = contains[idx] && query.x_max >= x_max;
            intersects.set(idx, a);
            contains.set(idx, b);
            idx += 1;
        }
        let mut idx: usize = 0;
        while idx < d
            invariant
                d == self.degree,
                first + d <= t.len(),
                n_nodes == t.len(),
                t == self.nodes(),
                t.len() == self.y_maxs.view().len(),
                idx <= d,
                intersects@.len() == d,
                contains@.len() == d,
                forall|j: int| 0 <= j < idx ==> #[trigger] intersects@[j] == query.meets(t[first + j]),
                forall|j: int| idx <= j < d ==> #[trigger] intersects@[j] == (!query.empty() && !t[first + j].empty() && query.x_max >= t[first + j].x_min && query.y_max >= t[first + j].y_min && query.x_min <= t[first + j].x_max),
                forall|j: int| 0 <= j < idx ==> #[trigger] contains@[j] == query.holds(t[first + j]),
                forall|j: int| idx <= j < d ==> #[trigger] contains@[j] == (!query.empty() && !t[first + j].empty() && query.x_min <= t[first + j].x_min && query.y_min <= t[first + j].y_min && query.x_max >= t[first + j].x_max),
            decreases d - idx,
        {
            let y_max = self.y_maxs.get(first + idx);
            let a = intersects[idx] && query.y_min <= y_max;
            let b = contains[idx] && query.y_max >= y_max;
            intersects.set(idx, a);
            contains.set(idx, b);
            idx += 1;
        }
        (intersects, contains)
    }

    /// The leaves that hold a point among the slots under node `offset` of `level`,
    /// in increasing order.
    fn leaf_range(&self, level: usize, offset: usize) -> (r: Vec<usize>)
        requires
            level < self.level_indices@.len(),
            offset < level_size(self.degree as int, self.size as int, level as nat),
        ensures
            forall|a: int, b: int| 0 <= a < b < r@.len() ==> r@[a] < r@[b],
            forall|a: int|
                0 <= a < r@.len() ==> in_entry(self.degree as int, (level, offset), r@[a] as int)
                    && r@[a] < self.size && !self.nodes()[r@[a] as int].empty(),
            forall|i: int|
                0 <= i < self.size && in_entry(self.degree as int, (level, offset), i)
                    && !self.nodes()[i].empty() ==> r@.contains(i as usize),
    {
        proof {
            use_type_invariant(self);
            lemma_range_fits(self.degree as int, self.size as int, self.level_indices@, level as int, offset as int);
            lemma_leaves_first(self.degree as int, self.size as int, self.level_indices@, self.nodes());
        }
        let width = power(self.degree, level);
        proof {
            assert(width * offset == pw(self.degree as int, level as nat) * offset);
            assert(width * (offset + 1) == pw(self.degree as int, level as nat) * (offset + 1));
        }
        let start = width * offset;
        let hi = width * (offset + 1);
        let end = if self.size < hi {
            self.size
        } else {
            hi
        };
        let mut result: Vec<usize> = Vec::new();
        let mut i = start;
        while i < end
            invariant
                start <= i <= end,
                end <= self.size,
                self.size <= self.nodes().len(),
                start == pw(self.degree as int, level as nat) * offset,
                hi == pw(self.degree as int, level as nat) * (offset + 1),
                end <= hi,
                forall|a: int, b: int| 0 <= a < b < result@.len() ==> result@[a] < result@[b],
                forall|a: int|
                    0 <= a < result@.len() ==> start <= #[trigger] result@[a] < i
                        && !self.nodes()[result@[a] as int].empty(),
                forall|j: int|
                    start <= j < i && !self.nodes()[j].empty() ==> result@.contains(j as usize),
            decreases end - i,
        {
            if !self.is_empty_at(i) {
                let ghost r0 = result@;
                result.push(i);
                proof {
                    assert(result@[result@.len() - 1] == i);
                    assert forall|j: int| start <= j < i && !self.nodes()[j].empty() implies result@.contains(j as usize) by {
                        let a = choose|a: int| 0 <= a < r0.len() && r0[a] == j as usize;
                        assert(result@[a] == j as usize);
                    }
                }
            }
            i += 1;
        }
        result
    }
}

impl PackedRTreeUnsortedTracked {
    /// The leaf slots that meet `query`, found by descending from the root;
    /// a subtree that `query` holds is taken whole.
    #[verifier::rlimit(40)]
    fn query_leaves(&self, query: &Rectangle) -> (r: Vec<usize>)
        ensures
            r@.no_duplicates(),
            forall|i: usize| r@.contains(i) <==> (i < self.size && query.meets(self.nodes()[i as int])),
    {
        proof {
            use_type_invariant(self);
            lemma_leaves_first(self.degree as int, self.size as int, self.level_indices@, self.nodes());
        }
        let ghost d = self.degree as int;
        let ghost n = self.size as int;
        let ghost li = self.level_indices@;
        let ghost t = self.nodes();
        let mut results: Vec<usize> = Vec::new();
        if self.size == 0 {
            return results;
        }
        let mut stack: Vec<(usize, usize)> = Vec::new();
        let h = self.level_indices.len();
        proof {
            lemma_levels(d, n, li, h - 1);
            lemma_level_size_bounds(d, n, (h - 1) as nat);
            lemma_pw_pos(d, (h - 1) as nat);
        }
        if self.meets_at(query, self.level_indices[h - 1]) {
            stack.push((h - 1, 0));
        } else {
            proof {
                assert forall|i: usize| !(#[trigger] results@.contains(i)) && !(i < self.size && query.meets(t[i as int])) by {
                    if i < self.size && query.meets(t[i as int]) {
                        assert(pw(d, (h - 1) as nat) * 0 == 0);
                        lemma_node_covers_leaf(d, n, li, t, h - 1, 0, i as int);
                        lemma_meets_up(*query, t[li[h - 1] + 0], t[i as int]);
                    }
                }
            }
            return results;
        }
        proof {
            assert forall|i: int| 0 <= i < n && query.meets(#[trigger] t[i]) implies results@.contains(i as usize) || exists|s: int|
                0 <= s < stack@.len() && #[trigger] in_entry(d, stack@[s], i) by {
                assert(pw(d, (h - 1) as nat) * 0 == 0);
                assert(in_entry(d, stack@[0], i));
            }
        }
        while stack.len() > 0
            invariant
                d == self.degree as int,
                n == self.size as int,
                li == self.level_indices@,
                t == self.nodes(),
                packed_wf(d, n, li, t),
                n >= 1,
                n <= t.len(),
                forall|s: int|
                    0 <= s < stack@.len() ==> {
                        &&& (#[trigger] stack@[s]).0 < li.len()
                        &&& stack@[s].1 < level_size(d, n, stack@[s].0 as nat)
                        &&& query.meets(t[li[stack@[s].0 as int] + stack@[s].1])
                    },
                forall|a: int| 0 <= a < results@.len() ==> #[trigger] results@[a] < n && query.meets(t[results@[a] as int]),
                results@.no_duplicates(),
                forall|i: int|
                    0 <= i < n && query.meets(#[trigger] t[i]) ==> results@.contains(i as usize) || exists|s: int|
                        0 <= s < stack@.len() && #[trigger] in_entry(d, stack@[s], i),
                forall|a: int, s: int|
                    0 <= a < results@.len() && 0 <= s < stack@.len() ==> !in_entry(d, #[trigger] stack@[s], #[trigger] results@[a] as int),
                forall|s1: int, s2: int|
                    0 <= s1 < s2 < stack@.len() ==> hi_of(d, #[trigger] stack@[s1]) <= lo_of(d, stack@[s2])
                        || hi_of(d, #[trigger] stack@[s2]) <= lo_of(d, stack@[s1]),
            decreases stack_weight(d, stack@),
        {
            let ghost st0 = stack@;
            let (level, offset) = stack.pop().unwrap();
            proof {
                assert(st0.drop_last() =~= stack@);
                assert(st0[st0.len() - 1] == (level, offset));
                lemma_stack_weight_nonneg(d, stack@);
            }
            if level == 0 {
                proof {
                    assert(li[0] == level_start(d, n, 0));
                    assert(pw(d, 0) == 1);
                    assert(lo_of(d, (level, offset)) == offset);
                    assert(hi_of(d, (level, offset)) == offset + 1);
                    assert(in_entry(d, st0[st0.len() - 1], offset as int));
                }
                let ghost r0 = results@;
                results.push(offset);
                proof {
                    assert forall|a: int| 0 <= a < r0.len() implies r0[a] != offset by {
                        assert(!in_entry(d, st0[st0.len() - 1], r0[a] as int));
                    }
                    assert forall|a: int| 0 <= a < results@.len() implies #[trigger] results@[a] < n && query.meets(t[results@[a] as int]) by {
                        if a < r0.len() {
                            assert(results@[a] == r0[a]);
                        }
                    }
                    assert forall|i: int|
                        0 <= i < n && query.meets(#[trigger] t[i]) implies results@.contains(i as usize) || exists|s: int|
                            0 <= s < stack@.len() && #[trigger] in_entry(d, stack@[s], i) by {
                        if !r0.contains(i as usize) {
                            let s = choose|s: int| 0 <= s < st0.len() && #[trigger] in_entry(d, st0[s], i);
                            if s == st0.len() - 1 {
                                assert(i == offset);
                                assert(results@[r0.len() as int] == offset);
                            } else {
                                assert(in_entry(d, stack@[s], i));
                            }
                        } else {
                            let a = choose|a: int| 0 <= a < r0.len() && r0[a] == i as usize;
                            assert(results@[a] == i as usize);
                        }
                    }
                    assert forall|a: int, s: int|
                        0 <= a < results@.len() && 0 <= s < stack@.len() implies !in_entry(d, #[trigger] stack@[s], #[trigger] results@[a] as int) by {
                        assert(st0[s] == stack@[s]);
                        if a < r0.len() {
                            assert(results@[a] == r0[a]);
                        } else {
                            assert(hi_of(d, st0[s]) <= lo_of(d, st0[st0.len() - 1]) || hi_of(d, st0[st0.len() - 1]) <= lo_of(d, st0[s]));
                        }
                    }
                    assert forall|s1: int, s2: int|
                        0 <= s1 < s2 < stack@.len() implies hi_of(d, #[trigger] stack@[s1]) <= lo_of(d, stack@[s2])
                            || hi_of(d, #[trigger] stack@[s2]) <= lo_of(d, stack@[s1]) by {
                        assert(st0[s1] == stack@[s1] && st0[s2] == stack@[s2]);
                    }
                    assert(stack_weight(d, st0) == stack_weight(d, stack@) + weight(d, 0));
                }
            } else {
                let child_level = level - 1;
                let ghost ck = child_level as nat;
                let ghost p = pw(d, ck);
                let ghost w = weight(d, ck);
                proof {
                    lemma_levels(d, n, li, level as int);
                    lemma_levels(d, n, li, child_level as int);
                    lemma_pw_pos(d, level as nat);
                    lemma_pw_pos(d, ck);
                    lemma_weight_pos(d, ck);
                    lemma_start_mono(d, n, level as nat, (li.len() - 1) as nat);
                    assert(li[level as int] == level_start(d, n, level as nat));
                    assert(li[li.len() - 1] == level_start(d, n, (li.len() - 1) as nat));
                    assert(d * offset + d <= d * level_size(d, n, level as nat)) by (nonlinear_arith)
                        requires
                            offset < level_size(d, n, level as nat),
                            d >= 2,
                    ;
                    lemma_child_range(d, level as nat, offset as int, 0);
                    assert(stack_weight(d, st0) == stack_weight(d, stack@) + d * w + 1);
                    assert((d - 0) * w == d * w);
                    assert forall|s: int| 0 <= s < stack@.len() implies hi_of(d, #[trigger] stack@[s]) <= p * (d * offset + 0)
                            || p * (d * offset + d) <= lo_of(d, stack@[s]) by {
                        assert(st0[s] == stack@[s]);
                        assert(hi_of(d, st0[s]) <= lo_of(d, st0[st0.len() - 1]) || hi_of(d, st0[st0.len() - 1]) <= lo_of(d, st0[s]));
                    }
                    assert forall|a: int| 0 <= a < results@.len() implies !(p * (d * offset + 0) <= #[trigger] results@[a] < p * (d * offset + d)) by {
                        assert(!in_entry(d, st0[st0.len() - 1], results@[a] as int));
                    }
                    assert forall|i: int|
                        0 <= i < n && query.meets(#[trigger] t[i]) implies results@.contains(i as usize) || (exists|s: int|
                            0 <= s < stack@.len() && #[trigger] in_entry(d, stack@[s], i)) || (p * (d * offset + 0) <= i < p * (d * offset + d)) by {
                        if !results@.contains(i as usize) {
                            let s = choose|s: int| 0 <= s < st0.len() && #[trigger] in_entry(d, st0[s], i);
                            if s < st0.len() - 1 {
                                assert(in_entry(d, stack@[s], i));
                            }
                        }
                    }
                    assert forall|a: int, s: int|
                        0 <= a < results@.len() && 0 <= s < stack@.len() implies !in_entry(d, #[trigger] stack@[s], #[trigger] results@[a] as int) by {
                        assert(st0[s] == stack@[s]);
                    }
                    assert forall|s1: int, s2: int|
                        0 <= s1 < s2 < stack@.len() implies hi_of(d, #[trigger] stack@[s1]) <= lo_of(d, stack@[s2])
                            || hi_of(d, #[trigger] stack@[s2]) <= lo_of(d, stack@[s1]) by {
                        assert(st0[s1] == stack@[s1] && st0[s2] == stack@[s2]);
                    }
                }
                let first_child_offset = self.degree * offset;
                let first_child_index = self.level_indices[child_level] + first_child_offset;
                let (intersects, contains) = self.child_tests(query, first_child_index);
                let mut inc: usize = 0;
                while inc < self.degree
                    invariant
                        d == self.degree as int,
                        n == self.size as int,
                        li == self.level_indices@,
                        t == self.nodes(),
                        packed_wf(d, n, li, t),
                        n >= 1,
                        n <= t.len(),
                        1 <= level < li.len(),
                        child_level == level - 1,
                        ck == child_level as nat,
                        p == pw(d, ck),
                        p >= 1,
                        w == weight(d, ck),
                        w >= 1,
                        offset < level_size(d, n, level as nat),
                        first_child_offset == d * offset,
                        first_child_index == li[child_level as int] + first_child_offset,
                        intersects@.len() == d,
                        contains@.len() == d,
                        forall|j: int| 0 <= j < d ==> #[trigger] intersects@[j] == query.meets(t[first_child_index + j]),
                        forall|j: int| 0 <= j < d ==> #[trigger] contains@[j] == query.holds(t[first_child_index + j]),
                        first_child_offset + d <= slots(li, child_level as int),
                        li[child_level as int] + slots(li, child_level as int) <= li[li.len() - 1],
                        inc <= d,
                        forall|s: int|
                            0 <= s < stack@.len() ==> {
                                &&& (#[trigger] stack@[s]).0 < li.len()
                                &&& stack@[s].1 < level_size(d, n, stack@[s].0 as nat)
                                &&& query.meets(t[li[stack@[s].0 as int] + stack@[s].1])
                            },
                        forall|a: int| 0 <= a < results@.len() ==> #[trigger] results@[a] < n && query.meets(t[results@[a] as int]),
                        results@.no_duplicates(),
                        forall|i: int|
                            0 <= i < n && query.meets(#[trigger] t[i]) ==> results@.contains(i as usize) || (exists|s: int|
                                0 <= s < stack@.len() && #[trigger] in_entry(d, stack@[s], i)) || (p * (d * offset + inc) <= i < p * (d * offset + d)),
                        forall|a: int, s: int|
                            0 <= a < results@.len() && 0 <= s < stack@.len() ==> !in_entry(d, #[trigger] stack@[s], #[trigger] results@[a] as int),
                        forall|a: int|
                            0 <= a < results@.len() ==> !(p * (d * offset + inc) <= #[trigger] results@[a] < p * (d * offset + d)),
                        forall|s1: int, s2: int|
                            0 <= s1 < s2 < stack@.len() ==> hi_of(d, #[trigger] stack@[s1]) <= lo_of(d, stack@[s2])
                                || hi_of(d, #[trigger] stack@[s2]) <= lo_of(d, stack@[s1]),
                        forall|s: int|
                            0 <= s < stack@.len() ==> hi_of(d, #[trigger] stack@[s]) <= p * (d * offset + inc)
                                || p * (d * offset + d) <= lo_of(d, stack@[s]),
                        stack_weight(d, stack@) + (d - inc) * w + 1 <= stack_weight(d, st0),
                    decreases d - inc,
                {
                    let child_offset = first_child_offset + inc;
                    let ghost child = t[first_child_index + inc];
                    let ghost c = child_offset as int;
                    let ghost v_lo = p * (d * offset + inc);
                    let ghost v_next = p * (d * offset + inc + 1);
                    let ghost v_hi = p * (d * offset + d);
                    proof {
                        lemma_child_range(d, level as nat, offset as int, inc as int);
                        assert(lo_of(d, (child_level, child_offset)) == v_lo);
                        assert(hi_of(d, (child_level, child_offset)) == v_next);
                        assert(child == t[li[child_level as int] + c]);
                        assert(intersects@[inc as int] == query.meets(child));
                        assert(contains@[inc as int] == query.holds(child));
                        assert((d - inc) * w == (d - (inc + 1)) * w + w) by (nonlinear_arith);
                        assert(v_next <= v_hi);
                    }
                    if intersects[inc] {
                        proof {
                            assert(child_offset < level_size(d, n, ck)) by {
                                if child_offset >= level_size(d, n, ck) {
                                    assert(t[li[child_level as int] + c].empty());
                                }
                            }
                        }
                        if contains[inc] {
                            let ghost r0 = results@;
                            let mut leaves = self.leaf_range(child_level, child_offset);
                            let ghost lv = leaves@;
                            results.append(&mut leaves);
                            proof {
                                assert(results@ == r0 + lv);
                                assert forall|a: int| 0 <= a < lv.len() implies #[trigger] lv[a] < n && query.meets(t[lv[a] as int]) by {
                                    lemma_node_covers_leaf(d, n, li, t, child_level as int, c, lv[a] as int);
                                    lemma_holds_down(*query, child, t[lv[a] as int]);
                                }
                                assert forall|a: int| 0 <= a < results@.len() implies #[trigger] results@[a] < n && query.meets(t[results@[a] as int]) by {
                                    if a >= r0.len() {
                                        assert(results@[a] == lv[a - r0.len()]);
                                    } else {
                                        assert(results@[a] == r0[a]);
                                    }
                                }
                                assert(lv.no_duplicates()) by {
                                    assert forall|a: int, b: int| 0 <= a < lv.len() && 0 <= b < lv.len() && a != b implies lv[a] != lv[b] by {
                                        if a < b {
                                            assert(lv[a] < lv[b]);
                                        } else {
                                            assert(lv[b] < lv[a]);
                                        }
                                    }
                                }
                                assert forall|a: int, b: int| 0 <= a < r0.len() && 0 <= b < lv.len() implies r0[a] != lv[b] by {
                                    assert(!(v_lo <= r0[a] < v_hi));
                                    assert(in_entry(d, (child_level, child_offset), lv[b] as int));
                                }
                                vstd::seq_lib::lemma_no_dup_in_concat(r0, lv);
                                assert forall|i: int|
                                    0 <= i < n && query.meets(#[trigger] t[i]) implies results@.contains(i as usize) || (exists|s: int|
                                        0 <= s < stack@.len() && #[trigger] in_entry(d, stack@[s], i)) || (v_next <= i < v_hi) by {
                                    if r0.contains(i as usize) {
                                        let a = choose|a: int| 0 <= a < r0.len() && r0[a] == i as usize;
                                        assert(results@[a] == i as usize);
                                    } else if v_lo <= i < v_next {
                                        assert(in_entry(d, (child_level, child_offset), i));
                                        assert(lv.contains(i as usize));
                                        let b = choose|b: int| 0 <= b < lv.len() && lv[b] == i as usize;
                                        assert(results@[r0.len() + b] == i as usize);
                                    }
                                }
                                assert forall|a: int, s: int|
                                    0 <= a < results@.len() && 0 <= s < stack@.len() implies !in_entry(d, #[trigger] stack@[s], #[trigger] results@[a] as int) by {
                                    if a >= r0.len() {
                                        assert(results@[a] == lv[a - r0.len()]);
                                        assert(in_entry(d, (child_level, child_offset), lv[a - r0.len()] as int));
                                    } else {
                                        assert(results@[a] == r0[a]);
                                    }
                                }
                                assert forall|a: int|
                                    0 <= a < results@.len() implies !(v_next <= #[trigger] results@[a] < v_hi) by {
                                    if a >= r0.len() {
                                        assert(results@[a] == lv[a - r0.len()]);
                                        assert(in_entry(d, (child_level, child_offset), lv[a - r0.len()] as int));
                                    } else {
                                        assert(results@[a] == r0[a]);
                                    }
                                }
                            }
                        } else {
                            let ghost s0 = stack@;
                            stack.push((child_level, child_offset));
                            proof {
                                lemma_stack_weight_push(d, s0, (child_level, child_offset));
                                let last = s0.len() as int;
                                assert(stack@[last] == (child_level, child_offset));
                                assert forall|s: int| 0 <= s < stack@.len() implies {
                                    &&& (#[trigger] stack@[s]).0 < li.len()
                                    &&& stack@[s].1 < level_size(d, n, stack@[s].0 as nat)
                                    &&& query.meets(t[li[stack@[s].0 as int] + stack@[s].1])
                                } by {
                                    if s < last {
                                        assert(stack@[s] == s0[s]);
                                    }
                                }
                                assert forall|i: int|
                                    0 <= i < n && query.meets(#[trigger] t[i]) implies results@.contains(i as usize) || (exists|s: int|
                                        0 <= s < stack@.len() && #[trigger] in_entry(d, stack@[s], i)) || (v_next <= i < v_hi) by {
                                    if !results@.contains(i as usize) && !(v_next <= i < v_hi) {
                                        if v_lo <= i < v_next {
                                            assert(in_entry(d, stack@[last], i));
                                        } else {
                                            let s = choose|s: int| 0 <= s < s0.len() && #[trigger] in_entry(d, s0[s], i);
                                            assert(stack@[s] == s0[s]);
                                            assert(in_entry(d, stack@[s], i));
                                        }
                                    }
                                }
                                assert forall|a: int, s: int|
                                    0 <= a < results@.len() && 0 <= s < stack@.len() implies !in_entry(d, #[trigger] stack@[s], #[trigger] results@[a] as int) by {
                                    if s < last {
                                        assert(stack@[s] == s0[s]);
                                    }
                                }
                                assert forall|s1: int, s2: int|
                                    0 <= s1 < s2 < stack@.len() implies hi_of(d, #[trigger] stack@[s1]) <= lo_of(d, stack@[s2])
                                        || hi_of(d, #[trigger] stack@[s2]) <= lo_of(d, stack@[s1]) by {
                                    assert(stack@[s1] == s0[s1]);
                                    if s2 < last {
                                        assert(stack@[s2] == s0[s2]);
                                    }
                                }
                                assert forall|s: int|
                                    0 <= s < stack@.len() implies hi_of(d, #[trigger] stack@[s]) <= v_next
                                        || v_hi <= lo_of(d, stack@[s]) by {
                                    if s < last {
                                        assert(stack@[s] == s0[s]);
                                    }
                                }
                            }
                        }
                    } else {
                        proof {
                            assert forall|i: int|
                                0 <= i < n && query.meets(#[trigger] t[i]) implies results@.contains(i as usize) || (exists|s: int|
                                    0 <= s < stack@.len() && #[trigger] in_entry(d, stack@[s], i)) || (v_next <= i < v_hi) by {
                                if v_lo <= i < v_next {
                                    lemma_node_covers_leaf(d, n, li, t, child_level as int, c, i);
                                    lemma_meets_up(*query, child, t[i]);
                                }
                            }
                        }
                    }
                    inc += 1;
                }
                proof {
                    assert((d - inc) * w == 0) by (nonlinear_arith)
                        requires
                            inc == d,
                    ;
                }
            }
            proof {
                lemma_stack_weight_nonneg(d, stack@);
                assert(stack_weight(d, stack@) < stack_weight(d, st0));
            }
        }
        proof {
            assert forall|i: usize| #[trigger] results@.contains(i) <==> (i < self.size && query.meets(t[i as int])) by {
                if results@.contains(i) {
                    let a = choose|a: int| 0 <= a < results@.len() && results@[a] == i;
                }
            }
        }
        results
    }
}

impl RTree for PackedRTreeUnsortedTracked {
    open spec fn items(&self) -> Seq<Rectangle> {
        self.leaf_rects()
    }

    open spec fn degree_spec(&self) -> nat {
        self.degree_view()
    }

    open spec fn slot_count(&self) -> nat {
        self.leaf_rects().len()
    }

    fn is_empty(&self) -> (r: bool) {
        proof {
            use_type_invariant(self);
            lemma_leaves_first(self.degree as int, self.size as int, self.level_indices@, self.nodes());
        }
        self.size == 0
    }

    fn height(&self) -> (r: usize) {
        proof {
            use_type_invariant(self);
            lemma_leaves_first(self.degree as int, self.size as int, self.level_indices@, self.nodes());
        }
        self.level_indices.len()
    }

    fn degree(&self) -> (r: usize) {
        proof {
            use_type_invariant(self);
        }
        self.degree
    }

    fn envelope(&self) -> (r: Rectangle) {
        proof {
            use_type_invariant(self);
            lemma_leaves_first(self.degree as int, self.size as int, self.level_indices@, self.nodes());
        }
        if self.size == 0 {
            Rectangle::new_empty()
        } else {
            proof {
                lemma_root_envelope(self.degree as int, self.size as int, self.level_indices@, self.nodes());
                crate::layout::lemma_levels(self.degree as int, self.size as int, self.level_indices@, self.level_indices@.len() - 1);
            }
            let last_index = self.level_indices[self.level_indices.len() - 1];
            Rectangle {
                x_min: self.x_mins.get(last_index),
                y_min: self.y_mins.get(last_index),
                x_max: self.x_maxs.get(last_index),
                y_max: self.y_maxs.get(last_index),
            }
        }
    }

    fn query_rect(&self, query: &Rectangle) -> (r: Vec<usize>) {
        proof {
            use_type_invariant(self);
            lemma_leaves_first(self.degree as int, self.size as int, self.level_indices@, self.nodes());
        }
        self.query_leaves(query)
    }
}

} // verus!
