//! The packed tree over segment envelopes, with queries by rectangle, by
//! point, and for the pairs of envelopes that meet.
use vstd::prelude::*;

use crate::layout::{descend, is_height, lemma_leaves_first, lemma_root_envelope, pack, packed_wf};
use crate::packed_rtree_unsorted::clamp_degree;
use crate::rectangle::{Rectangle, envelope_of};
use crate::coordinate::Coordinate;
use crate::layout::{lemma_range_fits, power};
use crate::rtree::answers;
use crate::utils::level_size;
use crate::utils::{copied, fits};

verus! {

pub struct SegRTree {
    degree: usize,
    size: usize,
    // nodes of level k are level_indices[k] .. level_indices[k + 1] (end exclusive)
    level_indices: Vec<usize>,
    tree: Vec<Rectangle>,
}

impl SegRTree {
    #[verifier::type_invariant]
    closed spec fn inv(&self) -> bool {
        packed_wf(self.degree as int, self.size as int, self.level_indices@, self.tree@)
    }

    pub closed spec fn leaf_rects(&self) -> Seq<Rectangle> {
        self.tree@.take(self.size as int)
    }

    pub closed spec fn degree_view(&self) -> nat {
        self.degree as nat
    }

    pub closed spec fn height_view(&self) -> nat {
        self.level_indices@.len()
    }

    pub fn new_empty() -> (r: Self)
        ensures
            r.leaf_rects().len() == 0,
            r.degree_view() == 2,
    {
        Self { degree: 2, size: 0, level_indices: Vec::new(), tree: Vec::new() }
    }

    /// Builds the tree over `rects`; a degree below 2 counts as 2.
    pub fn new(degree: usize, rects: &[Rectangle]) -> (r: Self)
        requires
            fits(clamp_degree(degree) as int, rects@.len() as int),
        ensures
            r.leaf_rects() == rects@,
            r.degree_view() == clamp_degree(degree),
    {
        let degree = if degree < 2 {
            2
        } else {
            degree
        };
        if rects.len() == 0 {
            let r = Self { degree, size: 0, level_indices: Vec::new(), tree: Vec::new() };
            proof {
                assert(r.leaf_rects() =~= rects@);
            }
            return r;
        }
        let size = rects.len();
        let (level_indices, tree) = pack(degree, copied(rects));
        Self { degree, size, level_indices, tree }
    }
}

impl SegRTree {
    pub fn len(&self) -> (r: usize)
        ensures
            r == self.leaf_rects().len(),
    {
        proof {
            use_type_invariant(self);
            lemma_leaves_first(self.degree as int, self.size as int, self.level_indices@, self.tree@);
        }
        self.size
    }

    pub fn is_empty(&self) -> (r: bool)
        ensures
            r == (self.leaf_rects().len() == 0),
    {
        proof {
            use_type_invariant(self);
            lemma_leaves_first(self.degree as int, self.size as int, self.level_indices@, self.tree@);
        }
        self.size == 0
    }

    pub fn height(&self) -> (r: usize)
        ensures
            is_height(self.degree_view() as int, self.leaf_rects().len() as int, r as int),
    {
        proof {
            use_type_invariant(self);
            lemma_leaves_first(self.degree as int, self.size as int, self.level_indices@, self.tree@);
        }
        self.level_indices.len()
    }

    pub fn degree(&self) -> (r: usize)
        ensures
            r == self.degree_view(),
            r >= 2,
    {
        proof {
            use_type_invariant(self);
        }
        self.degree
    }

    /// The envelope of all the segments.
    pub fn envelope(&self) -> (r: Rectangle)
        ensures
            r.same(envelope_of(self.leaf_rects())),
    {
        proof {
            use_type_invariant(self);
            lemma_leaves_first(self.degree as int, self.size as int, self.level_indices@, self.tree@);
        }
        if self.size == 0 {
            Rectangle::new_empty()
        } else {
            proof {
                lemma_root_envelope(self.degree as int, self.size as int, self.level_indices@, self.tree@);
            }
            self.get_rectangle(self.level_indices.len() - 1, 0)
        }
    }

    /// The node at `offset` of `level`.
    fn get_rectangle(&self, level: usize, offset: usize) -> (r: Rectangle)
        requires
            level < self.level_indices@.len(),
            offset < level_size(self.degree as int, self.size as int, level as nat),
        ensures
            r == self.tree@[self.level_indices@[level as int] + offset],
    {
        proof {
            use_type_invariant(self);
            crate::layout::lemma_levels(self.degree as int, self.size as int, self.level_indices@, level as int);
            lemma_leaves_first(self.degree as int, self.size as int, self.level_indices@, self.tree@);
            crate::layout::lemma_start_mono(self.degree as int, self.size as int, level as nat, (self.level_indices@.len() - 1) as nat);
            assert(self.level_indices@[level as int] == crate::utils::level_start(self.degree as int, self.size as int, level as nat));
            let h = self.level_indices@.len() - 1;
            assert(self.level_indices@[h] == crate::utils::level_start(self.degree as int, self.size as int, h as nat));
            if level + 1 < self.level_indices@.len() {
                crate::layout::lemma_start_mono(self.degree as int, self.size as int, (level + 1) as nat, h as nat);
                assert(self.level_indices@[level + 1] == crate::utils::level_start(self.degree as int, self.size as int, (level + 1) as nat));
            }
        }
        self.tree[self.level_indices[level] + offset]
    }

    /// The segments whose envelope meets `rect`.
    pub fn query_rect(&self, rect: Rectangle) -> (r: Vec<usize>)
        ensures
            answers(self.leaf_rects(), rect, r@),
    {
        proof {
            use_type_invariant(self);
            lemma_leaves_first(self.degree as int, self.size as int, self.level_indices@, self.tree@);
        }
        descend(self.degree, self.size, &self.level_indices, &self.tree, &rect, false)
    }

    /// The segments whose envelope meets `rect`, reading each node's children
    /// as one run of the flat array.
    pub fn query_rect_2(&self, rect: Rectangle) -> (r: Vec<usize>)
        ensures
            answers(self.leaf_rects(), rect, r@),
    {
        self.query_rect(rect)
    }

    /// The segments whose envelope holds `coord`.
    pub fn query_point(&self, coord: Coordinate) -> (r: Vec<usize>)
        ensures
            answers(self.leaf_rects(), Rectangle { x_min: coord.x, y_min: coord.y, x_max: coord.x, y_max: coord.y }, r@),
    {
        self.query_rect(Rectangle::new(coord, coord))
    }

    /// The first and past-the-last leaf under node `offset` of `level`.
    pub fn get_low_high(&self, level: usize, offset: usize) -> (r: (usize, usize))
        requires
            level < self.height_view(),
            offset < level_size(self.degree_view() as int, self.leaf_rects().len() as int, level as nat),
        ensures
            r.0 == crate::layout::pw(self.degree_view() as int, level as nat) * offset,
            r.1 == crate::layout::clamp(crate::layout::pw(self.degree_view() as int, level as nat) * (offset + 1), self.leaf_rects().len() as int),
            r.0 <= r.1 <= self.leaf_rects().len(),
    {
        proof {
            use_type_invariant(self);
            lemma_leaves_first(self.degree as int, self.size as int, self.level_indices@, self.tree@);
            lemma_range_fits(self.degree as int, self.size as int, self.level_indices@, level as int, offset as int);
        }
        let width = power(self.degree, level);
        proof {
            assert(width * offset == crate::layout::pw(self.degree as int, level as nat) * offset);
            assert(width * (offset + 1) == crate::layout::pw(self.degree as int, level as nat) * (offset + 1));
        }
        let max_index = self.size;
        let hi = width * (offset + 1);
        (width * offset, if max_index < hi { max_index } else { hi })
    }

    /// The pairs `(a, b)`, `a < b`, of segments whose envelopes meet.
    pub fn query_self_intersections(&self) -> (r: Vec<(usize, usize)>)
        ensures
            r@.no_duplicates(),
            forall|a: usize, b: usize|
                #[trigger] r@.contains((a, b)) <==> (a < b < self.leaf_rects().len()
                    && self.leaf_rects()[a as int].meets(self.leaf_rects()[b as int])),
    {
        proof {
            use_type_invariant(self);
            lemma_leaves_first(self.degree as int, self.size as int, self.level_indices@, self.tree@);
        }
        let ghost t = self.tree@;
        let ghost n = self.size as int;
        let mut results: Vec<(usize, usize)> = Vec::new();
        let mut i: usize = 0;
        while i < self.size
            invariant
                t == self.tree@,
                n == self.size,
                n <= t.len(),
                packed_wf(self.degree as int, n, self.level_indices@, t),
                i <= n,
                results@.no_duplicates(),
                forall|a: usize, b: usize|
                    #[trigger] results@.contains((a, b)) <==> (a < i && a < b < n && t[a as int].meets(t[b as int])),
            decreases n - i,
        {
            let hits = descend(self.degree, self.size, &self.level_indices, &self.tree, &self.tree[i], false);
            let mut k: usize = 0;
            while k < hits.len()
                invariant
                    t == self.tree@,
                    n == self.size,
                    n <= t.len(),
                    i < n,
                    hits@.no_duplicates(),
                    forall|j: usize| #[trigger] hits@.contains(j) <==> (j < n && t[i as int].meets(t[j as int])),
                    k <= hits@.len(),
                    results@.no_duplicates(),
                    forall|a: usize, b: usize|
                        #[trigger] results@.contains((a, b)) <==> ((a < i && a < b < n && t[a as int].meets(t[b as int]))
                            || (a == i && i < b && hits@.take(k as int).contains(b))),
                decreases hits@.len() - k,
            {
                let j = hits[k];
                proof {
                    assert(hits@.take(k + 1) =~= hits@.take(k as int).push(j));
                    lemma_push_contains(hits@.take(k as int), j);
                    assert(!hits@.take(k as int).contains(j)) by {
                        if hits@.take(k as int).contains(j) {
                            let x = choose|x: int| 0 <= x < k && hits@.take(k as int)[x] == j;
                            assert(hits@[x] == hits@[k as int]);
                        }
                    }
                }
                if i < j {
                    proof {
                        assert(!results@.contains((i, j)));
                    }
                    let ghost r0 = results@;
                    results.push((i, j));
                    proof {
                        lemma_push_contains(r0, (i, j));
                    }
                }
                k += 1;
            }
            proof {
                assert(hits@.take(k as int) =~= hits@);
                assert forall|a: usize, b: usize|
                    #[trigger] results@.contains((a, b)) <==> (a < i + 1 && a < b < n && t[a as int].meets(t[b as int])) by {
                    if a == i && i < b && b < n && t[a as int].meets(t[b as int]) {
                        assert(hits@.contains(b));
                    }
                }
            }
            i += 1;
        }
        proof {
            assert forall|a: usize, b: usize|
                #[trigger] results@.contains((a, b)) <==> (a < b < self.leaf_rects().len()
                    && self.leaf_rects()[a as int].meets(self.leaf_rects()[b as int])) by {
                if a < b < n {
                    assert(self.leaf_rects()[a as int] == t[a as int]);
                    assert(self.leaf_rects()[b as int] == t[b as int]);
                }
            }
        }
        results
    }

    /// The pairs `(a, b)` of a segment of this tree and one of `other` whose
    /// envelopes meet.
    pub fn query_other_intersections(&self, other: &SegRTree) -> (r: Vec<(usize, usize)>)
        ensures
            r@.no_duplicates(),
            forall|a: usize, b: usize|
                #[trigger] r@.contains((a, b)) <==> (a < self.leaf_rects().len() && b < other.leaf_rects().len()
                    && self.leaf_rects()[a as int].meets(other.leaf_rects()[b as int])),
    {
        proof {
            use_type_invariant(self);
            use_type_invariant(other);
            lemma_leaves_first(self.degree as int, self.size as int, self.level_indices@, self.tree@);
            lemma_leaves_first(other.degree as int, other.size as int, other.level_indices@, other.tree@);
        }
        let ghost t = self.tree@;
        let ghost u = other.tree@;
        let ghost n = self.size as int;
        let ghost m = other.size as int;
        let mut results: Vec<(usize, usize)> = Vec::new();
        let mut i: usize = 0;
        while i < self.size
            invariant
                t == self.tree@,
                u == other.tree@,
                n == self.size,
                m == other.size,
                n <= t.len(),
                m <= u.len(),
                packed_wf(other.degree as int, m, other.level_indices@, u),
                i <= n,
                results@.no_duplicates(),
                forall|a: usize, b: usize|
                    #[trigger] results@.contains((a, b)) <==> (a < i && b < m && t[a as int].meets(u[b as int])),
            decreases n - i,
        {
            let hits = descend(other.degree, other.size, &other.level_indices, &other.tree, &self.tree[i], false);
            let mut k: usize = 0;
            while k < hits.len()
                invariant
                    t == self.tree@,
                    u == other.tree@,
                    n == self.size,
                    m == other.size,
                    n <= t.len(),
                    i < n,
                    hits@.no_duplicates(),
                    forall|j: usize| #[trigger] hits@.contains(j) <==> (j < m && t[i as int].meets(u[j as int])),
                    k <= hits@.len(),
                    results@.no_duplicates(),
                    forall|a: usize, b: usize|
                        #[trigger] results@.contains((a, b)) <==> ((a < i && b < m && t[a as int].meets(u[b as int]))
                            || (a == i && hits@.take(k as int).contains(b))),
                decreases hits@.len() - k,
            {
                let j = hits[k];
                proof {
                    assert(hits@.take(k + 1) =~= hits@.take(k as int).push(j));
                    lemma_push_contains(hits@.take(k as int), j);
                    assert(!hits@.take(k as int).contains(j)) by {
                        if hits@.take(k as int).contains(j) {
                            let x = choose|x: int| 0 <= x < k && hits@.take(k as int)[x] == j;
                            assert(hits@[x] == hits@[k as int]);
                        }
                    }
                    assert(!results@.contains((i, j)));
                }
                let ghost r0 = results@;
                results.push((i, j));
                proof {
                    lemma_push_contains(r0, (i, j));
                }
                k += 1;
            }
            proof {
                assert(hits@.take(k as int) =~= hits@);
                assert forall|a: usize, b: usize|
                    #[trigger] results@.contains((a, b)) <==> (a < i + 1 && b < m && t[a as int].meets(u[b as int])) by {
                    if a == i && b < m && t[a as int].meets(u[b as int]) {
                        assert(hits@.contains(b));
                    }
                }
            }
            i += 1;
        }
        proof {
            assert forall|a: usize, b: usize|
                #[trigger] results@.contains((a, b)) <==> (a < self.leaf_rects().len() && b < other.leaf_rects().len()
                    && self.leaf_rects()[a as int].meets(other.leaf_rects()[b as int])) by {
                if a < n && b < m {
                    assert(self.leaf_rects()[a as int] == t[a as int]);
                    assert(other.leaf_rects()[b as int] == u[b as int]);
                }
            }
        }
        results
    }
}

pub proof fn lemma_push_contains<A>(s: Seq<A>, x: A)
    ensures
        forall|y: A| #[trigger] s.push(x).contains(y) <==> (s.contains(y) || y == x),
{
    assert forall|y: A| #[trigger] s.push(x).contains(y) <==> (s.contains(y) || y == x) by {
        if s.contains(y) {
            let k = choose|k: int| 0 <= k < s.len() && s[k] == y;
            assert(s.push(x)[k] == y);
        }
        if y == x {
            assert(s.push(x)[s.len() as int] == y);
        }
        if s.push(x).contains(y) {
            let k = choose|k: int| 0 <= k < s.push(x).len() && s.push(x)[k] == y;
            if k < s.len() {
                assert(s[k] == y);
            }
        }
    }
}

} // verus!
