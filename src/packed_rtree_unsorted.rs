//! The packed tree over rectangles, queried with the containment short-circuit.
use vstd::prelude::*;

use crate::layout::{descend, lemma_leaves_first, lemma_levels, lemma_root_envelope, lemma_start_mono, pack, packed_wf};
use crate::rtree::RTree;
use crate::rectangle::Rectangle;
use crate::utils::{ceil_div, fits, level_size, level_start};

verus! {

pub struct PackedRTreeUnsorted {
    degree: usize,
    size: usize,
    // nodes of level k are level_indices[k] .. level_indices[k + 1] (end exclusive)
    level_indices: Vec<usize>,
    tree: Vec<Rectangle>,
}

impl PackedRTreeUnsorted {
    #[verifier::type_invariant]
    pub closed spec fn inv(&self) -> bool {
        packed_wf(self.degree as int, self.size as int, self.level_indices@, self.tree@)
    }

    /// The leaves, in slot order.
    pub closed spec fn leaf_rects(&self) -> Seq<Rectangle> {
        self.tree@.take(self.size as int)
    }

    pub closed spec fn degree_view(&self) -> nat {
        self.degree as nat
    }

    pub closed spec fn height_view(&self) -> nat {
        self.level_indices@.len()
    }
}

impl PackedRTreeUnsorted {
    pub fn new_empty() -> (r: Self)
        ensures
            r.leaf_rects().len() == 0,
            r.degree_view() == 2,
    {
        Self { degree: 2, size: 0, level_indices: Vec::new(), tree: Vec::new() }
    }

    /// Builds the tree over `rects`; a degree below 2 counts as 2.
    pub fn new(degree: usize, rects: Vec<Rectangle>) -> (r: Self)
        requires
            fits(clamp_degree(degree) as int, rects@.len() as int),
        ensures
            r.leaf_rects() == rects@,
            r.degree_view() == if rects@.len() == 0 {
                2
            } else {
                clamp_degree(degree)
            },
    {
        if rects.len() == 0 {
            let r = Self::new_empty();
            proof {
                assert(r.leaf_rects() =~= rects@);
            }
            return r;
        }
        let degree = if degree < 2 {
            2
        } else {
            degree
        };
        let size = rects.len();
        let (level_indices, tree) = pack(degree, rects);
        Self { degree, size, level_indices, tree }
    }
}

impl RTree for PackedRTreeUnsorted {
    open spec fn items(&self) -> Seq<Rectangle> {
        self.leaf_rects()
    }

    open spec fn degree_spec(&self) -> nat {
        self.degree_view()
    }

    open spec fn slot_count(&self) -> nat {
        self.leaf_rects().len()
    }

    fn is_empty(&self) -> (r: bool) {
        proof {
            use_type_invariant(self);
            lemma_leaves_first(self.degree as int, self.size as int, self.level_indices@, self.tree@);
        }
        self.size == 0
    }

    fn height(&self) -> (r: usize) {
        proof {
            use_type_invariant(self);
            lemma_leaves_first(self.degree as int, self.size as int, self.level_indices@, self.tree@);
        }
        self.level_indices.len()
    }

    fn degree(&self) -> (r: usize) {
        proof {
            use_type_invariant(self);
        }
        self.degree
    }

    fn envelope(&self) -> (r: Rectangle) {
        proof {
            use_type_invariant(self);
            lemma_leaves_first(self.degree as int, self.size as int, self.level_indices@, self.tree@);
        }
        if self.size == 0 {
            Rectangle::new_empty()
        } else {
            proof {
                lemma_root_envelope(self.degree as int, self.size as int, self.level_indices@, self.tree@);
            }
            self.tree[self.level_indices[self.level_indices.len() - 1]]
        }
    }

    fn query_rect(&self, query: &Rectangle) -> (r: Vec<usize>) {
        proof {
            use_type_invariant(self);
            lemma_leaves_first(self.degree as int, self.size as int, self.level_indices@, self.tree@);
        }
        descend(self.degree, self.size, &self.level_indices, &self.tree, query, true)
    }
}

impl PackedRTreeUnsorted {
    /// The leaf level: the items followed by the padding of their level.
    pub fn leaves(&self) -> (r: &[Rectangle])
        ensures
            r@.len() >= self.items().len(),
            r@.take(self.items().len() as int) == self.items(),
            forall|i: int| self.items().len() <= i < r@.len() ==> #[trigger] r@[i].empty(),
            self.items().len() <= 1 ==> r@.len() == self.items().len(),
            self.items().len() > 1 ==> r@.len() == self.degree_spec() * ceil_div(
                self.items().len() as int,
                self.degree_spec() as int,
            ),
    {
        proof {
            use_type_invariant(self);
            lemma_leaves_first(self.degree as int, self.size as int, self.level_indices@, self.tree@);
        }
        let ghost d = self.degree as int;
        let ghost n = self.size as int;
        let ghost li = self.level_indices@;
        let leaf_size = self.level_indices.len();
        let end: usize = if leaf_size == 0 {
            0
        } else if leaf_size == 1 {
            1
        } else {
            self.level_indices[1]
        };
        proof {
            if leaf_size >= 1 {
                lemma_levels(d, n, li, 0);
                assert(li[0] == level_start(d, n, 0));
            }
            if leaf_size > 1 {
                assert(li[1] == level_start(d, n, 1));
                assert(level_start(d, n, 1) == d * level_size(d, n, 1));
                lemma_start_mono(d, n, 1, (li.len() - 1) as nat);
                assert(li[li.len() - 1] == level_start(d, n, (li.len() - 1) as nat));
                assert forall|i: int| n <= i < end implies #[trigger] self.tree@[i].empty() by {
                    assert(self.tree@[li[0] + i].empty());
                }
            }
            if leaf_size == 1 {
                assert(n == 1);
            }
        }
        let r = &self.tree.as_slice()[0..end];
        proof {
            assert(r@.take(n) =~= self.tree@.take(n));
        }
        r
    }
}

pub open spec fn clamp_degree(degree: usize) -> usize {
    if degree < 2 {
        2
    } else {
        degree
    }
}

} // verus!
