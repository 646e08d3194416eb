//! The packed tree over rectangles, queried by plain descent: every node that
//! meets the query is opened.
use vstd::prelude::*;

use crate::layout::{descend, lemma_leaves_first, lemma_root_envelope, pack, packed_wf};
use crate::packed_rtree_unsorted::clamp_degree;
use crate::rectangle::Rectangle;
use crate::rtree::RTree;
use crate::utils::{copied, fits};

verus! {

pub struct PackedRTreeNative {
    degree: usize,
    size: usize,
    // nodes of level k are level_indices[k] .. level_indices[k + 1] (end exclusive)
    level_indices: Vec<usize>,
    tree: Vec<Rectangle>,
}

impl PackedRTreeNative {
    #[verifier::type_invariant]
    closed spec fn inv(&self) -> bool {
        packed_wf(self.degree as int, self.size as int, self.level_indices@, self.tree@)
    }

    pub closed spec fn leaf_rects(&self) -> Seq<Rectangle> {
        self.tree@.take(self.size as int)
    }

    pub closed spec fn degree_view(&self) -> nat {
        self.degree as nat
    }

    pub fn new_empty() -> (r: Self)
        ensures
            r.leaf_rects().len() == 0,
            r.degree_view() == 2,
    {
        Self { degree: 2, size: 0, level_indices: Vec::new(), tree: Vec::new() }
    }

    /// Builds the tree over `rects`; a degree below 2 counts as 2.
    pub fn new(degree: usize, rects: &[Rectangle]) -> (r: Self)
        requires
            fits(clamp_degree(degree) as int, rects@.len() as int),
        ensures
            r.leaf_rects() == rects@,
            r.degree_view() == if rects@.len() == 0 {
                2
            } else {
                clamp_degree(degree)
            },
    {
        if rects.len() == 0 {
            let r = Self::new_empty();
            proof {
                assert(r.leaf_rects() =~= rects@);
            }
            return r;
        }
        let degree = if degree < 2 {
            2
        } else {
            degree
        };
        let size = rects.len();
        let (level_indices, tree) = pack(degree, copied(rects));
        Self { degree, size, level_indices, tree }
    }
}

impl RTree for PackedRTreeNative {
    open spec fn items(&self) -> Seq<Rectangle> {
        self.leaf_rects()
    }

    open spec fn degree_spec(&self) -> nat {
        self.degree_view()
    }

    open spec fn slot_count(&self) -> nat {
        self.leaf_rects().len()
    }

    fn is_empty(&self) -> (r: bool) {
        proof {
            use_type_invariant(self);
            lemma_leaves_first(self.degree as int, self.size as int, self.level_indices@, self.tree@);
        }
        self.size == 0
    }

    fn height(&self) -> (r: usize) {
        proof {
            use_type_invariant(self);
            lemma_leaves_first(self.degree as int, self.size as int, self.level_indices@, self.tree@);
        }
        self.level_indices.len()
    }

    fn degree(&self) -> (r: usize) {
        proof {
            use_type_invariant(self);
        }
        self.degree
    }

    fn envelope(&self) -> (r: Rectangle) {
        proof {
            use_type_invariant(self);
            lemma_leaves_first(self.degree as int, self.size as int, self.level_indices@, self.tree@);
        }
        if self.size == 0 {
            Rectangle::new_empty()
        } else {
            proof {
                lemma_root_envelope(self.degree as int, self.size as int, self.level_indices@, self.tree@);
            }
            self.tree[self.level_indices[self.level_indices.len() - 1]]
        }
    }

    fn query_rect(&self, query: &Rectangle) -> (r: Vec<usize>) {
        proof {
            use_type_invariant(self);
            lemma_leaves_first(self.degree as int, self.size as int, self.level_indices@, self.tree@);
        }
        descend(self.degree, self.size, &self.level_indices, &self.tree, query, false)
    }
}

} // verus!
