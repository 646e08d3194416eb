//! Static, bulk-loaded, packed R-trees over axis-aligned rectangles.
//!
//! A tree of degree `d` over `n` rectangles is one flat array: the leaves,
//! padded to a multiple of `d`, then each level of envelopes of `d`
//! consecutive nodes of the level below, up to a single root. Queries descend
//! from the root and return the indices of the rectangles that meet the query.
//! Presorted variants lay the leaves out along a Hilbert curve or in
//! overlap-minimizing tiles, and map leaf positions back to item indices.
//!
//! Bounds are integers; an empty rectangle has a minimum above its maximum.
use vstd::prelude::*;

pub mod coordinate;
pub mod hilbert;
pub mod laws;
pub mod layout;
pub mod omt;
pub mod packed_rtree;
pub mod packed_rtree_auto_simd;
pub mod packed_rtree_native;
pub mod packed_rtree_unsorted;
pub mod packed_rtree_unsorted_tracked;
pub mod permutation;
pub mod rectangle;
pub mod rtree;
pub mod scan_loops;
pub mod seg_rtree;
pub mod sorted_packed_rtree;
pub mod utils;

pub use coordinate::Coordinate;
pub use packed_rtree::PackedRTree;
pub use packed_rtree_auto_simd::{BBox, PackedRTreeAutoSimd};
pub use packed_rtree_native::PackedRTreeNative;
pub use packed_rtree_unsorted::PackedRTreeUnsorted;
pub use packed_rtree_unsorted_tracked::PackedRTreeUnsortedTracked;
pub use rectangle::{HasEnvelope, Rectangle};
pub use rtree::RTree;
pub use seg_rtree::SegRTree;
pub use sorted_packed_rtree::SortedPackedRTree;

verus! {

} // verus!
