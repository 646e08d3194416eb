//! Flat scans that count the rectangles meeting a query: the inner loop of a
//! node visit, written in the encodings that the trees use.
use vstd::prelude::*;

verus! {

/// Bounds without an empty state: every value is a rectangle.
#[derive(Clone, Copy, Debug)]
pub struct Rectangle {
    pub x_min: i64,
    pub y_min: i64,
    pub x_max: i64,
    pub y_max: i64,
}

pub open spec fn overlap(a: Rectangle, b: Rectangle) -> bool {
    a.x_min <= b.x_max && a.x_max >= b.x_min && a.y_min <= b.y_max && a.y_max >= b.y_min
}

impl Rectangle {
    pub fn intersects(&self, other: &Rectangle) -> (r: bool)
        ensures
            r == overlap(*self, *other),
    {
        self.x_min <= other.x_max && self.x_max >= other.x_min && self.y_min <= other.y_max
            && self.y_max >= other.y_min
    }

    /// As `intersects`, with the four tests counted rather than chained.
    pub fn intersects2(&self, other: &Rectangle) -> (r: bool)
        ensures
            r == overlap(*self, *other),
    {
        ((self.x_min <= other.x_max) as u8) + ((self.x_max >= other.x_min) as u8) + ((self.y_min
            <= other.y_max) as u8) + ((self.y_max >= other.y_min) as u8) == 4
    }
}

/// Lanes `[x_min, y_min, -x_max, -y_max]` of a rectangle, or those of a query
/// `[x_max, y_max, -x_min, -y_min]`.
#[derive(Clone, Copy)]
pub struct BBox {
    pub scalars: [i128; 4],
}

/// The lanes of a 32-byte aligned rectangle.
#[derive(Clone, Copy)]
pub struct BBox2(pub [i128; 4]);

pub open spec fn lanes_below(b: [i128; 4], q: [i128; 4]) -> bool {
    b[0] <= q[0] && b[1] <= q[1] && b[2] <= q[2] && b[3] <= q[3]
}

/// How many of `s` overlap `q`.
pub open spec fn count_overlaps(q: Rectangle, s: Seq<Rectangle>) -> nat
    decreases s.len(),
{
    if s.len() == 0 {
        0
    } else {
        count_overlaps(q, s.drop_last()) + if overlap(q, s.last()) {
            1nat
        } else {
            0nat
        }
    }
}

/// How many of `s` have lanes at most those of `q`.
pub open spec fn count_below(q: [i128; 4], s: Seq<[i128; 4]>) -> nat
    decreases s.len(),
{
    if s.len() == 0 {
        0
    } else {
        count_below(q, s.drop_last()) + if lanes_below(s.last(), q) {
            1nat
        } else {
            0nat
        }
    }
}

pub open spec fn lanes_of(s: Seq<BBox>) -> Seq<[i128; 4]> {
    s.map_values(|b: BBox| b.scalars)
}

pub open spec fn lanes_of2(s: Seq<BBox2>) -> Seq<[i128; 4]> {
    s.map_values(|b: BBox2| b.0)
}

proof fn lemma_count_overlaps_bound(q: Rectangle, s: Seq<Rectangle>)
    ensures
        count_overlaps(q, s) <= s.len(),
    decreases s.len(),
{
    if s.len() > 0 {
        lemma_count_overlaps_bound(q, s.drop_last());
    }
}

proof fn lemma_count_below_bound(q: [i128; 4], s: Seq<[i128; 4]>)
    ensures
        count_below(q, s) <= s.len(),
    decreases s.len(),
{
    if s.len() > 0 {
        lemma_count_below_bound(q, s.drop_last());
    }
}

pub fn rectangle_loop(query_rect: Rectangle, tree_rects: &[Rectangle]) -> (r: usize)
    ensures
        r == count_overlaps(query_rect, tree_rects@),
{
    let mut count: usize = 0;
    let mut i: usize = 0;
    while i < tree_rects.len()
        invariant
            i <= tree_rects@.len(),
            count == count_overlaps(query_rect, tree_rects@.take(i as int)),
        decreases tree_rects@.len() - i,
    {
        proof {
            assert(tree_rects@.take(i + 1).drop_last() =~= tree_rects@.take(i as int));
            lemma_count_overlaps_bound(query_rect, tree_rects@.take(i as int));
        }
        if query_rect.intersects(&tree_rects[i]) {
            count += 1;
        }
        i += 1;
    }
    proof {
        assert(tree_rects@.take(i as int) =~= tree_rects@);
    }
    count
}

pub fn rectangle_loop2(query_rect: Rectangle, tree_rects: &[Rectangle]) -> (r: usize)
    ensures
        r == count_overlaps(query_rect, tree_rects@),
{
    let mut count: usize = 0;
    let mut i: usize = 0;
    while i < tree_rects.len()
        invariant
            i <= tree_rects@.len(),
            count == count_overlaps(query_rect, tree_rects@.take(i as int)),
        decreases tree_rects@.len() - i,
    {
        proof {
            assert(tree_rects@.take(i + 1).drop_last() =~= tree_rects@.take(i as int));
            lemma_count_overlaps_bound(query_rect, tree_rects@.take(i as int));
        }
        if query_rect.intersects2(&tree_rects[i]) {
            count += 1;
        }
        i += 1;
    }
    proof {
        assert(tree_rects@.take(i as int) =~= tree_rects@);
    }
    count
}

pub fn bbox_loop(query_bbox: BBox, tree_rects: &[BBox]) -> (r: usize)
    ensures
        r == count_below(query_bbox.scalars, lanes_of(tree_rects@)),
{
    let ghost l = lanes_of(tree_rects@);
    let mut count: usize = 0;
    let mut i: usize = 0;
    while i < tree_rects.len()
        invariant
            l == lanes_of(tree_rects@),
            i <= tree_rects@.len(),
            count == count_below(query_bbox.scalars, l.take(i as int)),
        decreases tree_rects@.len() - i,
    {
        proof {
            assert(l.take(i + 1).drop_last() =~= l.take(i as int));
            lemma_count_below_bound(query_bbox.scalars, l.take(i as int));
        }
        let b = tree_rects[i].scalars;
        let q = query_bbox.scalars;
        if b[0] <= q[0] && b[1] <= q[1] && b[2] <= q[2] && b[3] <= q[3] {
            count += 1;
        }
        i += 1;
    }
    proof {
        assert(l.take(i as int) =~= l);
    }
    count
}

pub fn bbox_loop2(query_bbox: BBox, tree_rects: &[BBox]) -> (r: usize)
    ensures
        r == count_below(query_bbox.scalars, lanes_of(tree_rects@)),
{
    let ghost l = lanes_of(tree_rects@);
    let mut count: usize = 0;
    let mut i: usize = 0;
    while i < tree_rects.len()
        invariant
            l == lanes_of(tree_rects@),
            i <= tree_rects@.len(),
            count == count_below(query_bbox.scalars, l.take(i as int)),
        decreases tree_rects@.len() - i,
    {
        proof {
            assert(l.take(i + 1).drop_last() =~= l.take(i as int));
            lemma_count_below_bound(query_bbox.scalars, l.take(i as int));
        }
        let b = tree_rects[i].scalars;
        let q = query_bbox.scalars;
        if ((b[0] <= q[0]) as u8) + ((b[1] <= q[1]) as u8) + ((b[2] <= q[2]) as u8) + ((b[3] <= q[3]) as u8) == 4 {
            count += 1;
        }
        i += 1;
    }
    proof {
        assert(l.take(i as int) =~= l);
    }
    count
}

pub fn bbox_loop3(query_bbox: BBox2, tree_rects: &[BBox2]) -> (r: usize)
    ensures
        r == count_below(query_bbox.0, lanes_of2(tree_rects@)),
{
    let ghost l = lanes_of2(tree_rects@);
    let mut count: usize = 0;
    let mut i: usize = 0;
    while i < tree_rects.len()
        invariant
            l == lanes_of2(tree_rects@),
            i <= tree_rects@.len(),
            count == count_below(query_bbox.0, l.take(i as int)),
        decreases tree_rects@.len() - i,
    {
        proof {
            assert(l.take(i + 1).drop_last() =~= l.take(i as int));
            lemma_count_below_bound(query_bbox.0, l.take(i as int));
        }
        let b = tree_rects[i].0;
        let q = query_bbox.0;
        if b[0] <= q[0] && b[1] <= q[1] && b[2] <= q[2] && b[3] <= q[3] {
            count += 1;
        }
        i += 1;
    }
    proof {
        assert(l.take(i as int) =~= l);
    }
    count
}

pub fn bbox_loop4(query_bbox: BBox2, tree_rects: &[BBox2]) -> (r: usize)
    ensures
        r == count_below(query_bbox.0, lanes_of2(tree_rects@)),
{
    let ghost l = lanes_of2(tree_rects@);
    let mut count: usize = 0;
    let mut i: usize = 0;
    while i < tree_rects.len()
        invariant
            l == lanes_of2(tree_rects@),
            i <= tree_rects@.len(),
            count == count_below(query_bbox.0, l.take(i as int)),
        decreases tree_rects@.len() - i,
    {
        proof {
            assert(l.take(i + 1).drop_last() =~= l.take(i as int));
            lemma_count_below_bound(query_bbox.0, l.take(i as int));
        }
        let b = tree_rects[i].0;
        let q = query_bbox.0;
        if ((b[0] <= q[0]) as u8) + ((b[1] <= q[1]) as u8) + ((b[2] <= q[2]) as u8) + ((b[3] <= q[3]) as u8) == 4 {
            count += 1;
        }
        i += 1;
    }
    proof {
        assert(l.take(i as int) =~= l);
    }
    count
}

} // verus!
