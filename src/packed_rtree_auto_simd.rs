//! The packed tree with each rectangle stored as four lanes
//! `[x_min, y_min, -x_max, -y_max]`, so that a node meets a query when each
//! lane is at most the matching lane of the query's encoding
//! `[x_max, y_max, -x_min, -y_min]`: four comparisons with no branch between them.
use vstd::prelude::*;

use crate::coordinate::Coordinate;
use crate::layout::{hi_of, in_entry, lemma_child_range, lemma_leaves_first, lemma_level_size_bounds, lemma_levels, lemma_meets_up, lemma_node_covers_leaf, lemma_pw_pos, lemma_root_envelope, lemma_stack_weight_nonneg, lemma_stack_weight_push, lemma_start_mono, lemma_union_same, lemma_weight_pos, lo_of, packed_wf, pw, slots, stack_weight, weight, children};
use crate::packed_rtree_unsorted::clamp_degree;
use crate::rectangle::{Rectangle, empty_rect, envelope_of};
use crate::rtree::{RTree, answers};
use crate::utils::{calculate_level_indices, fits, level_size, level_start, levels_of};

verus! {

/// A rectangle as lanes `[x_min, y_min, -x_max, -y_max]`; all lanes at
/// `i128::MAX` for the empty rectangle.
#[derive(Clone, Copy, Debug)]
pub struct BBox(pub [i128; 4]);

pub const EMPTY_LANE: i128 = i128::MAX;

/// The lanes encode a rectangle: all at `EMPTY_LANE`, or the bounds of a
/// rectangle that holds a point.
pub open spec fn bbox_ok(b: BBox) -> bool {
    ||| (b.0[0] == EMPTY_LANE && b.0[1] == EMPTY_LANE && b.0[2] == EMPTY_LANE && b.0[3] == EMPTY_LANE)
    ||| {
        &&& i64::MIN <= b.0[0] <= i64::MAX
        &&& i64::MIN <= b.0[1] <= i64::MAX
        &&& i64::MIN <= -b.0[2] <= i64::MAX
        &&& i64::MIN <= -b.0[3] <= i64::MAX
        &&& b.0[0] <= -b.0[2]
        &&& b.0[1] <= -b.0[3]
    }
}

/// The rectangle that the lanes encode.
pub open spec fn bbox_view(b: BBox) -> Rectangle {
    if b.0[0] == EMPTY_LANE {
        empty_rect()
    } else {
        Rectangle {
            x_min: b.0[0] as i64,
            y_min: b.0[1] as i64,
            x_max: (-b.0[2]) as i64,
            y_max: (-b.0[3]) as i64,
        }
    }
}

/// `r`, with the canonical empty rectangle for any empty one.
pub open spec fn canon(r: Rectangle) -> Rectangle {
    if r.empty() {
        empty_rect()
    } else {
        r
    }
}

pub open spec fn bbox_views(s: Seq<BBox>) -> Seq<Rectangle> {
    s.map_values(|b: BBox| bbox_view(b))
}

/// The lanes of `b` are at most those of `q`.
pub open spec fn lanes_le_spec(b: BBox, q: BBox) -> bool {
    b.0[0] <= q.0[0] && b.0[1] <= q.0[1] && b.0[2] <= q.0[2] && b.0[3] <= q.0[3]
}

impl BBox {
    pub fn empty_bbox() -> (r: BBox)
        ensures
            bbox_ok(r),
            bbox_view(r) == empty_rect(),
    {
        BBox([EMPTY_LANE, EMPTY_LANE, EMPTY_LANE, EMPTY_LANE])
    }

    pub fn to_rectangle(&self) -> (r: Rectangle)
        requires
            bbox_ok(*self),
        ensures
            r == bbox_view(*self),
    {
        if self.0[0] == EMPTY_LANE {
            Rectangle::new_empty()
        } else {
            Rectangle {
                x_min: self.0[0] as i64,
                y_min: self.0[1] as i64,
                x_max: (-self.0[2]) as i64,
                y_max: (-self.0[3]) as i64,
            }
        }
    }

    /// The lanes of `rect`; those of the empty rectangle for any empty one.
    pub fn from_rect(rect: &Rectangle) -> (r: BBox)
        ensures
            bbox_ok(r),
            bbox_view(r) == canon(*rect),
    {
        if rect.is_empty() {
            BBox::empty_bbox()
        } else {
            BBox([rect.x_min as i128, rect.y_min as i128, -(rect.x_max as i128), -(rect.y_max as i128)])
        }
    }
}

/// The encoding of a query: `[x_max, y_max, -x_min, -y_min]`, or all lanes at
/// `i128::MIN` for an empty query, which no lane is below.
fn query_bbox(rect: &Rectangle) -> (r: BBox)
    ensures
        forall|b: BBox| bbox_ok(b) ==> (#[trigger] lanes_le_spec(b, r) <==> rect.meets(bbox_view(b))),
{
    if rect.is_empty() {
        BBox([i128::MIN, i128::MIN, i128::MIN, i128::MIN])
    } else {
        BBox([rect.x_max as i128, rect.y_max as i128, -(rect.x_min as i128), -(rect.y_min as i128)])
    }
}

/// Each lane of `b` is at most that of `q`: the four tests are counted
/// rather than chained, so that no lane waits on another.
fn lanes_le(b: &BBox, q: &BBox) -> (r: bool)
    ensures
        r == lanes_le_spec(*b, *q),
{
    ((b.0[0] <= q.0[0]) as u8) + ((b.0[1] <= q.0[1]) as u8) + ((b.0[2] <= q.0[2]) as u8) + ((b.0[3]
        <= q.0[3]) as u8) == 4
}

/// The lane-wise minimum: the envelope of both rectangles.
fn lanes_min(a: &BBox, b: &BBox) -> (r: BBox)
    requires
        bbox_ok(*a),
        bbox_ok(*b),
    ensures
        bbox_ok(r),
        bbox_view(r) == bbox_view(*a).union(bbox_view(*b)),
{
    BBox(
        [
            if a.0[0] <= b.0[0] { a.0[0] } else { b.0[0] },
            if a.0[1] <= b.0[1] { a.0[1] } else { b.0[1] },
            if a.0[2] <= b.0[2] { a.0[2] } else { b.0[2] },
            if a.0[3] <= b.0[3] { a.0[3] } else { b.0[3] },
        ],
    )
}

pub proof fn lemma_views_same_envelope(a: Seq<Rectangle>, b: Seq<Rectangle>)
    requires
        a.len() == b.len(),
        forall|i: int| 0 <= i < a.len() ==> (#[trigger] a[i]).same(b[i]),
    ensures
        envelope_of(a) == envelope_of(b),
    decreases a.len(),
{
    if a.len() > 0 {
        lemma_views_same_envelope(a.drop_last(), b.drop_last());
        lemma_union_same(envelope_of(a.drop_last()), envelope_of(b.drop_last()), a.last(), b.last());
    }
}

pub struct PackedRTreeAutoSimd {
    degree: usize,
    size: usize,
    level_indices: Vec<usize>,
    tree: Vec<BBox>,
    items: Ghost<Seq<Rectangle>>,
}

impl PackedRTreeAutoSimd {
    #[verifier::type_invariant]
    closed spec fn inv(&self) -> bool {
        &&& packed_wf(self.degree as int, self.size as int, self.level_indices@, bbox_views(self.tree@))
        &&& forall|i: int| 0 <= i < self.tree@.len() ==> bbox_ok(#[trigger] self.tree@[i])
        &&& self.items@.len() == self.size
        &&& forall|i: int| 0 <= i < self.size ==> (#[trigger] self.items@[i]).same(bbox_view(self.tree@[i]))
    }

    pub closed spec fn items_view(&self) -> Seq<Rectangle> {
        self.items@
    }

    pub closed spec fn degree_view(&self) -> nat {
        self.degree as nat
    }

    pub fn new_empty() -> (r: Self)
        ensures
            r.items_view().len() == 0,
            r.degree_view() == 2,
    {
        Self { degree: 2, size: 0, level_indices: Vec::new(), tree: Vec::new(), items: Ghost(Seq::empty()) }
    }

    /// Builds the tree over `rects`; a degree below 2 counts as 2.
    pub fn new(degree: usize, rects: &[Rectangle]) -> (r: Self)
        requires
            fits(clamp_degree(degree) as int, rects@.len() as int),
        ensures
            r.items_view() == rects@,
            r.degree_view() == if rects@.len() == 0 {
                2
            } else {
                clamp_degree(degree)
            },
    {
        if rects.len() == 0 {
            let r = Self::new_empty();
            proof {
                assert(r.items_view() =~= rects@);
            }
            return r;
        }
        let degree = if degree < 2 {
            2
        } else {
            degree
        };
        let size = rects.len();
        let level_indices = calculate_level_indices(degree, size);
        let ghost d = degree as int;
        let ghost n = size as int;
        let ghost li = level_indices@;
        let h = level_indices.len();
        proof {
            lemma_levels(d, n, li, 0);
            lemma_levels(d, n, li, h - 1);
            assert(li[0] == level_start(d, n, 0));
            lemma_start_mono(d, n, 0, (h - 1) as nat);
            assert(li[h - 1] == level_start(d, n, (h - 1) as nat));
            if h > 1 {
                lemma_start_mono(d, n, 1, (h - 1) as nat);
                assert(li[1] == level_start(d, n, 1));
                crate::utils::lemma_ceil_div_facts(n, d);
            }
        }
        let tree_size = level_indices[h - 1] + 1;
        let mut tree: Vec<BBox> = Vec::new();
        let mut i: usize = 0;
        while i < tree_size
            invariant
                tree@.len() == i,
                i <= tree_size,
                n <= tree_size,
                n == rects@.len(),
                size == n,
                forall|j: int| 0 <= j < i ==> bbox_ok(#[trigger] tree@[j]),
                forall|j: int| 0 <= j < i ==> bbox_view(#[trigger] tree@[j]) == (if j < n {
                    canon(rects@[j])
                } else {
                    empty_rect()
                }),
            decreases tree_size - i,
        {
            if i < size {
                tree.push(BBox::from_rect(&rects[i]));
            } else {
                tree.push(BBox::empty_bbox());
            }
            i += 1;
        }
        let mut level: usize = 1;
        while level < h
            invariant
                d == degree as int,
                n == size as int,
                d >= 2,
                n >= 1,
                fits(d, n),
                li == level_indices@,
                h == li.len(),
                levels_of(li, d, n),
                1 <= level <= h,
                tree_size == li[h - 1] + 1,
                tree@.len() == tree_size,
                n <= tree_size,
                n == rects@.len(),
                forall|j: int| 0 <= j < tree_size ==> bbox_ok(#[trigger] tree@[j]),
                forall|j: int| 0 <= j < n ==> bbox_view(#[trigger] tree@[j]) == canon(rects@[j]),
                forall|j: int| level < h && li[level as int] <= j < tree_size ==> bbox_view(#[trigger] tree@[j]) == empty_rect(),
                forall|k: int, o: int|
                    0 <= k < level && level_size(d, n, k as nat) <= o < slots(li, k) ==> #[trigger] bbox_views(tree@)[li[k] + o].empty(),
                forall|k: int, o: int|
                    1 <= k < level && 0 <= o < level_size(d, n, k as nat) ==> #[trigger] bbox_views(tree@)[li[k] + o]
                        == envelope_of(children(d, li, bbox_views(tree@), k, o)),
            decreases h - level,
        {
            proof {
                lemma_levels(d, n, li, level - 1);
                lemma_levels(d, n, li, level as int);
                lemma_start_mono(d, n, level as nat, (h - 1) as nat);
                assert(li[level as int] == level_start(d, n, level as nat));
                assert(li[h - 1] == level_start(d, n, (h - 1) as nat));
                if level + 1 < h {
                    lemma_start_mono(d, n, (level + 1) as nat, (h - 1) as nat);
                    assert(li[level + 1] == level_start(d, n, (level + 1) as nat));
                }
                vstd::arithmetic::div_mod::lemma_div_multiples_vanish(level_size(d, n, level as nat), d);
            }
            let prev = level_indices[level - 1];
            let level_index = level_indices[level];
            let groups = (level_index - prev) / degree;
            let ghost t1 = tree@;
            let mut g: usize = 0;
            while g < groups
                invariant
                    d == degree as int,
                    n == size as int,
                    d >= 2,
                    n >= 1,
                    li == level_indices@,
                    h == li.len(),
                    levels_of(li, d, n),
                    1 <= level < h,
                    prev == li[level - 1],
                    level_index == li[level as int],
                    groups == level_size(d, n, level as nat),
                    prev + d * groups == level_index,
                    level_index + groups <= tree_size,
                    g <= groups,
                    tree@.len() == tree_size,
                    t1.len() == tree_size,
                    forall|j: int| 0 <= j < tree_size ==> bbox_ok(#[trigger] tree@[j]),
                    forall|j: int| 0 <= j < tree_size && !(level_index <= j < level_index + g) ==> #[trigger] tree@[j] == t1[j],
                    forall|o: int| 0 <= o < g ==> bbox_view(#[trigger] tree@[level_index + o]) == envelope_of(children(d, li, bbox_views(t1), level as int, o)),
                decreases groups - g,
            {
                proof {
                    assert(d * g + d <= d * groups) by (nonlinear_arith)
                        requires
                            g < groups,
                            d >= 2,
                    ;
                    assert(g * degree == d * g) by (nonlinear_arith)
                        requires
                            d == degree,
                    ;
                }
                let start = prev + g * degree;
                let ghost ch = children(d, li, bbox_views(t1), level as int, g as int);
                let mut out = BBox::empty_bbox();
                let mut j: usize = 0;
                while j < degree
                    invariant
                        d == degree as int,
                        start + d <= level_index,
                        level_index <= tree_size,
                        tree@.len() == tree_size,
                        t1.len() == tree_size,
                        ch == bbox_views(t1).subrange(start as int, start + d),
                        forall|x: int| 0 <= x < tree_size ==> bbox_ok(#[trigger] tree@[x]),
                        forall|x: int| 0 <= x < level_index ==> #[trigger] tree@[x] == t1[x],
                        j <= d,
                        bbox_ok(out),
                        bbox_view(out) == envelope_of(ch.take(j as int)),
                    decreases degree - j,
                {
                    proof {
                        assert(ch.take(j + 1).drop_last() =~= ch.take(j as int));
                        assert(ch[j as int] == bbox_view(tree@[start + j]));
                    }
                    out = lanes_min(&out, &tree[start + j]);
                    j += 1;
                }
                proof {
                    assert(ch.take(d) =~= ch);
                }
                let ghost t2 = tree@;
                tree.set(level_index + g, out);
                g += 1;
            }
            proof {
                let t3 = tree@;
                let v1 = bbox_views(t1);
                let v3 = bbox_views(t3);
                assert forall|k: int, o: int|
                    0 <= k < level + 1 && level_size(d, n, k as nat) <= o < slots(li, k) implies #[trigger] v3[li[k] + o].empty() by {
                    lemma_levels(d, n, li, k);
                    if k < level {
                        lemma_start_mono(d, n, (k + 1) as nat, level as nat);
                        assert(li[k + 1] == level_start(d, n, (k + 1) as nat));
                        assert(t3[li[k] + o] == t1[li[k] + o]);
                        assert(v1[li[k] + o].empty());
                    } else {
                        assert(t3[li[k] + o] == t1[li[k] + o]);
                    }
                }
                assert forall|k: int, o: int|
                    1 <= k < level + 1 && 0 <= o < level_size(d, n, k as nat) implies #[trigger] v3[li[k] + o]
                        == envelope_of(children(d, li, v3, k, o)) by {
                    lemma_levels(d, n, li, k);
                    lemma_levels(d, n, li, k - 1);
                    assert(d * o + d <= d * level_size(d, n, k as nat)) by (nonlinear_arith)
                        requires
                            o < level_size(d, n, k as nat),
                            d >= 2,
                    ;
                    lemma_start_mono(d, n, k as nat, level as nat);
                    assert(li[k] == level_start(d, n, k as nat));
                    if k < level {
                        lemma_start_mono(d, n, (k + 1) as nat, level as nat);
                        assert(li[k + 1] == level_start(d, n, (k + 1) as nat));
                        assert(t3[li[k] + o] == t1[li[k] + o]);
                        assert(v1[li[k] + o] == envelope_of(children(d, li, v1, k, o)));
                    } else {
                        assert(bbox_view(t3[level_index + o]) == envelope_of(children(d, li, v1, level as int, o)));
                    }
                    assert(children(d, li, v3, k, o) =~= children(d, li, v1, k, o));
                }
                assert forall|j: int| level + 1 < h && li[level + 1] <= j < tree_size implies bbox_view(#[trigger] t3[j]) == empty_rect() by {
                    assert(t3[j] == t1[j]);
                }
                assert forall|j: int| 0 <= j < n implies bbox_view(#[trigger] t3[j]) == canon(rects@[j]) by {
                    lemma_start_mono(d, n, 1, level as nat);
                    assert(li[1] == level_start(d, n, 1));
                    assert(level_start(d, n, 1) == level_start(d, n, 0) + d * level_size(d, n, 1));
                    assert(level_size(d, n, 1) == crate::utils::ceil_div(level_size(d, n, 0), d));
                    crate::utils::lemma_ceil_div_facts(n, d);
                    assert(j < level_index);
                    assert(t3[j] == t1[j]);
                }
            }
            level += 1;
        }
        proof {
            let v = bbox_views(tree@);
            assert forall|k: int, o: int|
                0 <= k < h && level_size(d, n, k as nat) <= o < slots(li, k) implies #[trigger] v[li[k] + o].empty() by {
                if k == h - 1 {
                    lemma_levels(d, n, li, k);
                }
            }
        }
        Self { degree, size, level_indices, tree, items: Ghost(rects@) }
    }
}

impl PackedRTreeAutoSimd {
    /// The leaf slots that meet `query`, found by descending from the root.
    #[verifier::rlimit(40)]
    fn query_leaves(&self, query: &Rectangle) -> (r: Vec<usize>)
        ensures
            r@.no_duplicates(),
            forall|i: usize| r@.contains(i) <==> (i < self.size && query.meets(bbox_views(self.tree@)[i as int])),
    {
        proof {
            use_type_invariant(self);
            lemma_leaves_first(self.degree as int, self.size as int, self.level_indices@, bbox_views(self.tree@));
        }
        let ghost d = self.degree as int;
        let ghost n = self.size as int;
        let ghost li = self.level_indices@;
        let ghost t = bbox_views(self.tree@);
        let mut results: Vec<usize> = Vec::new();
        if self.size == 0 {
            return results;
        }
        let mut stack: Vec<(usize, usize)> = Vec::new();
        let h = self.level_indices.len();
        proof {
            lemma_levels(d, n, li, h - 1);
            lemma_level_size_bounds(d, n, (h - 1) as nat);
            lemma_pw_pos(d, (h - 1) as nat);
        }
        let qb = query_bbox(query);
        if lanes_le(&self.tree[self.level_indices[h - 1]], &qb) {
            stack.push((h - 1, 0));
        } else {
            proof {
                assert forall|i: usize| !(#[trigger] results@.contains(i)) && !(i < self.size && query.meets(t[i as int])) by {
                    if i < self.size && query.meets(t[i as int]) {
                        assert(pw(d, (h - 1) as nat) * 0 == 0);
                        lemma_node_covers_leaf(d, n, li, t, h - 1, 0, i as int);
                        lemma_meets_up(*query, t[li[h - 1] + 0], t[i as int]);
                    }
                }
            }
            return results;
        }
        proof {
            assert forall|i: int| 0 <= i < n && query.meets(#[trigger] t[i]) implies results@.contains(i as usize) || exists|s: int|
                0 <= s < stack@.len() && #[trigger] in_entry(d, stack@[s], i) by {
                assert(pw(d, (h - 1) as nat) * 0 == 0);
                assert(in_entry(d, stack@[0], i));
            }
        }
        while stack.len() > 0
            invariant
                d == self.degree as int,
                n == self.size as int,
                li == self.level_indices@,
                t == bbox_views(self.tree@),
                forall|b: BBox| bbox_ok(b) ==> (#[trigger] lanes_le_spec(b, qb) <==> query.meets(bbox_view(b))),
                forall|x: int| 0 <= x < self.tree@.len() ==> bbox_ok(#[trigger] self.tree@[x]),
                packed_wf(d, n, li, t),
                n >= 1,
                n <= t.len(),
                forall|s: int|
                    0 <= s < stack@.len() ==> {
                        &&& (#[trigger] stack@[s]).0 < li.len()
                        &&& stack@[s].1 < level_size(d, n, stack@[s].0 as nat)
                        &&& query.meets(t[li[stack@[s].0 as int] + stack@[s].1])
                    },
                forall|a: int| 0 <= a < results@.len() ==> #[trigger] results@[a] < n && query.meets(t[results@[a] as int]),
                results@.no_duplicates(),
                forall|i: int|
                    0 <= i < n && query.meets(#[trigger] t[i]) ==> results@.contains(i as usize) || exists|s: int|
                        0 <= s < stack@.len() && #[trigger] in_entry(d, stack@[s], i),
                forall|a: int, s: int|
                    0 <= a < results@.len() && 0 <= s < stack@.len() ==> !in_entry(d, #[trigger] stack@[s], #[trigger] results@[a] as int),
                forall|s1: int, s2: int|
                    0 <= s1 < s2 < stack@.len() ==> hi_of(d, #[trigger] stack@[s1]) <= lo_of(d, stack@[s2])
                        || hi_of(d, #[trigger] stack@[s2]) <= lo_of(d, stack@[s1]),
            decreases stack_weight(d, stack@),
        {
            let ghost st0 = stack@;
            let (level, offset) = stack.pop().unwrap();
            proof {
                assert(st0.drop_last() =~= stack@);
                assert(st0[st0.len() - 1] == (level, offset));
                lemma_stack_weight_nonneg(d, stack@);
            }
            if level == 0 {
                proof {
                    assert(li[0] == level_start(d, n, 0));
                    assert(pw(d, 0) == 1);
                    assert(lo_of(d, (level, offset)) == offset);
                    assert(hi_of(d, (level, offset)) == offset + 1);
                    assert(in_entry(d, st0[st0.len() - 1], offset as int));
                }
                let ghost r0 = results@;
                results.push(offset);
                proof {
                    assert forall|a: int| 0 <= a < r0.len() implies r0[a] != offset by {
                        assert(!in_entry(d, st0[st0.len() - 1], r0[a] as int));
                    }
                    assert forall|a: int| 0 <= a < results@.len() implies #[trigger] results@[a] < n && query.meets(t[results@[a] as int]) by {
                        if a < r0.len() {
                            assert(results@[a] == r0[a]);
                        }
                    }
                    assert forall|i: int|
                        0 <= i < n && query.meets(#[trigger] t[i]) implies results@.contains(i as usize) || exists|s: int|
                            0 <= s < stack@.len() && #[trigger] in_entry(d, stack@[s], i) by {
                        if !r0.contains(i as usize) {
                            let s = choose|s: int| 0 <= s < st0.len() && #[trigger] in_entry(d, st0[s], i);
                            if s == st0.len() - 1 {
                                assert(i == offset);
                                assert(results@[r0.len() as int] == offset);
                            } else {
                                assert(in_entry(d, stack@[s], i));
                            }
                        } else {
                            let a = choose|a: int| 0 <= a < r0.len() && r0[a] == i as usize;
                            assert(results@[a] == i as usize);
                        }
                    }
                    assert forall|a: int, s: int|
                        0 <= a < results@.len() && 0 <= s < stack@.len() implies !in_entry(d, #[trigger] stack@[s], #[trigger] results@[a] as int) by {
                        assert(st0[s] == stack@[s]);
                        if a < r0.len() {
                            assert(results@[a] == r0[a]);
                        } else {
                            assert(hi_of(d, st0[s]) <= lo_of(d, st0[st0.len() - 1]) || hi_of(d, st0[st0.len() - 1]) <= lo_of(d, st0[s]));
                        }
                    }
                    assert forall|s1: int, s2: int|
                        0 <= s1 < s2 < stack@.len() implies hi_of(d, #[trigger] stack@[s1]) <= lo_of(d, stack@[s2])
                            || hi_of(d, #[trigger] stack@[s2]) <= lo_of(d, stack@[s1]) by {
                        assert(st0[s1] == stack@[s1] && st0[s2] == stack@[s2]);
                    }
                    assert(stack_weight(d, st0) == stack_weight(d, stack@) + weight(d, 0));
                }
            } else {
                let child_level = level - 1;
                let ghost ck = child_level as nat;
                let ghost p = pw(d, ck);
                let ghost w = weight(d, ck);
                proof {
                    lemma_levels(d, n, li, level as int);
                    lemma_levels(d, n, li, child_level as int);
                    lemma_pw_pos(d, level as nat);
                    lemma_pw_pos(d, ck);
                    lemma_weight_pos(d, ck);
                    lemma_start_mono(d, n, level as nat, (li.len() - 1) as nat);
                    assert(li[level as int] == level_start(d, n, level as nat));
                    assert(li[li.len() - 1] == level_start(d, n, (li.len() - 1) as nat));
                    assert(d * offset + d <= d * level_size(d, n, level as nat)) by (nonlinear_arith)
                        requires
                            offset < level_size(d, n, level as nat),
                            d >= 2,
                    ;
                    lemma_child_range(d, level as nat, offset as int, 0);
                    assert(stack_weight(d, st0) == stack_weight(d, stack@) + d * w + 1);
                    assert((d - 0) * w == d * w);
                    assert forall|s: int| 0 <= s < stack@.len() implies hi_of(d, #[trigger] stack@[s]) <= p * (d * offset + 0)
                            || p * (d * offset + d) <= lo_of(d, stack@[s]) by {
                        assert(st0[s] == stack@[s]);
                        assert(hi_of(d, st0[s]) <= lo_of(d, st0[st0.len() - 1]) || hi_of(d, st0[st0.len() - 1]) <= lo_of(d, st0[s]));
                    }
                    assert forall|a: int| 0 <= a < results@.len() implies !(p * (d * offset + 0) <= #[trigger] results@[a] < p * (d * offset + d)) by {
                        assert(!in_entry(d, st0[st0.len() - 1], results@[a] as int));
                    }
                    assert forall|i: int|
                        0 <= i < n && query.meets(#[trigger] t[i]) implies results@.contains(i as usize) || (exists|s: int|
                            0 <= s < stack@.len() && #[trigger] in_entry(d, stack@[s], i)) || (p * (d * offset + 0) <= i < p * (d * offset + d)) by {
                        if !results@.contains(i as usize) {
                            let s = choose|s: int| 0 <= s < st0.len() && #[trigger] in_entry(d, st0[s], i);
                            if s < st0.len() - 1 {
                                assert(in_entry(d, stack@[s], i));
                            }
                        }
                    }
                    assert forall|a: int, s: int|
                        0 <= a < results@.len() && 0 <= s < stack@.len() implies !in_entry(d, #[trigger] stack@[s], #[trigger] results@[a] as int) by {
                        assert(st0[s] == stack@[s]);
                    }
                    assert forall|s1: int, s2: int|
                        0 <= s1 < s2 < stack@.len() implies hi_of(d, #[trigger] stack@[s1]) <= lo_of(d, stack@[s2])
                            || hi_of(d, #[trigger] stack@[s2]) <= lo_of(d, stack@[s1]) by {
                        assert(st0[s1] == stack@[s1] && st0[s2] == stack@[s2]);
                    }
                }
                let first_child_offset = self.degree * offset;
                let first_child_index = self.level_indices[child_level] + first_child_offset;
                let mut inc: usize = 0;
                while inc < self.degree
                    invariant
                        d == self.degree as int,
                        n == self.size as int,
                        li == self.level_indices@,
                        t == bbox_views(self.tree@),
                        forall|b: BBox| bbox_ok(b) ==> (#[trigger] lanes_le_spec(b, qb) <==> query.meets(bbox_view(b))),
                        forall|x: int| 0 <= x < self.tree@.len() ==> bbox_ok(#[trigger] self.tree@[x]),
                forall|b: BBox| bbox_ok(b) ==> (#[trigger] lanes_le_spec(b, qb) <==> query.meets(bbox_view(b))),
                forall|x: int| 0 <= x < self.tree@.len() ==> bbox_ok(#[trigger] self.tree@[x]),
                        packed_wf(d, n, li, t),
                        n >= 1,
                        n <= t.len(),
                        1 <= level < li.len(),
                        child_level == level - 1,
                        ck == child_level as nat,
                        p == pw(d, ck),
                        p >= 1,
                        w == weight(d, ck),
                        w >= 1,
                        offset < level_size(d, n, level as nat),
                        first_child_offset == d * offset,
                        first_child_index == li[child_level as int] + first_child_offset,
                        first_child_offset + d <= slots(li, child_level as int),
                        li[child_level as int] + slots(li, child_level as int) <= li[li.len() - 1],
                        inc <= d,
                        forall|s: int|
                            0 <= s < stack@.len() ==> {
                                &&& (#[trigger] stack@[s]).0 < li.len()
                                &&& stack@[s].1 < level_size(d, n, stack@[s].0 as nat)
                                &&& query.meets(t[li[stack@[s].0 as int] + stack@[s].1])
                            },
                        forall|a: int| 0 <= a < results@.len() ==> #[trigger] results@[a] < n && query.meets(t[results@[a] as int]),
                        results@.no_duplicates(),
                        forall|i: int|
                            0 <= i < n && query.meets(#[trigger] t[i]) ==> results@.contains(i as usize) || (exists|s: int|
                                0 <= s < stack@.len() && #[trigger] in_entry(d, stack@[s], i)) || (p * (d * offset + inc) <= i < p * (d * offset + d)),
                        forall|a: int, s: int|
                            0 <= a < results@.len() && 0 <= s < stack@.len() ==> !in_entry(d, #[trigger] stack@[s], #[trigger] results@[a] as int),
                        forall|a: int|
                            0 <= a < results@.len() ==> !(p * (d * offset + inc) <= #[trigger] results@[a] < p * (d * offset + d)),
                        forall|s1: int, s2: int|
                            0 <= s1 < s2 < stack@.len() ==> hi_of(d, #[trigger] stack@[s1]) <= lo_of(d, stack@[s2])
                                || hi_of(d, #[trigger] stack@[s2]) <= lo_of(d, stack@[s1]),
                        forall|s: int|
                            0 <= s < stack@.len() ==> hi_of(d, #[trigger] stack@[s]) <= p * (d * offset + inc)
                                || p * (d * offset + d) <= lo_of(d, stack@[s]),
                        stack_weight(d, stack@) + (d - inc) * w + 1 <= stack_weight(d, st0),
                    decreases d - inc,
                {
                    let child_offset = first_child_offset + inc;
                    let child = self.tree[first_child_index + inc];
                    let ghost child_rect = bbox_view(child);
                    let ghost c = child_offset as int;
                    let ghost v_lo = p * (d * offset + inc);
                    let ghost v_next = p * (d * offset + inc + 1);
                    let ghost v_hi = p * (d * offset + d);
                    proof {
                        lemma_child_range(d, level as nat, offset as int, inc as int);
                        assert(lo_of(d, (child_level, child_offset)) == v_lo);
                        assert(hi_of(d, (child_level, child_offset)) == v_next);
                        assert(child_rect == t[li[child_level as int] + c]);
                        assert((d - inc) * w == (d - (inc + 1)) * w + w) by (nonlinear_arith);
                        assert(v_next <= v_hi);
                    }
                    if lanes_le(&child, &qb) {
                        proof {
                            assert(child_offset < level_size(d, n, ck)) by {
                                if child_offset >= level_size(d, n, ck) {
                                    assert(t[li[child_level as int] + c].empty());
                                }
                            }
                        }
                            let ghost s0 = stack@;
                            stack.push((child_level, child_offset));
                            proof {
                                lemma_stack_weight_push(d, s0, (child_level, child_offset));
                                let last = s0.len() as int;
                                assert(stack@[last] == (child_level, child_offset));
                                assert forall|s: int| 0 <= s < stack@.len() implies {
                                    &&& (#[trigger] stack@[s]).0 < li.len()
                                    &&& stack@[s].1 < level_size(d, n, stack@[s].0 as nat)
                                    &&& query.meets(t[li[stack@[s].0 as int] + stack@[s].1])
                                } by {
                                    if s < last {
                                        assert(stack@[s] == s0[s]);
                                    }
                                }
                                assert forall|i: int|
                                    0 <= i < n && query.meets(#[trigger] t[i]) implies results@.contains(i as usize) || (exists|s: int|
                                        0 <= s < stack@.len() && #[trigger] in_entry(d, stack@[s], i)) || (v_next <= i < v_hi) by {
                                    if !results@.contains(i as usize) && !(v_next <= i < v_hi) {
                                        if v_lo <= i < v_next {
                                            assert(in_entry(d, stack@[last], i));
                                        } else {
                                            let s = choose|s: int| 0 <= s < s0.len() && #[trigger] in_entry(d, s0[s], i);
                                            assert(stack@[s] == s0[s]);
                                            assert(in_entry(d, stack@[s], i));
                                        }
                                    }
                                }
                                assert forall|a: int, s: int|
                                    0 <= a < results@.len() && 0 <= s < stack@.len() implies !in_entry(d, #[trigger] stack@[s], #[trigger] results@[a] as int) by {
                                    if s < last {
                                        assert(stack@[s] == s0[s]);
                                    }
                                }
                                assert forall|s1: int, s2: int|
                                    0 <= s1 < s2 < stack@.len() implies hi_of(d, #[trigger] stack@[s1]) <= lo_of(d, stack@[s2])
                                        || hi_of(d, #[trigger] stack@[s2]) <= lo_of(d, stack@[s1]) by {
                                    assert(stack@[s1] == s0[s1]);
                                    if s2 < last {
                                        assert(stack@[s2] == s0[s2]);
                                    }
                                }
                                assert forall|s: int|
                                    0 <= s < stack@.len() implies hi_of(d, #[trigger] stack@[s]) <= v_next
                                        || v_hi <= lo_of(d, stack@[s]) by {
                                    if s < last {
                                        assert(stack@[s] == s0[s]);
                                    }
                                }
                            }
                    } else {
                        proof {
                            assert forall|i: int|
                                0 <= i < n && query.meets(#[trigger] t[i]) implies results@.contains(i as usize) || (exists|s: int|
                                    0 <= s < stack@.len() && #[trigger] in_entry(d, stack@[s], i)) || (v_next <= i < v_hi) by {
                                if v_lo <= i < v_next {
                                    lemma_node_covers_leaf(d, n, li, t, child_level as int, c, i);
                                    lemma_meets_up(*query, child_rect, t[i]);
                                }
                            }
                        }
                    }
                    inc += 1;
                }
                proof {
                    assert((d - inc) * w == 0) by (nonlinear_arith)
                        requires
                            inc == d,
                    ;
                }
            }
            proof {
                lemma_stack_weight_nonneg(d, stack@);
                assert(stack_weight(d, stack@) < stack_weight(d, st0));
            }
        }
        proof {
            assert forall|i: usize| #[trigger] results@.contains(i) <==> (i < self.size && query.meets(t[i as int])) by {
                if results@.contains(i) {
                    let a = choose|a: int| 0 <= a < results@.len() && results@[a] == i;
                }
            }
        }
        results
    }
}

impl PackedRTreeAutoSimd {
    /// The lanes of leaf `i`: those of item `i`, or of the empty rectangle
    /// when the item is empty.
    pub fn leaf_bbox(&self, i: usize) -> (r: BBox)
        requires
            i < self.items_view().len(),
        ensures
            bbox_ok(r),
            bbox_view(r) == canon(self.items_view()[i as int]),
    {
        proof {
            use_type_invariant(self);
            lemma_leaves_first(self.degree as int, self.size as int, self.level_indices@, bbox_views(self.tree@));
            assert(self.items@[i as int].same(bbox_view(self.tree@[i as int])));
            assert(bbox_views(self.tree@)[i as int] == bbox_view(self.tree@[i as int]));
        }
        self.tree[i]
    }
}

impl RTree for PackedRTreeAutoSimd {
    open spec fn items(&self) -> Seq<Rectangle> {
        self.items_view()
    }

    open spec fn degree_spec(&self) -> nat {
        self.degree_view()
    }

    open spec fn slot_count(&self) -> nat {
        self.items_view().len()
    }

    fn is_empty(&self) -> (r: bool) {
        proof {
            use_type_invariant(self);
        }
        self.size == 0
    }

    fn height(&self) -> (r: usize) {
        proof {
            use_type_invariant(self);
        }
        self.level_indices.len()
    }

    fn degree(&self) -> (r: usize) {
        proof {
            use_type_invariant(self);
        }
        self.degree
    }

    fn envelope(&self) -> (r: Rectangle) {
        proof {
            use_type_invariant(self);
            lemma_leaves_first(self.degree as int, self.size as int, self.level_indices@, bbox_views(self.tree@));
        }
        if self.size == 0 {
            Rectangle::new_empty()
        } else {
            let ghost v = bbox_views(self.tree@);
            proof {
                lemma_root_envelope(self.degree as int, self.size as int, self.level_indices@, v);
                assert forall|i: int| 0 <= i < self.size implies (#[trigger] v.take(self.size as int)[i]).same(self.items@[i]) by {
                    assert(self.items@[i].same(bbox_view(self.tree@[i])));
                }
                lemma_views_same_envelope(v.take(self.size as int), self.items@);
            }
            self.tree[self.level_indices[self.level_indices.len() - 1]].to_rectangle()
        }
    }

    fn query_rect(&self, rect: &Rectangle) -> (r: Vec<usize>) {
        proof {
            use_type_invariant(self);
        }
        let r = self.query_leaves(rect);
        proof {
            lemma_leaves_first(self.degree as int, self.size as int, self.level_indices@, bbox_views(self.tree@));
            assert forall|i: usize| #[trigger] r@.contains(i) <==> (i < self.items@.len() && rect.meets(self.items@[i as int])) by {
                if i < self.size {
                    assert(self.items@[i as int].same(bbox_view(self.tree@[i as int])));
                    assert(bbox_views(self.tree@)[i as int] == bbox_view(self.tree@[i as int]));
                }
            }
        }
        r
    }
}

impl PackedRTreeAutoSimd {
    /// The items that hold `coord`.
    pub fn query_point(&self, coord: Coordinate) -> (r: Vec<usize>)
        ensures
            answers(self.items(), Rectangle { x_min: coord.x, y_min: coord.y, x_max: coord.x, y_max: coord.y }, r@),
    {
        self.query_rect(&Rectangle::new(coord, coord))
    }
}

} // verus!
