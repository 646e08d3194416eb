use vstd::prelude::*;

use crate::coordinate::Coordinate;

verus! {

/// An axis-aligned rectangle with integer bounds.
///
/// A rectangle whose minimum exceeds its maximum on either axis is empty: it
/// holds no point, never intersects anything and is neutral for `merge`.
#[derive(Clone, Copy, Debug)]
pub struct Rectangle {
    pub x_min: i64,
    pub y_min: i64,
    pub x_max: i64,
    pub y_max: i64,
}

/// The canonical empty rectangle.
pub open spec fn empty_rect() -> Rectangle {
    Rectangle { x_min: i64::MAX, y_min: i64::MAX, x_max: i64::MIN, y_max: i64::MIN }
}

pub open spec fn min_i64(a: i64, b: i64) -> i64 {
    if a <= b { a } else { b }
}

pub open spec fn max_i64(a: i64, b: i64) -> i64 {
    if a >= b { a } else { b }
}

impl Rectangle {
    pub open spec fn empty(self) -> bool {
        self.x_min > self.x_max || self.y_min > self.y_max
    }

    /// Both rectangles hold a point and share one.
    pub open spec fn meets(self, other: Rectangle) -> bool {
        &&& !self.empty()
        &&& !other.empty()
        &&& self.x_min <= other.x_max
        &&& self.x_max >= other.x_min
        &&& self.y_min <= other.y_max
        &&& self.y_max >= other.y_min
    }

    /// Both rectangles hold a point and every point of `other` lies in `self`.
    pub open spec fn holds(self, other: Rectangle) -> bool {
        &&& !self.empty()
        &&& !other.empty()
        &&& self.x_min <= other.x_min
        &&& self.x_max >= other.x_max
        &&& self.y_min <= other.y_min
        &&& self.y_max >= other.y_max
    }

    /// Every point of `other` lies in `self` (vacuous when `other` is empty).
    pub open spec fn covers(self, other: Rectangle) -> bool {
        other.empty() || self.holds(other)
    }

    /// The smallest rectangle covering both; the canonical empty one when both are empty.
    pub open spec fn union(self, other: Rectangle) -> Rectangle {
        if self.empty() {
            if other.empty() {
                empty_rect()
            } else {
                other
            }
        } else if other.empty() {
            self
        } else {
            Rectangle {
                x_min: min_i64(self.x_min, other.x_min),
                y_min: min_i64(self.y_min, other.y_min),
                x_max: max_i64(self.x_max, other.x_max),
                y_max: max_i64(self.y_max, other.y_max),
            }
        }
    }

    /// Equality up to emptiness: all empty rectangles are equal.
    pub open spec fn same(self, other: Rectangle) -> bool {
        if self.empty() {
            other.empty()
        } else {
            self == other
        }
    }
}

/// The midpoint of `r`, rounded down on each axis.
pub open spec fn center_of(r: Rectangle) -> Coordinate {
    Coordinate {
        x: ((r.x_min as int + r.x_max as int) / 2) as i64,
        y: ((r.y_min as int + r.y_max as int) / 2) as i64,
    }
}

/// The envelope of a sequence of rectangles, folded from the left.
pub open spec fn envelope_of(s: Seq<Rectangle>) -> Rectangle
    decreases s.len(),
{
    if s.len() == 0 {
        empty_rect()
    } else {
        envelope_of(s.drop_last()).union(s.last())
    }
}

/// `e` is the envelope of the rectangles of `s`: it covers each of them, is
/// empty only when all of them are, and each of its bounds is a bound of one
/// of them.
pub open spec fn bounds_of(e: Rectangle, s: Seq<Rectangle>) -> bool {
    &&& forall|j: int| 0 <= j < s.len() ==> e.covers(#[trigger] s[j])
    &&& e.empty() <==> forall|j: int| 0 <= j < s.len() ==> #[trigger] s[j].empty()
    &&& !e.empty() ==> exists|j: int| 0 <= j < s.len() && !s[j].empty() && #[trigger] s[j].x_min == e.x_min
    &&& !e.empty() ==> exists|j: int| 0 <= j < s.len() && !s[j].empty() && #[trigger] s[j].y_min == e.y_min
    &&& !e.empty() ==> exists|j: int| 0 <= j < s.len() && !s[j].empty() && #[trigger] s[j].x_max == e.x_max
    &&& !e.empty() ==> exists|j: int| 0 <= j < s.len() && !s[j].empty() && #[trigger] s[j].y_max == e.y_max
}

pub proof fn lemma_envelope_bounds(s: Seq<Rectangle>)
    ensures
        bounds_of(envelope_of(s), s),
    decreases s.len(),
{
    if s.len() > 0 {
        let t = s.drop_last();
        lemma_envelope_bounds(t);
        let e = envelope_of(t);
        let x = s.last();
        assert forall|j: int| 0 <= j < t.len() implies #[trigger] s[j] == t[j] by {}
        if !e.empty() {
            let j1 = choose|j: int| 0 <= j < t.len() && !t[j].empty() && #[trigger] t[j].x_min == e.x_min;
            let j2 = choose|j: int| 0 <= j < t.len() && !t[j].empty() && #[trigger] t[j].y_min == e.y_min;
            let j3 = choose|j: int| 0 <= j < t.len() && !t[j].empty() && #[trigger] t[j].x_max == e.x_max;
            let j4 = choose|j: int| 0 <= j < t.len() && !t[j].empty() && #[trigger] t[j].y_max == e.y_max;
            assert(s[j1] == t[j1] && s[j2] == t[j2] && s[j3] == t[j3] && s[j4] == t[j4]);
        }
        assert(s[s.len() - 1] == x);
        assert forall|j: int| 0 <= j < s.len() implies envelope_of(s).covers(#[trigger] s[j]) by {
            if j < s.len() - 1 {
                assert(e.covers(t[j]));
            }
        }
    }
}

/// Two sequences with the same rectangles that hold a point have the same envelope.
pub proof fn lemma_bounds_unique(e1: Rectangle, s1: Seq<Rectangle>, e2: Rectangle, s2: Seq<Rectangle>)
    requires
        bounds_of(e1, s1),
        bounds_of(e2, s2),
        forall|j: int| 0 <= j < s1.len() && !s1[j].empty() ==> exists|k: int| 0 <= k < s2.len() && #[trigger] s2[k] == #[trigger] s1[j],
        forall|k: int| 0 <= k < s2.len() && !s2[k].empty() ==> exists|j: int| 0 <= j < s1.len() && #[trigger] s2[k] == #[trigger] s1[j],
    ensures
        e1.same(e2),
{
    if e1.empty() {
        assert forall|k: int| 0 <= k < s2.len() implies #[trigger] s2[k].empty() by {
            if !s2[k].empty() {
                let j = choose|j: int| 0 <= j < s1.len() && s2[k] == s1[j];
                assert(s1[j].empty());
            }
        }
    } else if e2.empty() {
        assert forall|j: int| 0 <= j < s1.len() implies #[trigger] s1[j].empty() by {
            if !s1[j].empty() {
                let k = choose|k: int| 0 <= k < s2.len() && s2[k] == s1[j];
                assert(s2[k].empty());
            }
        }
    } else {
        let a1 = choose|j: int| 0 <= j < s1.len() && !s1[j].empty() && #[trigger] s1[j].x_min == e1.x_min;
        let b1 = choose|k: int| 0 <= k < s2.len() && s2[k] == s1[a1];
        let a2 = choose|k: int| 0 <= k < s2.len() && !s2[k].empty() && #[trigger] s2[k].x_min == e2.x_min;
        let b2 = choose|j: int| 0 <= j < s1.len() && s2[a2] == s1[j];
        assert(e2.covers(s2[b1]) && e1.covers(s1[b2]));
        let c1 = choose|j: int| 0 <= j < s1.len() && !s1[j].empty() && #[trigger] s1[j].y_min == e1.y_min;
        let d1 = choose|k: int| 0 <= k < s2.len() && s2[k] == s1[c1];
        let c2 = choose|k: int| 0 <= k < s2.len() && !s2[k].empty() && #[trigger] s2[k].y_min == e2.y_min;
        let d2 = choose|j: int| 0 <= j < s1.len() && s2[c2] == s1[j];
        assert(e2.covers(s2[d1]) && e1.covers(s1[d2]));
        let f1 = choose|j: int| 0 <= j < s1.len() && !s1[j].empty() && #[trigger] s1[j].x_max == e1.x_max;
        let g1 = choose|k: int| 0 <= k < s2.len() && s2[k] == s1[f1];
        let f2 = choose|k: int| 0 <= k < s2.len() && !s2[k].empty() && #[trigger] s2[k].x_max == e2.x_max;
        let g2 = choose|j: int| 0 <= j < s1.len() && s2[f2] == s1[j];
        assert(e2.covers(s2[g1]) && e1.covers(s1[g2]));
        let h1 = choose|j: int| 0 <= j < s1.len() && !s1[j].empty() && #[trigger] s1[j].y_max == e1.y_max;
        let i1 = choose|k: int| 0 <= k < s2.len() && s2[k] == s1[h1];
        let h2 = choose|k: int| 0 <= k < s2.len() && !s2[k].empty() && #[trigger] s2[k].y_max == e2.y_max;
        let i2 = choose|j: int| 0 <= j < s1.len() && s2[h2] == s1[j];
        assert(e2.covers(s2[i1]) && e1.covers(s1[i2]));
    }
}

/// The bounding rectangles of the items.
pub open spec fn envelopes<T: HasEnvelope>(items: Seq<T>) -> Seq<Rectangle> {
    items.map_values(|t: T| t.envelope_spec())
}

/// Something that has a bounding rectangle.
pub trait HasEnvelope {
    spec fn envelope_spec(&self) -> Rectangle;

    fn envelope(&self) -> (r: Rectangle)
        ensures
            r == self.envelope_spec(),
    ;
}

impl HasEnvelope for Coordinate {
    open spec fn envelope_spec(&self) -> Rectangle {
        Rectangle { x_min: self.x, y_min: self.y, x_max: self.x, y_max: self.y }
    }

    fn envelope(&self) -> (r: Rectangle) {
        Rectangle { x_min: self.x, y_min: self.y, x_max: self.x, y_max: self.y }
    }
}

impl HasEnvelope for Rectangle {
    open spec fn envelope_spec(&self) -> Rectangle {
        *self
    }

    fn envelope(&self) -> (r: Rectangle) {
        *self
    }
}

impl PartialEq for Rectangle {
    fn eq(&self, other: &Rectangle) -> (r: bool) {
        if self.is_empty() {
            other.is_empty()
        } else {
            self.x_min == other.x_min && self.y_min == other.y_min && self.x_max == other.x_max
                && self.y_max == other.y_max
        }
    }
}

impl vstd::std_specs::cmp::PartialEqSpecImpl for Rectangle {
    open spec fn obeys_eq_spec() -> bool {
        true
    }

    open spec fn eq_spec(&self, other: &Rectangle) -> bool {
        self.same(*other)
    }
}

/// The midpoint of `a` and `b`, rounded down.
fn midpoint(a: i64, b: i64) -> (r: i64)
    ensures
        r as int == (a as int + b as int) / 2,
{
    let s: i128 = a as i128 + b as i128;
    if s >= 0 {
        (s / 2) as i64
    } else {
        let n: i128 = -s;
        let h: i128 = (n + 1) / 2;
        (-h) as i64
    }
}

impl Rectangle {
    /// The rectangle spanned by two corner points.
    pub fn new(p1: Coordinate, p2: Coordinate) -> (r: Rectangle)
        ensures
            r.x_min == min_i64(p1.x, p2.x),
            r.y_min == min_i64(p1.y, p2.y),
            r.x_max == max_i64(p1.x, p2.x),
            r.y_max == max_i64(p1.y, p2.y),
            !r.empty(),
    {
        Rectangle {
            x_min: if p1.x <= p2.x { p1.x } else { p2.x },
            y_min: if p1.y <= p2.y { p1.y } else { p2.y },
            x_max: if p1.x >= p2.x { p1.x } else { p2.x },
            y_max: if p1.y >= p2.y { p1.y } else { p2.y },
        }
    }

    pub fn new_empty() -> (r: Rectangle)
        ensures
            r == empty_rect(),
            r.empty(),
    {
        Rectangle { x_min: i64::MAX, y_min: i64::MAX, x_max: i64::MIN, y_max: i64::MIN }
    }

    pub fn is_empty(&self) -> (r: bool)
        ensures
            r == self.empty(),
    {
        self.x_min > self.x_max || self.y_min > self.y_max
    }

    /// The envelope of all the items.
    pub fn of<T: HasEnvelope>(items: &[T]) -> (r: Rectangle)
        ensures
            r == envelope_of(envelopes(items@)),
    {
        let ghost env = envelopes(items@);
        let mut s = Rectangle::new_empty();
        let mut i: usize = 0;
        while i < items.len()
            invariant
                i <= items@.len(),
                env == envelopes(items@),
                s == envelope_of(env.take(i as int)),
            decreases items@.len() - i,
        {
            proof {
                assert(env.take(i as int + 1).drop_last() =~= env.take(i as int));
            }
            s.expand(items[i].envelope());
            i += 1;
        }
        proof {
            assert(env.take(i as int) =~= env);
        }
        s
    }

    /// The midpoint of the rectangle, rounded down on each axis.
    pub fn center(&self) -> (r: Coordinate)
        ensures
            r == center_of(*self),
            r.x as int == (self.x_min as int + self.x_max as int) / 2,
            r.y as int == (self.y_min as int + self.y_max as int) / 2,
    {
        Coordinate { x: midpoint(self.x_min, self.x_max), y: midpoint(self.y_min, self.y_max) }
    }

    pub fn intersects<T: HasEnvelope>(&self, item: T) -> (r: bool)
        ensures
            r == self.meets(item.envelope_spec()),
    {
        let other = item.envelope();
        !self.is_empty() && !other.is_empty() && self.x_min <= other.x_max && self.x_max
            >= other.x_min && self.y_min <= other.y_max && self.y_max >= other.y_min
    }

    pub fn contains<T: HasEnvelope>(&self, item: T) -> (r: bool)
        ensures
            r == self.holds(item.envelope_spec()),
    {
        let other = item.envelope();
        !self.is_empty() && !other.is_empty() && self.x_min <= other.x_min && self.x_max
            >= other.x_max && self.y_min <= other.y_min && self.y_max >= other.y_max
    }

    pub fn merge<T: HasEnvelope>(&self, item: T) -> (r: Rectangle)
        ensures
            r == self.union(item.envelope_spec()),
    {
        let rect = item.envelope();
        if self.is_empty() {
            if rect.is_empty() {
                Rectangle::new_empty()
            } else {
                rect
            }
        } else if rect.is_empty() {
            *self
        } else {
            Rectangle {
                x_min: if self.x_min <= rect.x_min { self.x_min } else { rect.x_min },
                y_min: if self.y_min <= rect.y_min { self.y_min } else { rect.y_min },
                x_max: if self.x_max >= rect.x_max { self.x_max } else { rect.x_max },
                y_max: if self.y_max >= rect.y_max { self.y_max } else { rect.y_max },
            }
        }
    }

    pub fn expand<T: HasEnvelope>(&mut self, item: T)
        ensures
            *final(self) == old(self).union(item.envelope_spec()),
    {
        *self = self.merge(item);
    }
}

} // verus!
