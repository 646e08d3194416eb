use vstd::prelude::*;

use crate::coordinate::Coordinate;
use crate::rectangle::{Rectangle, min_i64, max_i64};

verus! {

/// `a / b` rounded up.
pub open spec fn ceil_div(a: int, b: int) -> int {
    (a + b - 1) / b
}

/// Number of nodes at level `k` of a tree of degree `d` over `n` leaves,
/// padding left out.
pub open spec fn level_size(d: int, n: int, k: nat) -> int
    decreases k,
{
    if k == 0 {
        n
    } else {
        ceil_div(level_size(d, n, (k - 1) as nat), d)
    }
}

/// Offset of level `k` in the flat array: every level below it is padded to a
/// multiple of `d`.
pub open spec fn level_start(d: int, n: int, k: nat) -> int
    decreases k,
{
    if k == 0 {
        0
    } else {
        level_start(d, n, (k - 1) as nat) + d * level_size(d, n, k)
    }
}

/// The flat array of a tree of degree `d` over `n` leaves fits in memory.
pub open spec fn fits(d: int, n: int) -> bool {
    (d + 2) * n < usize::MAX
}

/// `level_indices` describes the levels of a tree of degree `d` over `n` leaves:
/// one entry per level, up to the first level of a single node.
pub open spec fn levels_of(li: Seq<usize>, d: int, n: int) -> bool {
    &&& n == 0 ==> li.len() == 0
    &&& n > 0 ==> {
        &&& li.len() >= 1
        &&& forall|k: int| 0 <= k < li.len() ==> #[trigger] li[k] == level_start(d, n, k as nat)
        &&& forall|k: int| 0 <= k < li.len() - 1 ==> #[trigger] level_size(d, n, k as nat) > 1
        &&& level_size(d, n, (li.len() - 1) as nat) == 1
        &&& li[li.len() - 1] < usize::MAX
    }
}

pub proof fn lemma_ceil_div_facts(s: int, d: int)
    requires
        d >= 2,
        s >= 1,
    ensures
        ceil_div(s, d) >= 1,
        s >= 2 ==> ceil_div(s, d) < s,
        d * ceil_div(s, d) >= s,
        d * ceil_div(s, d) <= s + d - 1,
        d * (ceil_div(s, d) - 1) < s,
        s >= 2 ==> 2 * d * ceil_div(s, d) <= d * s + 2,
        s >= 2 ==> d * ceil_div(s, d) <= d * s,
{
    let c = (s + d - 1) / d;
    let r = (s + d - 1) % d;
    assert(s + d - 1 == d * c + r && 0 <= r < d) by {
        vstd::arithmetic::div_mod::lemma_fundamental_div_mod(s + d - 1, d);
    }
    assert(c >= 1) by (nonlinear_arith)
        requires
            s + d - 1 == d * c + r,
            0 <= r < d,
            s >= 1,
    ;
    assert(s >= 2 ==> c < s) by (nonlinear_arith)
        requires
            s + d - 1 == d * c + r,
            0 <= r < d,
            s >= 1,
            d >= 2,
    ;
    assert(d * (c - 1) == d * c - d) by (nonlinear_arith);
    assert(s >= 2 ==> d * c <= d * s) by (nonlinear_arith)
        requires
            s + d - 1 == d * c + r,
            0 <= r < d,
            d >= 2,
    ;
    assert(s >= 2 ==> 2 * d * c <= d * s + 2) by (nonlinear_arith)
        requires
            s + d - 1 == d * c + r,
            0 <= r < d,
            d >= 2,
    ;
}

/// Integer division rounded up.
pub fn divup(dividend: usize, divisor: usize) -> (r: usize)
    requires
        divisor > 0,
    ensures
        r as int == ceil_div(dividend as int, divisor as int),
{
    let quotient = dividend / divisor;
    proof {
        let (a, b) = (dividend as int, divisor as int);
        vstd::arithmetic::div_mod::lemma_fundamental_div_mod(a, b);
        vstd::arithmetic::div_mod::lemma_fundamental_div_mod(a + b - 1, b);
        let q = a / b;
        let m = a % b;
        if m == 0 {
            assert(a + b - 1 == q * b + (b - 1)) by (nonlinear_arith)
                requires
                    a == b * q + m,
                    m == 0,
            ;
            vstd::arithmetic::div_mod::lemma_fundamental_div_mod_converse(a + b - 1, b, q, b - 1);
        } else {
            assert(a + b - 1 == (q + 1) * b + (m - 1)) by (nonlinear_arith)
                requires
                    a == b * q + m,
            ;
            vstd::arithmetic::div_mod::lemma_fundamental_div_mod_converse(a + b - 1, b, q + 1, m - 1);
            assert(b * q + m <= usize::MAX);
            assert(q < usize::MAX) by (nonlinear_arith)
                requires
                    b * q + m <= usize::MAX,
                    b >= 1,
                    m >= 1,
                    q >= 0,
            ;
        }
    }
    if dividend % divisor == 0 {
        quotient
    } else {
        quotient + 1
    }
}

/// Start offset of each level of a packed tree of `degree` over `num_items`
/// leaves; empty when there are no leaves.
pub fn calculate_level_indices(degree: usize, num_items: usize) -> (r: Vec<usize>)
    requires
        degree >= 2,
        fits(degree as int, num_items as int),
    ensures
        levels_of(r@, degree as int, num_items as int),
{
    let ghost d = degree as int;
    let ghost n = num_items as int;
    if num_items == 0 {
        return Vec::new();
    }
    let mut level_indices: Vec<usize> = vec![0];
    let mut level: usize = 0;
    let mut size: usize = num_items;
    proof {
        assert((d + 2) * n == d * n + 2 * n) by (nonlinear_arith);
    }
    while size > 1
        invariant
            d == degree as int,
            n == num_items as int,
            d >= 2,
            n >= 1,
            (d + 2) * n == d * n + 2 * n,
            fits(d, n),
            size as int == level_size(d, n, level as nat),
            size >= 1,
            level_indices@.len() == level + 1,
            level + size <= n,
            forall|k: int| 0 <= k <= level ==> #[trigger] level_indices@[k] == level_start(d, n, k as nat),
            forall|k: int| 0 <= k < level ==> #[trigger] level_size(d, n, k as nat) > 1,
            level_start(d, n, level as nat) + d * size <= d * n + 2 * level,
        decreases size,
    {
        proof {
            lemma_ceil_div_facts(size as int, d);
            assert(level_indices@[level as int] + d * ceil_div(size as int, d) < usize::MAX);
        }
        let level_capacity = degree * divup(size, degree);
        level_indices.push(level_indices[level] + level_capacity);
        level += 1;
        size = level_capacity / degree;
        proof {
            let c = ceil_div(level_size(d, n, (level - 1) as nat), d);
            assert(level_capacity as int / d == c) by {
                vstd::arithmetic::div_mod::lemma_div_multiples_vanish(c, d);
            }
            assert(level_size(d, n, level as nat) == c);
            assert(level_start(d, n, level as nat) == level_start(d, n, (level - 1) as nat) + d * c);
            assert(2 * d * c == d * c + d * c) by (nonlinear_arith);
        }
    }
    level_indices
}

/// Copies `items` into `slice` starting at `index`.
pub fn copy_into_slice<T: Copy>(slice: &mut [T], index: usize, items: &[T])
    requires
        index + items@.len() <= old(slice)@.len(),
    ensures
        final(slice)@.len() == old(slice)@.len(),
        forall|i: int|
            0 <= i < old(slice)@.len() ==> #[trigger] final(slice)@[i] == if index <= i < index
                + items@.len() {
                items@[i - index]
            } else {
                old(slice)@[i]
            },
{
    let len = slice.len();
    let mut i: usize = 0;
    while i < items.len()
        invariant
            len == slice@.len(),
            index + items@.len() <= slice@.len(),
            slice@.len() == old(slice)@.len(),
            i <= items@.len(),
            forall|j: int|
                0 <= j < slice@.len() ==> #[trigger] slice@[j] == if index <= j < index + i {
                    items@[j - index]
                } else {
                    old(slice)@[j]
                },
        decreases items@.len() - i,
    {
        slice[index + i] = items[i];
        i += 1;
    }
}

/// The rectangles spanned by each pair of consecutive coordinates.
pub fn rectangles_from_coordinates(coords: &[Coordinate]) -> (r: Vec<Rectangle>)
    ensures
        coords@.len() == 0 ==> r@.len() == 0,
        coords@.len() > 0 ==> r@.len() == coords@.len() - 1,
        forall|i: int|
            0 <= i < r@.len() ==> #[trigger] r@[i] == (Rectangle {
                x_min: min_i64(coords@[i].x, coords@[i + 1].x),
                y_min: min_i64(coords@[i].y, coords@[i + 1].y),
                x_max: max_i64(coords@[i].x, coords@[i + 1].x),
                y_max: max_i64(coords@[i].y, coords@[i + 1].y),
            }),
{
    let mut r: Vec<Rectangle> = Vec::new();
    let mut i: usize = 1;
    while i < coords.len()
        invariant
            1 <= i,
            coords@.len() > 0 ==> i <= coords@.len(),
            coords@.len() == 0 ==> i == 1,
            r@.len() == i - 1,
            forall|j: int|
                0 <= j < r@.len() ==> #[trigger] r@[j] == (Rectangle {
                    x_min: min_i64(coords@[j].x, coords@[j + 1].x),
                    y_min: min_i64(coords@[j].y, coords@[j + 1].y),
                    x_max: max_i64(coords@[j].x, coords@[j + 1].x),
                    y_max: max_i64(coords@[j].y, coords@[j + 1].y),
                }),
        decreases coords@.len() - i,
    {
        r.push(Rectangle::new(coords[i - 1], coords[i]));
        i += 1;
    }
    r
}

/// A copy of `rects`.
pub fn copied(rects: &[Rectangle]) -> (r: Vec<Rectangle>)
    ensures
        r@ == rects@,
{
    let mut r: Vec<Rectangle> = Vec::new();
    let mut i: usize = 0;
    while i < rects.len()
        invariant
            i <= rects@.len(),
            r@ == rects@.take(i as int),
        decreases rects@.len() - i,
    {
        r.push(rects[i]);
        i += 1;
        proof {
            assert(r@ =~= rects@.take(i as int));
        }
    }
    proof {
        assert(rects@.take(i as int) =~= rects@);
    }
    r
}

} // verus!
