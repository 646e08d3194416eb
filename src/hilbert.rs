//! Ranks along a Hilbert curve over a square grid of side `2^16` laid over a
//! rectangle.
use vstd::prelude::*;

use crate::coordinate::Coordinate;
use crate::rectangle::Rectangle;

verus! {

/// Cells on each axis of the grid, minus one.
pub const GRID_MAX: u64 = 65535;

/// Half the side of the grid.
pub const TOP_HALF: u64 = 32768;

/// Rank along the Hilbert curve of cell `(x, y)` of a square of side `2 * s`,
/// `s` a power of two (the square of side 1 when `s` is 0).
pub open spec fn hilbert_from(s: nat, x: int, y: int) -> int
    decreases s,
{
    if s == 0 {
        0
    } else {
        let rx = x >= s;
        let ry = y >= s;
        let x1 = if rx { x - s } else { x };
        let y1 = if ry { y - s } else { y };
        let q = if rx { if ry { 2int } else { 3int } } else { if ry { 1int } else { 0int } };
        let x2 = if !ry { if rx { s - 1 - y1 } else { y1 } } else { x1 };
        let y2 = if !ry { if rx { s - 1 - x1 } else { x1 } } else { y1 };
        q * (s * s) + hilbert_from(s / 2, x2, y2)
    }
}

pub open spec fn pow2(k: nat) -> nat
    decreases k,
{
    if k == 0 {
        1
    } else {
        2 * pow2((k - 1) as nat)
    }
}

/// Column of `c` in a grid of `GRID_MAX + 1` cells over `[lo, hi]`, `c`
/// clamped to that span.
pub open spec fn grid_of(c: int, lo: int, hi: int) -> int {
    let cc = if c < lo { lo } else if c > hi { hi } else { c };
    if hi == lo {
        0
    } else {
        (cc - lo) * GRID_MAX / (hi - lo)
    }
}

/// The curve laid over `envelope`.
pub open spec fn curve_over(envelope: Rectangle) -> Hilbert {
    Hilbert { x_min: envelope.x_min, y_min: envelope.y_min, x_max: envelope.x_max, y_max: envelope.y_max }
}

/// A Hilbert curve laid over a rectangle.
pub struct Hilbert {
    pub x_min: i64,
    pub y_min: i64,
    pub x_max: i64,
    pub y_max: i64,
}

impl Hilbert {
    pub open spec fn rank_spec(&self, c: Coordinate) -> int {
        hilbert_from(
            TOP_HALF as nat,
            grid_of(c.x as int, self.x_min as int, self.x_max as int),
            grid_of(c.y as int, self.y_min as int, self.y_max as int),
        )
    }

    pub open spec fn wf(&self) -> bool {
        self.x_min <= self.x_max && self.y_min <= self.y_max
    }

    pub fn new(envelope: Rectangle) -> (r: Hilbert)
        requires
            !envelope.empty(),
        ensures
            r.wf(),
            r == curve_over(envelope),
    {
        Hilbert { x_min: envelope.x_min, y_min: envelope.y_min, x_max: envelope.x_max, y_max: envelope.y_max }
    }

    /// The rank of the cell holding `c`.
    pub fn hilbert(&self, c: Coordinate) -> (r: u64)
        requires
            self.wf(),
        ensures
            r == self.rank_spec(c),
            r < 4 * TOP_HALF * TOP_HALF,
    {
        let x = grid(c.x, self.x_min, self.x_max);
        let y = grid(c.y, self.y_min, self.y_max);
        rank(x, y)
    }
}

/// The cell of `c` along one axis.
fn grid(c: i64, lo: i64, hi: i64) -> (r: u64)
    requires
        lo <= hi,
    ensures
        r == grid_of(c as int, lo as int, hi as int),
        r <= GRID_MAX,
{
    let cc = if c < lo {
        lo
    } else if c > hi {
        hi
    } else {
        c
    };
    if hi == lo {
        return 0;
    }
    let num: u128 = (cc as i128 - lo as i128) as u128;
    let den: u128 = (hi as i128 - lo as i128) as u128;
    proof {
        assert(num * (GRID_MAX as int) <= den * (GRID_MAX as int)) by (nonlinear_arith)
            requires
                num <= den,
        ;
        assert(den * (GRID_MAX as int) < 0x1_0000_0000_0000_0000_0000_0000_0000_0000) by (nonlinear_arith)
            requires
                den < 0x1_0000_0000_0000_0000,
        ;
        vstd::arithmetic::div_mod::lemma_div_is_ordered(num * GRID_MAX as int, den * GRID_MAX as int, den as int);
        vstd::arithmetic::div_mod::lemma_div_multiples_vanish(GRID_MAX as int, den as int);
        assert(den * (GRID_MAX as int) == (GRID_MAX as int) * den) by (nonlinear_arith);
    }
    let g: u128 = num * (GRID_MAX as u128) / den;
    g as u64
}

/// The rank of cell `(x, y)` along the curve.
fn rank(x: u64, y: u64) -> (r: u64)
    requires
        x <= GRID_MAX,
        y <= GRID_MAX,
    ensures
        r == hilbert_from(TOP_HALF as nat, x as int, y as int),
        r < 4 * TOP_HALF * TOP_HALF,
{
    let mut s: u64 = TOP_HALF;
    let mut x = x;
    let mut y = y;
    let mut d: u64 = 0;
    let ghost x0 = x as int;
    let ghost y0 = y as int;
    let ghost mut k: nat = 15;
    proof {
        reveal_with_fuel(pow2, 16);
    }
    while s > 0
        invariant
            s == pow2(k) || s == 0,
            s > 0 ==> s == pow2(k),
            s <= TOP_HALF,
            x < 2 * s || (s == 0 && x == 0),
            y < 2 * s || (s == 0 && y == 0),
            s > 0 ==> d + 4 * s * s <= 4 * TOP_HALF * TOP_HALF,
            s == 0 ==> d < 4 * TOP_HALF * TOP_HALF,
            d + hilbert_from(s as nat, x as int, y as int) == hilbert_from(TOP_HALF as nat, x0, y0),
        decreases s,
    {
        let rx = x >= s;
        let ry = y >= s;
        if rx {
            x = x - s;
        }
        if ry {
            y = y - s;
        }
        let q: u64 = if rx {
            if ry {
                2
            } else {
                3
            }
        } else {
            if ry {
                1
            } else {
                0
            }
        };
        if !ry {
            if rx {
                x = s - 1 - x;
                y = s - 1 - y;
            }
            let t = x;
            x = y;
            y = t;
        }
        proof {
            assert(q * (s * s) <= 3 * (s * s)) by (nonlinear_arith)
                requires
                    q <= 3,
            ;
            assert(s * s <= TOP_HALF * TOP_HALF) by (nonlinear_arith)
                requires
                    s <= TOP_HALF,
            ;
            assert(4 * s * s == 4 * (s * s)) by (nonlinear_arith);
            if k > 0 {
                assert(pow2(k) == 2 * pow2((k - 1) as nat));
                assert(s / 2 == pow2((k - 1) as nat));
                assert(4 * (s / 2) * (s / 2) == s * s) by (nonlinear_arith)
                    requires
                        s == 2 * (s / 2),
                ;
            } else {
                assert(s == 1);
            }
        }
        let ghost s_old = s as int;
        let ghost d_old = d as int;
        d = d + q * (s * s);
        s = s / 2;
        proof {
            if s > 0 {
                assert(4 * s * s == s_old * s_old) by (nonlinear_arith)
                    requires
                        4 * (s_old / 2) * (s_old / 2) == s_old * s_old,
                        s == s_old / 2,
                ;
            }
            if k > 0 {
                k = (k - 1) as nat;
            }
        }
    }
    d
}

} // verus!
