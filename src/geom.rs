use vstd::prelude::*;

verus! {

/// A point or displacement in the plane, in micro-units (one length unit is 1_000_000).
#[derive(Clone, Copy, Debug, PartialEq, Eq, Structural)]
pub struct Vec2 {
    pub x: i64,
    pub y: i64,
}

/// A closed axis-aligned rectangle given by its corners.
#[derive(Clone, Copy, Debug, PartialEq, Eq, Structural)]
pub struct Rect {
    pub min_x: i64,
    pub min_y: i64,
    pub max_x: i64,
    pub max_y: i64,
}

/// Two closed rectangles overlap when their projections on both axes intersect.
pub open spec fn overlaps(a: Rect, b: Rect) -> bool {
    &&& a.min_x <= b.max_x
    &&& b.min_x <= a.max_x
    &&& a.min_y <= b.max_y
    &&& b.min_y <= a.max_y
}

/// The square of side `2 * half` centred on `(cx, cy)`.
pub open spec fn centered_square(cx: int, cy: int, half: int) -> Rect
    recommends
        i64::MIN <= cx - half,
        cx + half <= i64::MAX,
        i64::MIN <= cy - half,
        cy + half <= i64::MAX,
{
    Rect {
        min_x: (cx - half) as i64,
        min_y: (cy - half) as i64,
        max_x: (cx + half) as i64,
        max_y: (cy + half) as i64,
    }
}

impl Rect {
    /// Axis-aligned intersection test on closed rectangles.
    pub fn overlaps(&self, other: &Rect) -> (r: bool)
        ensures
            r == overlaps(*self, *other),
    {
        self.min_x <= other.max_x && other.min_x <= self.max_x && self.min_y <= other.max_y
            && other.min_y <= self.max_y
    }

    /// The square of side `2 * half` centred on `(cx, cy)`.
    pub fn new_centered(cx: i64, cy: i64, half: i64) -> (r: Rect)
        requires
            half >= 0,
            i64::MIN <= cx - half,
            cx + half <= i64::MAX,
            i64::MIN <= cy - half,
            cy + half <= i64::MAX,
        ensures
            r == centered_square(cx as int, cy as int, half as int),
    {
        Rect { min_x: cx - half, min_y: cy - half, max_x: cx + half, max_y: cy + half }
    }
}

/// `r` is the integer square root of `n`, rounded down.
pub open spec fn is_floor_sqrt(n: int, r: int) -> bool {
    &&& 0 <= r
    &&& r * r <= n
    &&& n < (r + 1) * (r + 1)
}

/// Integer square root, rounded down, by bisection.
pub fn floor_sqrt(n: u128) -> (r: u64)
    ensures
        is_floor_sqrt(n as int, r as int),
{
    let mut lo: u128 = 0;
    let mut hi: u128 = 0x1_0000_0000_0000_0000;
    assert(n < hi * hi) by (nonlinear_arith)
        requires
            hi == 0x1_0000_0000_0000_0000u128,
            n <= u128::MAX,
    ;
    while hi - lo > 1
        invariant
            lo < hi,
            hi <= 0x1_0000_0000_0000_0000u128,
            lo * lo <= n,
            n < hi * hi,
        decreases hi - lo,
    {
        let mid: u128 = lo + (hi - lo) / 2;
        assert(mid * mid < 0x1_0000_0000_0000_0000u128 * 0x1_0000_0000_0000_0000u128) by (
        nonlinear_arith)
            requires
                mid < 0x1_0000_0000_0000_0000u128,
                0 <= mid,
        ;
        if mid * mid <= n {
            lo = mid;
        } else {
            hi = mid;
        }
    }
    assert(hi == lo + 1);
    lo as u64
}

} // verus!
