//! Points in space and exact integer distances between them.
use vstd::prelude::*;

verus! {

/// Largest magnitude a coordinate may have, in milli-units.
pub const COORD_LIMIT: i64 = 0x4000_0000;

/// A point in space, coordinates in milli-units.
#[derive(Clone, Copy, Debug, PartialEq, Eq, Structural)]
pub struct Point {
    pub x: i64,
    pub y: i64,
    pub z: i64,
}

impl Point {
    pub open spec fn in_range(self) -> bool {
        &&& -COORD_LIMIT <= self.x <= COORD_LIMIT
        &&& -COORD_LIMIT <= self.y <= COORD_LIMIT
        &&& -COORD_LIMIT <= self.z <= COORD_LIMIT
    }

    pub fn new(x: i64, y: i64, z: i64) -> (p: Point)
        ensures
            p == (Point { x, y, z }),
    {
        Point { x, y, z }
    }

    /// Whether every coordinate lies within `COORD_LIMIT`.
    pub fn is_in_range(&self) -> (r: bool)
        ensures
            r == self.in_range(),
    {
        -COORD_LIMIT <= self.x && self.x <= COORD_LIMIT && -COORD_LIMIT <= self.y && self.y
            <= COORD_LIMIT && -COORD_LIMIT <= self.z && self.z <= COORD_LIMIT
    }
}

/// Squared Euclidean distance between two points.
pub open spec fn dist_sq(a: Point, b: Point) -> int {
    (b.x - a.x) * (b.x - a.x) + (b.y - a.y) * (b.y - a.y) + (b.z - a.z) * (b.z - a.z)
}

/// `r` is the integer square root of `n`: the largest integer whose square is at most `n`.
pub open spec fn is_isqrt(n: int, r: int) -> bool {
    0 <= r && r * r <= n < (r + 1) * (r + 1)
}

/// Euclidean distance rounded down to a whole milli-unit.
pub open spec fn distance(a: Point, b: Point) -> int {
    choose|r: int| is_isqrt(dist_sq(a, b), r)
}

proof fn lemma_isqrt_unique(n: int, r: int, s: int)
    requires
        is_isqrt(n, r),
        is_isqrt(n, s),
    ensures
        r == s,
{
    if r < s {
        assert((r + 1) * (r + 1) <= s * s) by (nonlinear_arith)
            requires
                0 <= r < s,
        ;
    } else if s < r {
        assert((s + 1) * (s + 1) <= r * r) by (nonlinear_arith)
            requires
                0 <= s < r,
        ;
    }
}

/// Integer square root, by bisection.
pub fn isqrt(n: u64) -> (r: u64)
    ensures
        is_isqrt(n as int, r as int),
{
    let mut lo: u64 = 0;
    let mut hi: u64 = 0x1_0000_0000;
    assert(n < hi * hi) by (nonlinear_arith)
        requires
            hi == 0x1_0000_0000,
            n <= u64::MAX,
    ;
    while hi - lo > 1
        invariant
            lo < hi <= 0x1_0000_0000,
            lo * lo <= n,
            n < hi * hi,
        decreases hi - lo,
    {
        let mid: u64 = lo + (hi - lo) / 2;
        assert(mid * mid <= 0x1_0000_0000_0000_0000int) by (nonlinear_arith)
            requires mid <= 0x1_0000_0000,
        ;
        let sq: u128 = (mid as u128) * (mid as u128);
        if sq <= n as u128 {
            lo = mid;
        } else {
            hi = mid;
        }
    }
    lo
}

/// The distance between two points in range, rounded down.
pub fn point_distance(a: &Point, b: &Point) -> (r: u64)
    requires
        a.in_range(),
        b.in_range(),
    ensures
        r == distance(*a, *b),
        r <= 0x1_0000_0000,
{
    let dx: i64 = b.x - a.x;
    let dy: i64 = b.y - a.y;
    let dz: i64 = b.z - a.z;
    let ux: u64 = if dx < 0 { (-dx) as u64 } else { dx as u64 };
    let uy: u64 = if dy < 0 { (-dy) as u64 } else { dy as u64 };
    let uz: u64 = if dz < 0 { (-dz) as u64 } else { dz as u64 };
    assert(ux * ux <= 0x4000_0000_0000_0000int) by (nonlinear_arith)
        requires ux <= 0x8000_0000,
    ;
    assert(uy * uy <= 0x4000_0000_0000_0000int) by (nonlinear_arith)
        requires uy <= 0x8000_0000,
    ;
    assert(uz * uz <= 0x4000_0000_0000_0000int) by (nonlinear_arith)
        requires uz <= 0x8000_0000,
    ;
    assert(ux * ux == dx * dx) by (nonlinear_arith)
        requires ux == dx || ux == -dx,
    ;
    assert(uy * uy == dy * dy) by (nonlinear_arith)
        requires uy == dy || uy == -dy,
    ;
    assert(uz * uz == dz * dz) by (nonlinear_arith)
        requires uz == dz || uz == -dz,
    ;
    let sq: u64 = ux * ux + uy * uy + uz * uz;
    assert(sq == dist_sq(*a, *b)) by (nonlinear_arith)
        requires
            ux * ux == dx * dx,
            uy * uy == dy * dy,
            uz * uz == dz * dz,
            sq == ux * ux + uy * uy + uz * uz,
            dx == b.x - a.x,
            dy == b.y - a.y,
            dz == b.z - a.z,
    ;
    let r = isqrt(sq);
    proof {
        lemma_isqrt_unique(sq as int, r as int, distance(*a, *b));
        if r > 0x1_0000_0000 {
            assert(r * r > 0x1_0000_0000_0000_0000int) by (nonlinear_arith)
                requires r > 0x1_0000_0000,
            ;
        }
    }
    r
}

} // verus!
