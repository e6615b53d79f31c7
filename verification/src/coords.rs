//! Integer 2-D coordinates on the board, with an exact floor square root
//! used for path-length comparisons and reflection timing.
use vstd::prelude::*;

verus! {

/// Coordinates large enough for every board position, small enough that a
/// squared distance stays below `1 << 60`.
pub const COORD_LIMIT: i64 = 0x1000_0000;

/// A point on the board, in board units.
#[derive(Clone, Copy, Debug, PartialEq, Eq, Structural)]
pub struct Coord2d {
    pub x: i64,
    pub y: i64,
}

/// Holds when `r` is the floor of the square root of `n`.
pub open spec fn is_sqrt_floor(n: int, r: int) -> bool {
    0 <= r && r * r <= n < (r + 1) * (r + 1)
}

/// The floor of the square root of `n`, as a mathematical function.
pub open spec fn sqrt_floor(n: int) -> int {
    choose|r: int| is_sqrt_floor(n, r)
}

/// Every non-negative `n` has a floor square root.
pub proof fn lemma_sqrt_floor_exists(n: int)
    requires
        n >= 0,
    ensures
        is_sqrt_floor(n, sqrt_floor(n)),
    decreases n,
{
    if n == 0 {
        assert(is_sqrt_floor(0, 0));
    } else {
        lemma_sqrt_floor_exists(n - 1);
        let r = sqrt_floor(n - 1);
        if (r + 1) * (r + 1) <= n {
            assert(is_sqrt_floor(n, r + 1)) by (nonlinear_arith)
                requires
                    is_sqrt_floor(n - 1, r),
                    (r + 1) * (r + 1) <= n,
            ;
        } else {
            assert(is_sqrt_floor(n, r));
        }
    }
    let w = choose|w: int| is_sqrt_floor(n, w);
}

/// Two floor square roots of the same `n` are equal.
pub proof fn lemma_sqrt_floor_unique(n: int, r1: int, r2: int)
    requires
        is_sqrt_floor(n, r1),
        is_sqrt_floor(n, r2),
    ensures
        r1 == r2,
{
    assert(r1 == r2) by (nonlinear_arith)
        requires
            0 <= r1 && r1 * r1 <= n < (r1 + 1) * (r1 + 1),
            0 <= r2 && r2 * r2 <= n < (r2 + 1) * (r2 + 1),
    ;
}

/// Floor square root by binary search.
pub fn isqrt(n: u64) -> (r: u64)
    requires
        n < 0x1000_0000_0000_0000,
    ensures
        r as int == sqrt_floor(n as int),
        is_sqrt_floor(n as int, r as int),
{
    let mut lo: u64 = 0;
    let mut hi: u64 = 0x4000_0000;
    assert(0x4000_0000int * 0x4000_0000int == 0x1000_0000_0000_0000int) by (nonlinear_arith);
    while hi - lo > 1
        invariant
            lo < hi <= 0x4000_0000u64,
            lo as int * lo as int <= n as int,
            (n as int) < hi as int * hi as int,
        decreases hi - lo,
    {
        let mid = lo + (hi - lo) / 2;
        proof {
            assert(mid * mid <= 0x1000_0000_0000_0000) by (nonlinear_arith)
                requires
                    0 <= mid <= 0x4000_0000,
            ;
        }
        if mid * mid <= n {
            lo = mid;
        } else {
            hi = mid;
        }
    }
    proof {
        assert(is_sqrt_floor(n as int, lo as int));
        lemma_sqrt_floor_exists(n as int);
        lemma_sqrt_floor_unique(n as int, lo as int, sqrt_floor(n as int));
    }
    lo
}

/// The squared Euclidean distance between `a` and `b`.
pub open spec fn sq_dist(a: Coord2d, b: Coord2d) -> int {
    (a.x - b.x) * (a.x - b.x) + (a.y - b.y) * (a.y - b.y)
}

/// The board distance between `a` and `b`: the floor of the Euclidean one.
pub open spec fn dist(a: Coord2d, b: Coord2d) -> int {
    sqrt_floor(sq_dist(a, b))
}

/// Holds when both coordinates are within the board's numeric range.
pub open spec fn coord_in_range(c: Coord2d) -> bool {
    -COORD_LIMIT <= c.x <= COORD_LIMIT && -COORD_LIMIT <= c.y <= COORD_LIMIT
}

impl Coord2d {
    pub fn new(x: i64, y: i64) -> (c: Coord2d)
        ensures
            c.x == x && c.y == y,
    {
        Coord2d { x, y }
    }

    pub fn x(&self) -> (r: i64)
        ensures
            r == self.x,
    {
        self.x
    }

    pub fn y(&self) -> (r: i64)
        ensures
            r == self.y,
    {
        self.y
    }

    /// The board distance to `other`.
    pub fn distance(&self, other: &Coord2d) -> (r: i64)
        requires
            coord_in_range(*self),
            coord_in_range(*other),
        ensures
            r as int == dist(*self, *other),
            0 <= r <= 2 * COORD_LIMIT + 2 * COORD_LIMIT,
    {
        let dx = self.x - other.x;
        let dy = self.y - other.y;
        proof {
            assert(0 <= dx * dx <= 0x0400_0000_0000_0000 && 0 <= dy * dy
                <= 0x0400_0000_0000_0000) by (nonlinear_arith)
                requires
                    -2 * COORD_LIMIT <= dx <= 2 * COORD_LIMIT,
                    -2 * COORD_LIMIT <= dy <= 2 * COORD_LIMIT,
            ;
        }
        let sq = (dx * dx) as u64 + (dy * dy) as u64;
        let r = isqrt(sq);
        proof {
            assert(r as int * r as int <= sq as int);
            assert(r <= 4 * COORD_LIMIT) by (nonlinear_arith)
                requires
                    r as int * r as int <= sq as int,
                    sq as int <= (4 * COORD_LIMIT) * (4 * COORD_LIMIT),
                    r >= 0,
            ;
            assert(sq as int <= (4 * COORD_LIMIT) * (4 * COORD_LIMIT)) by (nonlinear_arith)
                requires
                    sq as int == dx * dx + dy * dy,
                    -2 * COORD_LIMIT <= dx <= 2 * COORD_LIMIT,
                    -2 * COORD_LIMIT <= dy <= 2 * COORD_LIMIT,
            ;
        }
        r as i64
    }
}

} // verus!
