use vstd::prelude::*;

verus! {

/// A continuous position on the grid, in fixed-point units of one
/// thousandth of a tile per axis: sub-tile motion needs no floating
/// point, and the tile under a position is its coordinate divided by a
/// thousand.
#[derive(Clone, Copy, Debug, PartialEq, Eq, Structural)]
pub struct Coordinates {
    pub x: i64,
    pub y: i64,
}

impl Coordinates {
    /// The tile column containing this position.
    pub open spec fn tile_x_spec(self) -> int {
        self.x as int / 1000
    }

    /// The tile row containing this position.
    pub open spec fn tile_y_spec(self) -> int {
        self.y as int / 1000
    }

    /// Whether this position lies inside a grid of the given dimensions.
    pub open spec fn in_grid(self, width: int, height: int) -> bool {
        &&& 0 <= self.x < width * 1000
        &&& 0 <= self.y < height * 1000
    }

    /// The row-major tile index of this position.
    pub open spec fn index_spec(self, width: int) -> int {
        self.tile_y_spec() * width + self.tile_x_spec()
    }

    /// Build a position from whole-tile cell coordinates.
    pub fn from_cell(x: i64, y: i64) -> (r: Coordinates)
        requires
            -2000000 <= x <= 2000000,
            -2000000 <= y <= 2000000,
        ensures
            r.x == x * 1000,
            r.y == y * 1000,
    {
        Coordinates { x: x * 1000, y: y * 1000 }
    }

    pub fn tile_x(&self) -> (r: i64)
        requires
            self.x >= 0,
        ensures
            r == self.tile_x_spec(),
    {
        self.x / 1000
    }

    pub fn tile_y(&self) -> (r: i64)
        requires
            self.y >= 0,
        ensures
            r == self.tile_y_spec(),
    {
        self.y / 1000
    }

    /// The row-major index of the tile containing this position.
    pub fn to_index(&self, width: usize) -> (r: usize)
        requires
            0 < width <= 4096,
            self.in_grid(width as int, 4096),
        ensures
            r == self.index_spec(width as int),
    {
        let tx = self.tile_x();
        let ty = self.tile_y();
        proof {
            crate::map::lemma_index_in_range(width as int, 4096, tx as int, ty as int);
        }
        (ty as usize) * width + (tx as usize)
    }
}

/// Square root, rounded down.
pub open spec fn isqrt_spec(n: nat) -> nat
    decreases n,
{
    if n == 0 {
        0
    } else {
        let p = isqrt_spec((n - 1) as nat);
        if (p + 1) * (p + 1) <= n {
            p + 1
        } else {
            p
        }
    }
}

/// The rounded-down square root is bracketed by the two neighbouring
/// perfect squares.
pub proof fn lemma_isqrt_spec_bounds(n: nat)
    ensures
        isqrt_spec(n) * isqrt_spec(n) <= n,
        (isqrt_spec(n) + 1) * (isqrt_spec(n) + 1) > n,
    decreases n,
{
    if n == 0 {
        assert(isqrt_spec(0) == 0);
        assert((isqrt_spec(n) + 1) * (isqrt_spec(n) + 1) == 1) by (nonlinear_arith)
            requires isqrt_spec(n) == 0,
        ;
    } else {
        lemma_isqrt_spec_bounds((n - 1) as nat);
        let p = isqrt_spec((n - 1) as nat);
        let r = isqrt_spec(n);
        assert(r == if (p + 1) * (p + 1) <= n { p + 1 } else { p });
        assert(p * p <= n - 1);
        assert((p + 1) * (p + 1) > n - 1);
        if (p + 1) * (p + 1) <= n {
            assert(r == p + 1);
            assert(r * r <= n);
            assert((p + 1) * (p + 1) >= n);
            assert((r + 1) * (r + 1) > n) by (nonlinear_arith)
                requires
                    r == p + 1,
                    (p + 1) * (p + 1) >= n,
            ;
        } else {
            assert(r == p);
            assert(r * r <= n);
            assert((r + 1) * (r + 1) > n);
        }
    }
}

/// Any value bracketed by the neighbouring perfect squares is the
/// rounded-down square root.
pub proof fn lemma_isqrt_unique(n: nat, r: nat)
    requires
        r * r <= n,
        (r + 1) * (r + 1) > n,
    ensures
        r == isqrt_spec(n),
{
    lemma_isqrt_spec_bounds(n);
    let q = isqrt_spec(n);
    assert(r == q) by (nonlinear_arith)
        requires
            r * r <= n && (r + 1) * (r + 1) > n,
            q * q <= n && (q + 1) * (q + 1) > n,
    ;
}

/// Square root, rounded down.
pub fn isqrt(n: u64) -> (r: u64)
    ensures
        r * r <= n,
        (r + 1) * (r + 1) > n,
        r == isqrt_spec(n as nat),
{
    let mut lo: u64 = 0;
    let mut hi: u64 = 4294967296;
    if n >= 18446744065119617025 {
        proof {
            lemma_isqrt_unique(n as nat, 4294967295);
        }
        return 4294967295;
    }
    // Invariant: lo * lo <= n < hi * hi.
    while lo + 1 < hi
        invariant
            lo < hi <= 4294967296,
            lo * lo <= n,
            n < hi * hi,
        decreases hi - lo,
    {
        let mid = lo + (hi - lo) / 2;
        assert(mid * mid <= 18446744065119617025) by (nonlinear_arith)
            requires mid <= 4294967295,
        ;
        if mid * mid <= n {
            lo = mid;
        } else {
            hi = mid;
        }
    }
    proof {
        lemma_isqrt_unique(n as nat, lo as nat);
    }
    lo
}

} // verus!
