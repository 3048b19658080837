//! Fixed-point 3-D geometry: vectors, squared distances and integer
//! square roots, the arithmetic base of every pipeline stage.

use vstd::prelude::*;

verus! {

/// Largest coordinate magnitude a point position may carry, in fixed-point
/// units. Bounds all squared distances below `u64::MAX`.
pub const MAX_COORD: i64 = 1_000_000_000;

/// A 3-D vector in fixed-point units. `y` is the vertical axis.
#[derive(Clone, Copy, PartialEq, Eq, Structural, Debug)]
pub struct Vec3 {
    pub x: i64,
    pub y: i64,
    pub z: i64,
}

impl Vec3 {
    /// All coordinates within the fixed-point position range.
    pub open spec fn in_range(self) -> bool {
        -MAX_COORD <= self.x <= MAX_COORD
            && -MAX_COORD <= self.y <= MAX_COORD
            && -MAX_COORD <= self.z <= MAX_COORD
    }

    pub fn new(x: i64, y: i64, z: i64) -> (r: Vec3)
        ensures
            r == (Vec3 { x, y, z }),
    {
        Vec3 { x, y, z }
    }
}

/// Mathematical squared euclidean distance between two vectors.
pub open spec fn spec_dist_sq(a: Vec3, b: Vec3) -> int {
    (a.x - b.x) * (a.x - b.x) + (a.y - b.y) * (a.y - b.y) + (a.z - b.z) * (a.z - b.z)
}

/// Squared distance of two in-range vectors; exact.
pub fn dist_sq(a: Vec3, b: Vec3) -> (r: u64)
    requires
        a.in_range(),
        b.in_range(),
    ensures
        r == spec_dist_sq(a, b),
{
    let dx: i64 = a.x - b.x;
    let dy: i64 = a.y - b.y;
    let dz: i64 = a.z - b.z;
    proof {
        assert(dx * dx <= 4_000_000_000_000_000_000) by (nonlinear_arith)
            requires -2_000_000_000 <= dx <= 2_000_000_000;
        assert(dy * dy <= 4_000_000_000_000_000_000) by (nonlinear_arith)
            requires -2_000_000_000 <= dy <= 2_000_000_000;
        assert(dz * dz <= 4_000_000_000_000_000_000) by (nonlinear_arith)
            requires -2_000_000_000 <= dz <= 2_000_000_000;
        assert(dx * dx >= 0) by (nonlinear_arith);
        assert(dy * dy >= 0) by (nonlinear_arith);
        assert(dz * dz >= 0) by (nonlinear_arith);
    }
    let sx: u64 = (dx as i128 * dx as i128) as u64;
    let sy: u64 = (dy as i128 * dy as i128) as u64;
    let sz: u64 = (dz as i128 * dz as i128) as u64;
    sx + sy + sz
}

/// Floor of the square root, defined by primitive recursion.
pub open spec fn sqrt_floor(q: nat) -> nat
    decreases q,
{
    if q == 0 {
        0
    } else {
        let r = sqrt_floor((q - 1) as nat);
        if (r + 1) * (r + 1) <= q {
            r + 1
        } else {
            r
        }
    }
}

/// `sqrt_floor` is the unique integer square root.
pub proof fn lemma_sqrt_floor_bounds(q: nat)
    ensures
        sqrt_floor(q) * sqrt_floor(q) <= q,
        q < (sqrt_floor(q) + 1) * (sqrt_floor(q) + 1),
    decreases q,
{
    if q > 0 {
        lemma_sqrt_floor_bounds((q - 1) as nat);
        let r = sqrt_floor((q - 1) as nat);
        assert(r * r <= q - 1);
        assert(q - 1 < (r + 1) * (r + 1));
        if (r + 1) * (r + 1) <= q {
            assert(sqrt_floor(q) == r + 1);
            assert(q <= (r + 1) * (r + 1));
            assert((r + 1) * (r + 1) < (r + 2) * (r + 2)) by (nonlinear_arith);
            assert(q < (r + 2) * (r + 2));
        } else {
            assert(sqrt_floor(q) == r);
            assert(r * r <= q);
            assert(q < (r + 1) * (r + 1));
        }
        assert(sqrt_floor(q) * sqrt_floor(q) <= q);
        assert(q < (sqrt_floor(q) + 1) * (sqrt_floor(q) + 1));
    } else {
        assert(sqrt_floor(q) == 0);
        assert(sqrt_floor(q) * sqrt_floor(q) <= q);
        assert(q < (sqrt_floor(q) + 1) * (sqrt_floor(q) + 1)) by (nonlinear_arith)
            requires sqrt_floor(q) == 0, q == 0;
    }
}

/// Any integer between consecutive squares is pinned to one root.
pub proof fn lemma_sqrt_unique(q: nat, r: nat)
    requires
        r * r <= q,
        q < (r + 1) * (r + 1),
    ensures
        r == sqrt_floor(q),
{
    lemma_sqrt_floor_bounds(q);
    let s = sqrt_floor(q);
    if r < s {
        assert((r + 1) * (r + 1) <= s * s) by (nonlinear_arith)
            requires r + 1 <= s;
    }
    if s < r {
        assert((s + 1) * (s + 1) <= r * r) by (nonlinear_arith)
            requires s + 1 <= r;
    }
}

/// Integer square root: `r * r <= q < (r + 1) * (r + 1)`.
pub fn isqrt(q: u128) -> (r: u128)
    ensures
        r == sqrt_floor(q as nat),
        r * r <= q,
        q < (r + 1) * (r + 1),
        r <= 0xffff_ffff_ffff_ffff,
{
    let mut lo: u128 = 0;
    let mut hi: u128 = 0x1_0000_0000_0000_0000;
    proof {
        assert(hi * hi > q) by (nonlinear_arith)
            requires hi == 0x1_0000_0000_0000_0000u128, q <= u128::MAX;
    }
    while lo + 1 < hi
        invariant
            lo < hi,
            hi <= 0x1_0000_0000_0000_0000,
            lo * lo <= q,
            q < hi * hi,
        decreases hi - lo,
    {
        let mid: u128 = lo + (hi - lo) / 2;
        proof {
            assert(mid < 0x1_0000_0000_0000_0000);
            assert(mid * mid <= u128::MAX) by (nonlinear_arith)
                requires mid < 0x1_0000_0000_0000_0000u128;
        }
        if mid * mid <= q {
            lo = mid;
        } else {
            hi = mid;
        }
    }
    proof {
        assert((lo + 1) * (lo + 1) >= hi * hi) by (nonlinear_arith)
            requires lo + 1 >= hi, hi >= 1;
        lemma_sqrt_unique(q as nat, lo as nat);
    }
    lo
}

/// Euclidean (floor) division by a positive divisor, matching the
/// mathematical `/` of specifications on signed values.
pub fn div_floor(a: i128, b: i128) -> (r: i128)
    requires
        b > 0,
        -0x4000_0000_0000_0000_0000_0000_0000_0000 <= a,
        a <= 0x3fff_ffff_ffff_ffff_ffff_ffff_ffff_ffff,
    ensures
        r == a as int / b as int,
{
    if a >= 0 {
        a / b
    } else {
        let n: i128 = -a;
        let q: i128 = n / b;
        let rem: i128 = n % b;
        proof {
            vstd::arithmetic::div_mod::lemma_fundamental_div_mod(n as int, b as int);
            assert(n == b * q + rem);
            assert(a as int == q * b * -1 - rem) by (nonlinear_arith)
                requires n == b * q + rem, a == -n;
            if rem == 0 {
                assert(a as int == (-q) * b + 0) by (nonlinear_arith)
                    requires a as int == q * b * -1 - rem, rem == 0i128;
                vstd::arithmetic::div_mod::lemma_fundamental_div_mod_converse(
                    a as int,
                    b as int,
                    -q as int,
                    0int,
                );
            } else {
                assert(a as int == (-q - 1) * b + (b - rem)) by (nonlinear_arith)
                    requires a as int == q * b * -1 - rem;
                vstd::arithmetic::div_mod::lemma_fundamental_div_mod_converse(
                    a as int,
                    b as int,
                    (-q - 1) as int,
                    (b - rem) as int,
                );
            }
        }
        if rem == 0 {
            -q
        } else {
            -q - 1
        }
    }
}

/// Floor division of a value with known multiples as bounds: the quotient
/// stays between them.
pub fn div_floor_bounded(a: i128, b: i128, lo: i128, hi: i128) -> (r: i128)
    requires
        b >= 1,
        lo * b <= a,
        a <= hi * b,
        -0x4000_0000_0000_0000_0000_0000_0000_0000 <= a,
        a <= 0x3fff_ffff_ffff_ffff_ffff_ffff_ffff_ffff,
    ensures
        r == a as int / b as int,
        lo <= r <= hi,
{
    proof {
        vstd::arithmetic::div_mod::lemma_div_is_ordered(lo * b, a as int, b as int);
        vstd::arithmetic::div_mod::lemma_div_is_ordered(a as int, hi * b, b as int);
        vstd::arithmetic::div_mod::lemma_div_multiples_vanish(lo as int, b as int);
        vstd::arithmetic::div_mod::lemma_div_multiples_vanish(hi as int, b as int);
        assert(lo * b == b * lo) by (nonlinear_arith);
        assert(hi * b == b * hi) by (nonlinear_arith);
    }
    div_floor(a, b)
}

} // verus!
