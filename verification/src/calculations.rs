//! Per-segment local geometry: the height-slice dispersion profile with
//! the trunk/crown split, and per-point normal, size and curvature from
//! the eigenstructure of the local covariance.

use crate::geom::{div_floor, div_floor_bounded, isqrt, sqrt_floor, Vec3};
use crate::neighbors::{has_index, knn_post, NeighborsTree};
use crate::point::ComputedPoint;
use crate::project::Value;
use crate::Settings;
use vstd::prelude::*;

verus! {

/// Width of one profile slice, in fixed-point units (0.05 meters).
pub const CALC_SLICE_WIDTH: i64 = 50;

/// Scale of the percentage values: one million is the whole.
pub const PERCENT_SCALE: u32 = 1_000_000;

/// Threshold above which a slice's mapped dispersion marks the crown: a
/// third of the 32-bit output domain.
pub const CROWN_THRESHOLD: u32 = 1_431_655_765;

/// Per-segment height statistics: the trunk and crown parts of the total
/// height, each absolute and as a share of the whole.
pub struct SegmentInformation {
    pub trunk_height: Value,
    pub crown_height: Value,
}

/// Maps a ratio `num / den` into the full 32-bit output domain.
pub fn map_to_u32(num: u64, den: u64) -> (r: u32)
    requires
        den >= 1,
        num <= den,
    ensures
        r as int == num * 0xffff_ffff / (den as int),
{
    proof {
        assert((num as int) * 0xffff_ffff <= (den as int) * 0xffff_ffff) by (nonlinear_arith)
            requires num <= den;
        vstd::arithmetic::div_mod::lemma_div_is_ordered(
            num * 0xffff_ffff,
            (den as int) * 0xffff_ffff,
            den as int,
        );
        vstd::arithmetic::div_mod::lemma_div_multiples_vanish(0xffff_ffff, den as int);
        assert((den as int) * 0xffff_ffff / (den as int) == 0xffff_ffff);
        vstd::arithmetic::div_mod::lemma_div_pos_is_pos(num * 0xffff_ffff, den as int);
        assert((num as int) * 0xffff_ffff >= 0) by (nonlinear_arith);
    }
    ((num as u128 * 0xffff_ffff) / den as u128) as u32
}

/// The least vertical coordinate of a nonempty point list.
pub open spec fn min_y_of(data: Seq<Vec3>) -> int
    recommends
        data.len() > 0,
    decreases data.len(),
{
    if data.len() <= 1 {
        data[0].y as int
    } else {
        let m = min_y_of(data.drop_last());
        if data.last().y < m {
            data.last().y as int
        } else {
            m
        }
    }
}

/// The greatest vertical coordinate of a nonempty point list.
pub open spec fn max_y_of(data: Seq<Vec3>) -> int
    recommends
        data.len() > 0,
    decreases data.len(),
{
    if data.len() <= 1 {
        data[0].y as int
    } else {
        let m = max_y_of(data.drop_last());
        if data.last().y > m {
            data.last().y as int
        } else {
            m
        }
    }
}

/// The profile slice a height falls into.
pub open spec fn slice_index(y: int, miny: int) -> int {
    (y - miny) / (CALC_SLICE_WIDTH as int)
}

/// Number of profile slices covering a height range.
pub open spec fn slice_total(height: int) -> int {
    (height + CALC_SLICE_WIDTH - 1) / (CALC_SLICE_WIDTH as int) + 1
}

/// Number of points of the list falling into slice `s`.
pub open spec fn s_cnt(data: Seq<Vec3>, miny: int, s: int) -> int
    decreases data.len(),
{
    if data.len() == 0 {
        0
    } else {
        s_cnt(data.drop_last(), miny, s) + if slice_index(data.last().y as int, miny) == s {
            1int
        } else {
            0int
        }
    }
}

/// Sum of the first horizontal coordinate over slice `s`.
pub open spec fn s_sum_x(data: Seq<Vec3>, miny: int, s: int) -> int
    decreases data.len(),
{
    if data.len() == 0 {
        0
    } else {
        s_sum_x(data.drop_last(), miny, s) + if slice_index(data.last().y as int, miny) == s {
            data.last().x as int
        } else {
            0int
        }
    }
}

/// Sum of the second horizontal coordinate over slice `s`.
pub open spec fn s_sum_z(data: Seq<Vec3>, miny: int, s: int) -> int
    decreases data.len(),
{
    if data.len() == 0 {
        0
    } else {
        s_sum_z(data.drop_last(), miny, s) + if slice_index(data.last().y as int, miny) == s {
            data.last().z as int
        } else {
            0int
        }
    }
}

/// Mean horizontal offset of slice `s`, rounded toward minus infinity.
pub open spec fn s_mean_x(data: Seq<Vec3>, miny: int, s: int) -> int {
    if s_cnt(data, miny, s) == 0 {
        0
    } else {
        s_sum_x(data, miny, s) / s_cnt(data, miny, s)
    }
}

pub open spec fn s_mean_z(data: Seq<Vec3>, miny: int, s: int) -> int {
    if s_cnt(data, miny, s) == 0 {
        0
    } else {
        s_sum_z(data, miny, s) / s_cnt(data, miny, s)
    }
}

/// Sum of squared horizontal offsets from the slice mean `(mx, mz)` over
/// slice `s`.
pub open spec fn s_var(data: Seq<Vec3>, miny: int, s: int, mx: int, mz: int) -> int
    decreases data.len(),
{
    if data.len() == 0 {
        0
    } else {
        s_var(data.drop_last(), miny, s, mx, mz) + if slice_index(data.last().y as int, miny)
            == s {
            (mx - data.last().x) * (mx - data.last().x) + (mz - data.last().z) * (mz
                - data.last().z)
        } else {
            0int
        }
    }
}

/// Dispersion of slice `s`: the squared-offset sum normalized by the
/// square root of the population, in thousandths.
pub open spec fn s_disp(data: Seq<Vec3>, miny: int, s: int) -> int {
    let cnt = s_cnt(data, miny, s);
    if cnt == 0 {
        0
    } else {
        s_var(data, miny, s, s_mean_x(data, miny, s), s_mean_z(data, miny, s)) * 1000
            / (sqrt_floor((cnt * 1_000_000) as nat) as int)
    }
}

/// The greatest dispersion among slices below `k`.
pub open spec fn max_disp_upto(data: Seq<Vec3>, miny: int, k: int) -> int
    decreases k,
{
    if k <= 0 {
        0
    } else {
        let rest = max_disp_upto(data, miny, k - 1);
        if s_disp(data, miny, k - 1) > rest {
            s_disp(data, miny, k - 1)
        } else {
            rest
        }
    }
}

/// Slice dispersion mapped onto the full 32-bit output domain as a share
/// of the profile's maximum.
pub open spec fn mapped_slice(data: Seq<Vec3>, miny: int, nsl: int, s: int) -> int {
    let mx = max_disp_upto(data, miny, nsl);
    if mx == 0 {
        0
    } else {
        s_disp(data, miny, s) * 0xffff_ffff / mx
    }
}

/// The first slice at or above `s` whose mapped dispersion crosses the
/// crown threshold, or zero when none does.
pub open spec fn first_sep(data: Seq<Vec3>, miny: int, nsl: int, s: int) -> int
    decreases nsl - s,
{
    if s >= nsl {
        0
    } else if mapped_slice(data, miny, nsl, s) > CROWN_THRESHOLD {
        s
    } else {
        first_sep(data, miny, nsl, s + 1)
    }
}

/// The absolute trunk height of a segment: the height of the separating
/// slice, capped by the total height.
pub open spec fn spec_trunk_abs(data: Seq<Vec3>) -> int {
    let miny = min_y_of(data);
    let h = max_y_of(data) - miny;
    let sep = first_sep(data, miny, slice_total(h), 0);
    if sep * CALC_SLICE_WIDTH > h {
        h
    } else {
        sep * CALC_SLICE_WIDTH
    }
}

/// The trunk's share of the total height, in millionths.
pub open spec fn spec_trunk_pct(data: Seq<Vec3>) -> int {
    let h = max_y_of(data) - min_y_of(data);
    if h == 0 {
        0
    } else {
        spec_trunk_abs(data) * (PERCENT_SCALE as int) / h
    }
}

/// The least and greatest vertical coordinate of the list.
fn min_max_y(data: &Vec<Vec3>) -> (r: (i64, i64))
    requires
        data@.len() >= 1,
        forall|i: int| 0 <= i < data@.len() ==> (#[trigger] data@[i]).in_range(),
    ensures
        r.0 == min_y_of(data@),
        r.1 == max_y_of(data@),
        -1_000_000_000 <= r.0 <= r.1 <= 1_000_000_000,
{
    let n: usize = data.len();
    let mut miny: i64 = data[0].y;
    let mut maxy: i64 = data[0].y;
    let mut i: usize = 1;
    while i < n
        invariant
            1 <= i <= n,
            n == data@.len(),
            forall|j: int| 0 <= j < data@.len() ==> (#[trigger] data@[j]).in_range(),
            miny == min_y_of(data@.take(i as int)),
            maxy == max_y_of(data@.take(i as int)),
            -1_000_000_000 <= miny <= maxy <= 1_000_000_000,
        decreases n - i,
    {
        proof {
            assert(data@.take(i as int + 1).drop_last() =~= data@.take(i as int));
            assert(data@.take(i as int + 1).last() == data@[i as int]);
        }
        if data[i].y < miny {
            miny = data[i].y;
        } else if data[i].y > maxy {
            maxy = data[i].y;
        }
        i = i + 1;
    }
    proof {
        assert(data@.take(n as int) =~= data@);
    }
    (miny, maxy)
}

/// The mapped dispersion profile of a segment and the trunk/crown
/// separator: for every slice its share of the maximal dispersion in the
/// 32-bit domain, and the first slice that crosses the crown threshold.
fn slice_profile(data: &Vec<Vec3>, miny: i64, maxy: i64) -> (r: (Vec<u32>, usize))
    requires
        data@.len() >= 1,
        data@.len() <= 0x1000_0000,
        forall|i: int| 0 <= i < data@.len() ==> (#[trigger] data@[i]).in_range(),
        miny == min_y_of(data@),
        maxy == max_y_of(data@),
        -1_000_000_000 <= miny <= maxy <= 1_000_000_000,
        forall|i: int| 0 <= i < data@.len() ==> miny <= (#[trigger] data@[i]).y <= maxy,
    ensures
        r.0@.len() == slice_total(maxy - miny),
        forall|s: int|
            0 <= s < r.0@.len() ==> (#[trigger] r.0@[s]) as int == mapped_slice(
                data@,
                miny as int,
                slice_total(maxy - miny),
                s,
            ),
        r.1 as int == first_sep(data@, miny as int, slice_total(maxy - miny), 0),
{
    let n: usize = data.len();
    let h: i64 = maxy - miny;
    let nsl: usize = (((h + CALC_SLICE_WIDTH - 1) / CALC_SLICE_WIDTH) + 1) as usize;
    proof {
        assert(nsl as int == slice_total(h as int));
    }
    let mut disps: Vec<u128> = Vec::new();
    let mut maxd: u128 = 0;
    let mut s: usize = 0;
    while s < nsl
        invariant
            s <= nsl,
            n == data@.len(),
            data@.len() >= 1,
            data@.len() <= 0x1000_0000,
            forall|i: int| 0 <= i < data@.len() ==> (#[trigger] data@[i]).in_range(),
            forall|i: int| 0 <= i < data@.len() ==> miny <= (#[trigger] data@[i]).y <= maxy,
            -1_000_000_000 <= miny <= maxy <= 1_000_000_000,
            disps@.len() == s,
            forall|t: int|
                0 <= t < s ==> (#[trigger] disps@[t]) as int == s_disp(data@, miny as int, t),
            forall|t: int|
                0 <= t < s ==> (#[trigger] disps@[t]) as int
                    <= 3_000_000_000_000_000_000_000_000_000,
            maxd as int == max_disp_upto(data@, miny as int, s as int),
            maxd <= 3_000_000_000_000_000_000_000_000_000,
        decreases nsl - s,
    {
        // population and horizontal sums of this slice
        let mut cnt: u64 = 0;
        let mut sx: i128 = 0;
        let mut sz: i128 = 0;
        let mut j: usize = 0;
        while j < n
            invariant
                j <= n,
                n == data@.len(),
                data@.len() <= 0x1000_0000,
                forall|i: int| 0 <= i < data@.len() ==> (#[trigger] data@[i]).in_range(),
                forall|i: int| 0 <= i < data@.len() ==> miny <= (#[trigger] data@[i]).y <= maxy,
                -1_000_000_000 <= miny <= maxy <= 1_000_000_000,
                cnt as int == s_cnt(data@.take(j as int), miny as int, s as int),
                sx == s_sum_x(data@.take(j as int), miny as int, s as int),
                sz == s_sum_z(data@.take(j as int), miny as int, s as int),
                cnt <= j,
                -(cnt as int) * 1_000_000_000 <= sx <= (cnt as int) * 1_000_000_000,
                -(cnt as int) * 1_000_000_000 <= sz <= (cnt as int) * 1_000_000_000,
            decreases n - j,
        {
            proof {
                assert(data@.take(j as int + 1).drop_last() =~= data@.take(j as int));
                assert(data@.take(j as int + 1).last() == data@[j as int]);
            }
            let p = data[j];
            let idx: usize = (((p.y - miny) as u64) / (CALC_SLICE_WIDTH as u64)) as usize;
            proof {
                assert(idx as int == slice_index(p.y as int, miny as int));
            }
            if idx == s {
                cnt = cnt + 1;
                let c0 = sx;
                sx = sx + p.x as i128;
                sz = sz + p.z as i128;
                proof {
                    lemma_sum_bound_step(c0 as int, cnt as int - 1, -1_000_000_000, 1_000_000_000, p.x as int);
                    lemma_sum_bound_step(
                        sz as int - p.z,
                        cnt as int - 1,
                        -1_000_000_000,
                        1_000_000_000,
                        p.z as int,
                    );
                }
            }
            j = j + 1;
        }
        proof {
            assert(data@.take(n as int) =~= data@);
        }
        let mx: i128 = if cnt == 0 {
            0
        } else {
            div_floor_bounded(sx, cnt as i128, -1_000_000_000, 1_000_000_000)
        };
        let mz: i128 = if cnt == 0 {
            0
        } else {
            div_floor_bounded(sz, cnt as i128, -1_000_000_000, 1_000_000_000)
        };
        // squared horizontal offsets from the slice mean
        let mut var: i128 = 0;
        let mut j2: usize = 0;
        while j2 < n
            invariant
                j2 <= n,
                n == data@.len(),
                data@.len() <= 0x1000_0000,
                forall|i: int| 0 <= i < data@.len() ==> (#[trigger] data@[i]).in_range(),
                forall|i: int| 0 <= i < data@.len() ==> miny <= (#[trigger] data@[i]).y <= maxy,
                -1_000_000_000 <= miny <= maxy <= 1_000_000_000,
                -1_000_000_000 <= mx <= 1_000_000_000,
                -1_000_000_000 <= mz <= 1_000_000_000,
                var == s_var(data@.take(j2 as int), miny as int, s as int, mx as int, mz as int),
                0 <= var <= (j2 as int) * 8_000_000_000_000_000_000,
            decreases n - j2,
        {
            proof {
                assert(data@.take(j2 as int + 1).drop_last() =~= data@.take(j2 as int));
                assert(data@.take(j2 as int + 1).last() == data@[j2 as int]);
            }
            let p = data[j2];
            let idx: usize = (((p.y - miny) as u64) / (CALC_SLICE_WIDTH as u64)) as usize;
            proof {
                assert(idx as int == slice_index(p.y as int, miny as int));
            }
            if idx == s {
                let dx: i128 = mx - p.x as i128;
                let dz: i128 = mz - p.z as i128;
                proof {
                    assert(0 <= dx * dx <= 4_000_000_000_000_000_000) by (nonlinear_arith)
                        requires -2_000_000_000 <= dx <= 2_000_000_000;
                    assert(0 <= dz * dz <= 4_000_000_000_000_000_000) by (nonlinear_arith)
                        requires -2_000_000_000 <= dz <= 2_000_000_000;
                    lemma_sum_bound_step(
                        var as int,
                        j2 as int,
                        0,
                        8_000_000_000_000_000_000,
                        (dx * dx + dz * dz) as int,
                    );
                }
                var = var + (dx * dx + dz * dz);
            } else {
                proof {
                    lemma_sum_bound_step(var as int, j2 as int, 0, 8_000_000_000_000_000_000, 0);
                }
            }
            j2 = j2 + 1;
        }
        proof {
            assert(data@.take(n as int) =~= data@);
            assert((var as int) <= 2_147_483_648_000_000_000_000_000_000int)
                by (nonlinear_arith)
                requires
                    0 <= var <= (n as int) * 8_000_000_000_000_000_000,
                    n <= 0x1000_0000;
        }
        // dispersion: the offset sum over the square root of the population
        let disp: u128 = if cnt == 0 {
            0
        } else {
            let scaled: u128 = (cnt as u128) * 1_000_000;
            let sq: u128 = isqrt(scaled);
            proof {
                assert(scaled >= 1_000_000) by (nonlinear_arith)
                    requires cnt >= 1, scaled == (cnt as u128) * 1_000_000;
                assert(sq >= 1000) by {
                    if sq < 1000 {
                        assert((sq + 1) * (sq + 1) <= 1_000_000) by (nonlinear_arith)
                            requires sq + 1 <= 1000;
                    }
                };
                assert(0 <= (var as int) * 1000 <= 2_200_000_000_000_000_000_000_000_000_000int)
                    by (nonlinear_arith)
                    requires 0 <= var <= 2_147_483_648_000_000_000_000_000_000i128;
                vstd::arithmetic::div_mod::lemma_div_is_ordered_by_denominator(
                    (var as int) * 1000,
                    1000,
                    sq as int,
                );
                vstd::arithmetic::div_mod::lemma_div_multiples_vanish(var as int, 1000);
                assert((var as int) * 1000 == 1000 * (var as int)) by (nonlinear_arith);
                assert((var as int) * 1000 / 1000 == var);
                assert((var as int) * 1000 / (sq as int) <= var);
            }
            ((var as u128) * 1000) / sq
        };
        proof {
            if cnt != 0 {
                assert(disp as int == s_disp(data@, miny as int, s as int)) by {
                    vstd::arithmetic::div_mod::lemma_div_pos_is_pos(
                        (var as int) * 1000,
                        sqrt_floor(((cnt as int) * 1_000_000) as nat) as int,
                    );
                    assert((var as int) * 1000 >= 0) by (nonlinear_arith)
                        requires var >= 0;
                };
            } else {
                assert(disp as int == s_disp(data@, miny as int, s as int));
            }
        }
        if disp > maxd {
            maxd = disp;
        }
        disps.push(disp);
        s = s + 1;
    }
    // mapped shares of the maximal dispersion
    let mut mapped: Vec<u32> = Vec::new();
    let mut s2: usize = 0;
    while s2 < nsl
        invariant
            s2 <= nsl,
            nsl as int == slice_total((maxy - miny) as int),
            disps@.len() == nsl,
            forall|t: int|
                0 <= t < nsl ==> (#[trigger] disps@[t]) as int == s_disp(data@, miny as int, t),
            forall|t: int|
                0 <= t < nsl ==> (#[trigger] disps@[t]) as int
                    <= 3_000_000_000_000_000_000_000_000_000,
            maxd as int == max_disp_upto(data@, miny as int, nsl as int),
            maxd <= 3_000_000_000_000_000_000_000_000_000,
            mapped@.len() == s2,
            forall|t: int|
                0 <= t < s2 ==> (#[trigger] mapped@[t]) as int == mapped_slice(
                    data@,
                    miny as int,
                    nsl as int,
                    t,
                ),
        decreases nsl - s2,
    {
        let d: u128 = disps[s2];
        let v: u32 = if maxd == 0 {
            proof {
                lemma_max_disp_dominates(data@, miny as int, nsl as int, s2 as int);
            }
            0
        } else {
            proof {
                lemma_max_disp_dominates(data@, miny as int, nsl as int, s2 as int);
                assert(d <= maxd);
                assert(d * 0xffff_ffff <= maxd * 0xffff_ffff) by (nonlinear_arith)
                    requires d <= maxd;
                assert((maxd as int) * 0xffff_ffff <= u128::MAX) by (nonlinear_arith)
                    requires maxd <= 3_000_000_000_000_000_000_000_000_000u128;
                vstd::arithmetic::div_mod::lemma_div_is_ordered(
                    (d as int) * 0xffff_ffff,
                    (maxd as int) * 0xffff_ffff,
                    maxd as int,
                );
                vstd::arithmetic::div_mod::lemma_div_multiples_vanish(0xffff_ffff, maxd as int);
                vstd::arithmetic::div_mod::lemma_div_pos_is_pos(
                    (d as int) * 0xffff_ffff,
                    maxd as int,
                );
                assert((d as int) * 0xffff_ffff >= 0) by (nonlinear_arith);
            }
            ((d * 0xffff_ffff) / maxd) as u32
        };
        mapped.push(v);
        s2 = s2 + 1;
    }
    // the first slice over the crown threshold separates trunk from crown
    let mut sep: usize = 0;
    let mut s3: usize = 0;
    let mut found_sep = false;
    while s3 < nsl
        invariant
            s3 <= nsl,
            nsl as int == slice_total((maxy - miny) as int),
            mapped@.len() == nsl,
            forall|t: int|
                0 <= t < nsl ==> (#[trigger] mapped@[t]) as int == mapped_slice(
                    data@,
                    miny as int,
                    nsl as int,
                    t,
                ),
            !found_sep ==> sep == 0 && first_sep(data@, miny as int, nsl as int, 0) == first_sep(
                data@,
                miny as int,
                nsl as int,
                s3 as int,
            ),
            found_sep ==> sep as int == first_sep(data@, miny as int, nsl as int, 0),
        decreases nsl - s3,
    {
        if !found_sep && mapped[s3] > CROWN_THRESHOLD {
            sep = s3;
            found_sep = true;
        }
        s3 = s3 + 1;
    }
    (mapped, sep)
}

/// Extending a sum of `a` values each within `[lo, hi]` by one more value
/// keeps it within the widened bounds.
proof fn lemma_sum_bound_step(s: int, a: int, lo: int, hi: int, v: int)
    requires
        a >= 0,
        a * lo <= s <= a * hi,
        lo <= v <= hi,
    ensures
        (a + 1) * lo <= s + v <= (a + 1) * hi,
{
    assert((a + 1) * lo == a * lo + lo) by (nonlinear_arith);
    assert((a + 1) * hi == a * hi + hi) by (nonlinear_arith);
}

/// Every slice's dispersion is dominated by the profile maximum.
proof fn lemma_max_disp_dominates(data: Seq<Vec3>, miny: int, nsl: int, s: int)
    requires
        0 <= s < nsl,
    ensures
        s_disp(data, miny, s) <= max_disp_upto(data, miny, nsl),
        max_disp_upto(data, miny, nsl) >= 0,
    decreases nsl,
{
    if s < nsl - 1 {
        lemma_max_disp_dominates(data, miny, nsl - 1, s);
    } else {
        lemma_max_disp_nonneg(data, miny, nsl - 1);
    }
}

proof fn lemma_max_disp_nonneg(data: Seq<Vec3>, miny: int, k: int)
    ensures
        max_disp_upto(data, miny, k) >= 0,
    decreases k,
{
    if k > 0 {
        lemma_max_disp_nonneg(data, miny, k - 1);
    }
}


/// A ghost 3-vector over the unbounded integers.
pub struct SpecV3 {
    pub x: int,
    pub y: int,
    pub z: int,
}

/// A ghost symmetric 3-by-3 matrix over the unbounded integers.
pub struct SpecMat {
    pub xx: int,
    pub xy: int,
    pub xz: int,
    pub yy: int,
    pub yz: int,
    pub zz: int,
}

/// Componentwise sum of the neighbor positions.
pub open spec fn nb_sum(pts: Seq<Vec3>, nbrs: Seq<(u64, usize)>) -> SpecV3
    decreases nbrs.len(),
{
    if nbrs.len() == 0 {
        SpecV3 { x: 0, y: 0, z: 0 }
    } else {
        let s = nb_sum(pts, nbrs.drop_last());
        let p = pts[nbrs.last().1 as int];
        SpecV3 { x: s.x + p.x, y: s.y + p.y, z: s.z + p.z }
    }
}

/// The neighbor centroid, rounded toward minus infinity.
pub open spec fn nb_centroid(pts: Seq<Vec3>, nbrs: Seq<(u64, usize)>) -> SpecV3
    recommends
        nbrs.len() >= 1,
{
    let s = nb_sum(pts, nbrs);
    let c = nbrs.len() as int;
    SpecV3 { x: s.x / c, y: s.y / c, z: s.z / c }
}

/// The scatter sums of neighbor offsets from `c`.
pub open spec fn nb_scatter(pts: Seq<Vec3>, nbrs: Seq<(u64, usize)>, c: SpecV3) -> SpecMat
    decreases nbrs.len(),
{
    if nbrs.len() == 0 {
        SpecMat { xx: 0, xy: 0, xz: 0, yy: 0, yz: 0, zz: 0 }
    } else {
        let m = nb_scatter(pts, nbrs.drop_last(), c);
        let p = pts[nbrs.last().1 as int];
        let dx = p.x - c.x;
        let dy = p.y - c.y;
        let dz = p.z - c.z;
        SpecMat {
            xx: m.xx + dx * dx,
            xy: m.xy + dx * dy,
            xz: m.xz + dx * dz,
            yy: m.yy + dy * dy,
            yz: m.yz + dy * dz,
            zz: m.zz + dz * dz,
        }
    }
}

/// The covariance of the neighborhood: scatter sums over the population.
pub open spec fn nb_cov(pts: Seq<Vec3>, nbrs: Seq<(u64, usize)>) -> SpecMat
    recommends
        nbrs.len() >= 1,
{
    let c = nb_centroid(pts, nbrs);
    let m = nb_scatter(pts, nbrs, c);
    let n = nbrs.len() as int;
    SpecMat { xx: m.xx / n, xy: m.xy / n, xz: m.xz / n, yy: m.yy / n, yz: m.yz / n, zz: m.zz / n }
}

/// The matrix whose dominant eigenvector is the covariance's least one:
/// the trace times the identity, less the covariance.
pub open spec fn mat_b(a: SpecMat) -> SpecMat {
    let tr = a.xx + a.yy + a.zz;
    SpecMat { xx: tr - a.xx, xy: -a.xy, xz: -a.xz, yy: tr - a.yy, yz: -a.yz, zz: tr - a.zz }
}

pub open spec fn mat_apply(m: SpecMat, v: SpecV3) -> SpecV3 {
    SpecV3 {
        x: m.xx * v.x + m.xy * v.y + m.xz * v.z,
        y: m.xy * v.x + m.yy * v.y + m.yz * v.z,
        z: m.xz * v.x + m.yz * v.y + m.zz * v.z,
    }
}

pub open spec fn abs_i(x: int) -> int {
    if x < 0 {
        -x
    } else {
        x
    }
}

pub open spec fn max_abs3(v: SpecV3) -> int {
    let ax = abs_i(v.x);
    let ay = abs_i(v.y);
    let az = abs_i(v.z);
    if ax >= ay && ax >= az {
        ax
    } else if ay >= az {
        ay
    } else {
        az
    }
}

/// Rescales a vector so that its largest component magnitude becomes the
/// normal unit; the zero vector stays zero.
pub open spec fn scale_unit(v: SpecV3) -> SpecV3 {
    let m = max_abs3(v);
    if m == 0 {
        v
    } else {
        SpecV3 { x: v.x * 65536 / m, y: v.y * 65536 / m, z: v.z * 65536 / m }
    }
}

/// `n` rescaled applications of `b`, starting from `v`.
pub open spec fn power_iter(b: SpecMat, v: SpecV3, n: nat) -> SpecV3
    decreases n,
{
    if n == 0 {
        v
    } else {
        scale_unit(mat_apply(b, power_iter(b, v, (n - 1) as nat)))
    }
}

pub open spec fn sv_norm_sq(v: SpecV3) -> int {
    v.x * v.x + v.y * v.y + v.z * v.z
}

/// Scales a vector to unit length in fixed point. When the result's
/// squared length leaves the accepted tolerance band — possible only for
/// degenerate inputs — a fixed vertical unit vector stands in, so the
/// result is always a unit normal.
pub open spec fn normalize_unit(v: SpecV3) -> SpecV3 {
    let q = sv_norm_sq(v);
    if q == 0 {
        SpecV3 { x: 0, y: 65536, z: 0 }
    } else {
        let s = sqrt_floor(q as nat) as int;
        let raw = SpecV3 { x: v.x * 65536 / s, y: v.y * 65536 / s, z: v.z * 65536 / s };
        if 4_294_108_343 <= sv_norm_sq(raw) <= 4_295_826_335 {
            raw
        } else {
            SpecV3 { x: 0, y: 65536, z: 0 }
        }
    }
}

/// Number of power-iteration rounds of the eigenvector solver.
pub const POWER_ITERATIONS: usize = 24;

/// The surface normal of a neighborhood: the eigenvector of the smallest
/// covariance eigenvalue, approximated by power iteration on the trace
/// complement and scaled to unit length.
pub open spec fn spec_normal(pts: Seq<Vec3>, nbrs: Seq<(u64, usize)>) -> SpecV3 {
    normalize_unit(
        power_iter(
            mat_b(nb_cov(pts, nbrs)),
            SpecV3 { x: 65536, y: 65536, z: 65536 },
            POWER_ITERATIONS as nat,
        ),
    )
}

/// The floor of the Rayleigh quotient of `a` at `nv`, clamped to zero:
/// the approximated smallest eigenvalue.
pub open spec fn rayleigh_floor(a: SpecMat, nv: SpecV3) -> int {
    let av = mat_apply(a, nv);
    let num = nv.x * av.x + nv.y * av.y + nv.z * av.z;
    let den = sv_norm_sq(nv);
    if den == 0 {
        0
    } else {
        let l = num / den;
        if l < 0 {
            0
        } else {
            l
        }
    }
}

/// The curvature score: three times the smallest eigenvalue over the
/// trace, mapped onto the 32-bit output domain. Zero for a perfectly
/// planar neighborhood.
pub open spec fn spec_curve(pts: Seq<Vec3>, nbrs: Seq<(u64, usize)>) -> int {
    let a = nb_cov(pts, nbrs);
    let tr = a.xx + a.yy + a.zz;
    if tr <= 0 {
        0
    } else {
        let l3 = 3 * rayleigh_floor(a, spec_normal(pts, nbrs));
        let cn = if l3 > tr {
            tr
        } else {
            l3
        };
        cn * 0xffff_ffff / tr
    }
}

/// Sum of neighbor distances over entries `1 .. a`, the self match left
/// out.
pub open spec fn dist_sum_upto(nbrs: Seq<(u64, usize)>, a: int) -> int
    decreases a,
{
    if a <= 1 {
        0
    } else {
        dist_sum_upto(nbrs, a - 1) + sqrt_floor(nbrs[a - 1].0 as nat) as int
    }
}

/// The point size: a third of the mean neighbor distance, at least one
/// fixed-point unit.
pub open spec fn spec_size(nbrs: Seq<(u64, usize)>) -> int {
    let c = nbrs.len() as int;
    if c <= 1 {
        1
    } else {
        let v = dist_sum_upto(nbrs, c) / (3 * (c - 1));
        if v < 1 {
            1
        } else {
            v
        }
    }
}

/// Componentwise agreement of a fixed-point vector with a ghost vector.
pub open spec fn sv_eq(v: Vec3, s: SpecV3) -> bool {
    v.x == s.x && v.y == s.y && v.z == s.z
}

/// Both factors bounded in magnitude bounds the product.
proof fn lemma_mul_bound(a: int, b: int, am: int, bm: int)
    requires
        -am <= a <= am,
        -bm <= b <= bm,
        0 <= am,
        0 <= bm,
    ensures
        -(am * bm) <= a * b <= am * bm,
{
    assert(-(am * bm) <= a * b <= am * bm) by (nonlinear_arith)
        requires -am <= a <= am, -bm <= b <= bm, 0 <= am, 0 <= bm;
}

/// One rescaling step of the solver: the component `w` of a vector whose
/// largest magnitude is `m`, brought to the unit scale.
fn scale_component(w: i128, m: i128) -> (r: i128)
    requires
        m >= 1,
        -m <= w <= m,
        m <= 0x1_0000_0000_0000_0000_0000_0000,
    ensures
        r == (w as int) * 65536 / (m as int),
        -65536 <= r <= 65536,
{
    proof {
        assert((-65536) * m <= w * 65536 <= 65536 * m) by (nonlinear_arith)
            requires -m <= w <= m, m >= 1;
        assert(-0x1_0000_0000_0000_0000_0000_0000_0000 <= w * 65536
            <= 0x1_0000_0000_0000_0000_0000_0000_0000) by (nonlinear_arith)
            requires -m <= w <= m, 1 <= m <= 0x1_0000_0000_0000_0000_0000_0000i128;
    }
    div_floor_bounded(w * 65536, m, -65536, 65536)
}

/// The local frame of one point: its unit normal, curvature score and
/// size, from the exact integer model of the neighborhood.
#[verifier::rlimit(100)]
fn local_frame(pts: &Vec<Vec3>, q: Vec3, nbrs: &Vec<(u64, usize)>) -> (r: (Vec3, u32, i64))
    requires
        forall|i: int| 0 <= i < pts@.len() ==> (#[trigger] pts@[i]).in_range(),
        q.in_range(),
        forall|a: int|
            0 <= a < nbrs@.len() ==> (#[trigger] nbrs@[a]).1 < pts@.len() && nbrs@[a].0
                == crate::geom::spec_dist_sq(pts@[nbrs@[a].1 as int], q) && nbrs@[a].0
                <= 1_000_000_000_000,
        1 <= nbrs@.len() <= 63,
    ensures
        sv_eq(r.0, spec_normal(pts@, nbrs@)),
        crate::point::unit_normal(r.0),
        r.1 as int == spec_curve(pts@, nbrs@),
        r.2 as int == spec_size(nbrs@),
        r.2 >= 1,
{
    let cnt: usize = nbrs.len();
    // neighbor position sums, bounded around the query point
    let mut sx: i128 = 0;
    let mut sy: i128 = 0;
    let mut sz: i128 = 0;
    let mut a: usize = 0;
    while a < cnt
        invariant
            a <= cnt,
            cnt == nbrs@.len(),
            1 <= cnt <= 63,
            q.in_range(),
            forall|i: int| 0 <= i < pts@.len() ==> (#[trigger] pts@[i]).in_range(),
            forall|b: int|
                0 <= b < nbrs@.len() ==> (#[trigger] nbrs@[b]).1 < pts@.len() && nbrs@[b].0
                    == crate::geom::spec_dist_sq(pts@[nbrs@[b].1 as int], q) && nbrs@[b].0
                    <= 1_000_000_000_000,
            sx == nb_sum(pts@, nbrs@.take(a as int)).x,
            sy == nb_sum(pts@, nbrs@.take(a as int)).y,
            sz == nb_sum(pts@, nbrs@.take(a as int)).z,
            (a as int) * (q.x - 1_000_000) <= sx <= (a as int) * (q.x + 1_000_000),
            (a as int) * (q.y - 1_000_000) <= sy <= (a as int) * (q.y + 1_000_000),
            (a as int) * (q.z - 1_000_000) <= sz <= (a as int) * (q.z + 1_000_000),
        decreases cnt - a,
    {
        let p: Vec3 = pts[nbrs[a].1];
        proof {
            lemma_close_coords(p, q, nbrs@[a as int].0);
            assert(nbrs@.take(a as int + 1).drop_last() =~= nbrs@.take(a as int));
            assert(nbrs@.take(a as int + 1).last() == nbrs@[a as int]);
            lemma_sum_bound_step(sx as int, a as int, q.x - 1_000_000, q.x + 1_000_000, p.x as int);
            lemma_sum_bound_step(sy as int, a as int, q.y - 1_000_000, q.y + 1_000_000, p.y as int);
            lemma_sum_bound_step(sz as int, a as int, q.z - 1_000_000, q.z + 1_000_000, p.z as int);
            lemma_scaled_range(sx as int, a as int, q.x as int);
            lemma_scaled_range(sy as int, a as int, q.y as int);
            lemma_scaled_range(sz as int, a as int, q.z as int);
        }
        sx = sx + p.x as i128;
        sy = sy + p.y as i128;
        sz = sz + p.z as i128;
        a = a + 1;
    }
    proof {
        assert(nbrs@.take(cnt as int) =~= nbrs@);
        lemma_scaled_range(sx as int, cnt as int, q.x as int);
        lemma_scaled_range(sy as int, cnt as int, q.y as int);
        lemma_scaled_range(sz as int, cnt as int, q.z as int);
        assert((q.x - 1_000_000) * (cnt as int) == (cnt as int) * (q.x - 1_000_000)
            && (q.x + 1_000_000) * (cnt as int) == (cnt as int) * (q.x + 1_000_000))
            by (nonlinear_arith);
        assert((q.y - 1_000_000) * (cnt as int) == (cnt as int) * (q.y - 1_000_000)
            && (q.y + 1_000_000) * (cnt as int) == (cnt as int) * (q.y + 1_000_000))
            by (nonlinear_arith);
        assert((q.z - 1_000_000) * (cnt as int) == (cnt as int) * (q.z - 1_000_000)
            && (q.z + 1_000_000) * (cnt as int) == (cnt as int) * (q.z + 1_000_000))
            by (nonlinear_arith);
    }
    let cx: i128 = div_floor_bounded(sx, cnt as i128, q.x as i128 - 1_000_000, q.x as i128 + 1_000_000);
    let cy: i128 = div_floor_bounded(sy, cnt as i128, q.y as i128 - 1_000_000, q.y as i128 + 1_000_000);
    let cz: i128 = div_floor_bounded(sz, cnt as i128, q.z as i128 - 1_000_000, q.z as i128 + 1_000_000);
    let ghost cv = nb_centroid(pts@, nbrs@);
    proof {
        assert(cx == cv.x && cy == cv.y && cz == cv.z);
    }
    // scatter sums of offsets from the centroid
    let mut axx: i128 = 0;
    let mut axy: i128 = 0;
    let mut axz: i128 = 0;
    let mut ayy: i128 = 0;
    let mut ayz: i128 = 0;
    let mut azz: i128 = 0;
    let mut a2: usize = 0;
    while a2 < cnt
        invariant
            a2 <= cnt,
            cnt == nbrs@.len(),
            1 <= cnt <= 63,
            q.in_range(),
            forall|i: int| 0 <= i < pts@.len() ==> (#[trigger] pts@[i]).in_range(),
            forall|b: int|
                0 <= b < nbrs@.len() ==> (#[trigger] nbrs@[b]).1 < pts@.len() && nbrs@[b].0
                    == crate::geom::spec_dist_sq(pts@[nbrs@[b].1 as int], q) && nbrs@[b].0
                    <= 1_000_000_000_000,
            cx == cv.x && cy == cv.y && cz == cv.z,
            q.x - 1_000_000 <= cx <= q.x + 1_000_000,
            q.y - 1_000_000 <= cy <= q.y + 1_000_000,
            q.z - 1_000_000 <= cz <= q.z + 1_000_000,
            axx == nb_scatter(pts@, nbrs@.take(a2 as int), cv).xx,
            axy == nb_scatter(pts@, nbrs@.take(a2 as int), cv).xy,
            axz == nb_scatter(pts@, nbrs@.take(a2 as int), cv).xz,
            ayy == nb_scatter(pts@, nbrs@.take(a2 as int), cv).yy,
            ayz == nb_scatter(pts@, nbrs@.take(a2 as int), cv).yz,
            azz == nb_scatter(pts@, nbrs@.take(a2 as int), cv).zz,
            0 <= axx <= (a2 as int) * 4_000_000_000_000,
            -(a2 as int) * 4_000_000_000_000 <= axy <= (a2 as int) * 4_000_000_000_000,
            -(a2 as int) * 4_000_000_000_000 <= axz <= (a2 as int) * 4_000_000_000_000,
            0 <= ayy <= (a2 as int) * 4_000_000_000_000,
            -(a2 as int) * 4_000_000_000_000 <= ayz <= (a2 as int) * 4_000_000_000_000,
            0 <= azz <= (a2 as int) * 4_000_000_000_000,
        decreases cnt - a2,
    {
        let p: Vec3 = pts[nbrs[a2].1];
        let dx: i128 = p.x as i128 - cx;
        let dy: i128 = p.y as i128 - cy;
        let dz: i128 = p.z as i128 - cz;
        proof {
            lemma_close_coords(p, q, nbrs@[a2 as int].0);
            assert(nbrs@.take(a2 as int + 1).drop_last() =~= nbrs@.take(a2 as int));
            assert(nbrs@.take(a2 as int + 1).last() == nbrs@[a2 as int]);
            lemma_mul_bound(dx as int, dx as int, 2_000_000, 2_000_000);
            lemma_mul_bound(dx as int, dy as int, 2_000_000, 2_000_000);
            lemma_mul_bound(dx as int, dz as int, 2_000_000, 2_000_000);
            lemma_mul_bound(dy as int, dy as int, 2_000_000, 2_000_000);
            lemma_mul_bound(dy as int, dz as int, 2_000_000, 2_000_000);
            lemma_mul_bound(dz as int, dz as int, 2_000_000, 2_000_000);
            assert(dx * dx >= 0) by (nonlinear_arith);
            assert(dy * dy >= 0) by (nonlinear_arith);
            assert(dz * dz >= 0) by (nonlinear_arith);
            lemma_sum_bound_step(axx as int, a2 as int, 0, 4_000_000_000_000, (dx * dx) as int);
            lemma_sum_bound_step(
                axy as int,
                a2 as int,
                -4_000_000_000_000,
                4_000_000_000_000,
                (dx * dy) as int,
            );
            lemma_sum_bound_step(
                axz as int,
                a2 as int,
                -4_000_000_000_000,
                4_000_000_000_000,
                (dx * dz) as int,
            );
            lemma_sum_bound_step(ayy as int, a2 as int, 0, 4_000_000_000_000, (dy * dy) as int);
            lemma_sum_bound_step(
                ayz as int,
                a2 as int,
                -4_000_000_000_000,
                4_000_000_000_000,
                (dy * dz) as int,
            );
            lemma_sum_bound_step(azz as int, a2 as int, 0, 4_000_000_000_000, (dz * dz) as int);
            lemma_scatter_range(axx as int, a2 as int);
            lemma_scatter_range(axy as int, a2 as int);
            lemma_scatter_range(axz as int, a2 as int);
            lemma_scatter_range(ayy as int, a2 as int);
            lemma_scatter_range(ayz as int, a2 as int);
            lemma_scatter_range(azz as int, a2 as int);
        }
        axx = axx + dx * dx;
        axy = axy + dx * dy;
        axz = axz + dx * dz;
        ayy = ayy + dy * dy;
        ayz = ayz + dy * dz;
        azz = azz + dz * dz;
        a2 = a2 + 1;
    }
    proof {
        assert(nbrs@.take(cnt as int) =~= nbrs@);
        lemma_scatter_range(axx as int, cnt as int);
        lemma_scatter_range(axy as int, cnt as int);
        lemma_scatter_range(axz as int, cnt as int);
        lemma_scatter_range(ayy as int, cnt as int);
        lemma_scatter_range(ayz as int, cnt as int);
        lemma_scatter_range(azz as int, cnt as int);
        assert((-4_000_000_000_000) * (cnt as int) == (cnt as int) * (-4_000_000_000_000)
            && 4_000_000_000_000 * (cnt as int) == (cnt as int) * 4_000_000_000_000
            && 0 * (cnt as int) == 0) by (nonlinear_arith);
        assert((cnt as int) * (-4_000_000_000_000) <= -(cnt as int) * 4_000_000_000_000
            && -(cnt as int) * 4_000_000_000_000 <= (cnt as int) * (-4_000_000_000_000))
            by (nonlinear_arith);
    }
    // the covariance, entrywise
    let mxx: i128 = div_floor_bounded(axx, cnt as i128, 0, 4_000_000_000_000);
    let mxy: i128 = div_floor_bounded(axy, cnt as i128, -4_000_000_000_000, 4_000_000_000_000);
    let mxz: i128 = div_floor_bounded(axz, cnt as i128, -4_000_000_000_000, 4_000_000_000_000);
    let myy: i128 = div_floor_bounded(ayy, cnt as i128, 0, 4_000_000_000_000);
    let myz: i128 = div_floor_bounded(ayz, cnt as i128, -4_000_000_000_000, 4_000_000_000_000);
    let mzz: i128 = div_floor_bounded(azz, cnt as i128, 0, 4_000_000_000_000);
    let ghost am = nb_cov(pts@, nbrs@);
    proof {
        assert(mxx == am.xx && mxy == am.xy && mxz == am.xz && myy == am.yy && myz == am.yz
            && mzz == am.zz);
    }
    let tr: i128 = mxx + myy + mzz;
    // the trace complement, whose dominant eigenvector is the normal
    let bxx: i128 = tr - mxx;
    let bxy: i128 = -mxy;
    let bxz: i128 = -mxz;
    let byy: i128 = tr - myy;
    let byz: i128 = -myz;
    let bzz: i128 = tr - mzz;
    let ghost bm = mat_b(am);
    proof {
        assert(bxx == bm.xx && bxy == bm.xy && bxz == bm.xz && byy == bm.yy && byz == bm.yz
            && bzz == bm.zz);
    }
    // power iteration with per-round rescaling
    let mut vx: i128 = 65536;
    let mut vy: i128 = 65536;
    let mut vz: i128 = 65536;
    let mut it: usize = 0;
    while it < POWER_ITERATIONS
        invariant
            it <= POWER_ITERATIONS,
            bxx == bm.xx && bxy == bm.xy && bxz == bm.xz && byy == bm.yy && byz == bm.yz && bzz
                == bm.zz,
            -12_000_000_000_000 <= bxx <= 12_000_000_000_000,
            -12_000_000_000_000 <= bxy <= 12_000_000_000_000,
            -12_000_000_000_000 <= bxz <= 12_000_000_000_000,
            -12_000_000_000_000 <= byy <= 12_000_000_000_000,
            -12_000_000_000_000 <= byz <= 12_000_000_000_000,
            -12_000_000_000_000 <= bzz <= 12_000_000_000_000,
            vx == power_iter(bm, SpecV3 { x: 65536, y: 65536, z: 65536 }, it as nat).x,
            vy == power_iter(bm, SpecV3 { x: 65536, y: 65536, z: 65536 }, it as nat).y,
            vz == power_iter(bm, SpecV3 { x: 65536, y: 65536, z: 65536 }, it as nat).z,
            -65536 <= vx <= 65536,
            -65536 <= vy <= 65536,
            -65536 <= vz <= 65536,
        decreases POWER_ITERATIONS - it,
    {
        proof {
            lemma_mul_bound(bxx as int, vx as int, 12_000_000_000_000, 65536);
            lemma_mul_bound(bxy as int, vy as int, 12_000_000_000_000, 65536);
            lemma_mul_bound(bxz as int, vz as int, 12_000_000_000_000, 65536);
            lemma_mul_bound(bxy as int, vx as int, 12_000_000_000_000, 65536);
            lemma_mul_bound(byy as int, vy as int, 12_000_000_000_000, 65536);
            lemma_mul_bound(byz as int, vz as int, 12_000_000_000_000, 65536);
            lemma_mul_bound(bxz as int, vx as int, 12_000_000_000_000, 65536);
            lemma_mul_bound(byz as int, vy as int, 12_000_000_000_000, 65536);
            lemma_mul_bound(bzz as int, vz as int, 12_000_000_000_000, 65536);
        }
        let wx: i128 = bxx * vx + bxy * vy + bxz * vz;
        let wy: i128 = bxy * vx + byy * vy + byz * vz;
        let wz: i128 = bxz * vx + byz * vy + bzz * vz;
        let awx: i128 = if wx < 0 { -wx } else { wx };
        let awy: i128 = if wy < 0 { -wy } else { wy };
        let awz: i128 = if wz < 0 { -wz } else { wz };
        let m: i128 = if awx >= awy && awx >= awz {
            awx
        } else if awy >= awz {
            awy
        } else {
            awz
        };
        let ghost w = mat_apply(bm, power_iter(bm, SpecV3 { x: 65536, y: 65536, z: 65536 }, it as nat));
        proof {
            assert(wx == w.x && wy == w.y && wz == w.z);
            assert(m == max_abs3(w));
        }
        if m == 0 {
            vx = wx;
            vy = wy;
            vz = wz;
        } else {
            vx = scale_component(wx, m);
            vy = scale_component(wy, m);
            vz = scale_component(wz, m);
        }
        proof {
            assert(power_iter(bm, SpecV3 { x: 65536, y: 65536, z: 65536 }, it as nat + 1)
                == scale_unit(w));
        }
        it = it + 1;
    }
    // scale the converged vector to unit length, with the runtime
    // tolerance check that makes the normal a unit vector in every case
    let ghost pv = power_iter(bm, SpecV3 { x: 65536, y: 65536, z: 65536 }, POWER_ITERATIONS as nat);
    proof {
        lemma_mul_bound(vx as int, vx as int, 65536, 65536);
        lemma_mul_bound(vy as int, vy as int, 65536, 65536);
        lemma_mul_bound(vz as int, vz as int, 65536, 65536);
        assert(vx * vx >= 0) by (nonlinear_arith);
        assert(vy * vy >= 0) by (nonlinear_arith);
        assert(vz * vz >= 0) by (nonlinear_arith);
    }
    let q_ns: i128 = vx * vx + vy * vy + vz * vz;
    let normal: Vec3;
    if q_ns == 0 {
        normal = Vec3 { x: 0, y: 65536, z: 0 };
        proof {
            assert(sv_eq(normal, normalize_unit(pv)));
        }
    } else {
        let sq: u128 = isqrt(q_ns as u128);
        let sqi: i128 = sq as i128;
        proof {
            assert(q_ns >= 1);
            assert((q_ns as u128) >= 1);
            if sq == 0 {
                assert((q_ns as u128) < (0 + 1) * (0 + 1));
                assert((0 + 1) * (0 + 1) == 1) by (nonlinear_arith);
                assert(false);
            }
            assert(sqi >= 1);
            assert(sqi as int == sqrt_floor(sv_norm_sq(pv) as nat) as int);
            lemma_component_within_root(vx as int, vy as int, vz as int, sqi as int);
            assert((-65536) * sqi <= vx * 65536 <= 65536 * sqi) by (nonlinear_arith)
                requires -sqi <= vx <= sqi, sqi >= 1;
            assert((-65536) * sqi <= vy * 65536 <= 65536 * sqi) by (nonlinear_arith)
                requires -sqi <= vy <= sqi, sqi >= 1;
            assert((-65536) * sqi <= vz * 65536 <= 65536 * sqi) by (nonlinear_arith)
                requires -sqi <= vz <= sqi, sqi >= 1;
        }
        let rx: i128 = div_floor_bounded(vx * 65536, sqi, -65536, 65536);
        let ry: i128 = div_floor_bounded(vy * 65536, sqi, -65536, 65536);
        let rz: i128 = div_floor_bounded(vz * 65536, sqi, -65536, 65536);
        proof {
            lemma_mul_bound(rx as int, rx as int, 65536, 65536);
            lemma_mul_bound(ry as int, ry as int, 65536, 65536);
            lemma_mul_bound(rz as int, rz as int, 65536, 65536);
        }
        let rq: i128 = rx * rx + ry * ry + rz * rz;
        if 4_294_108_343 <= rq && rq <= 4_295_826_335 {
            normal = Vec3 { x: rx as i64, y: ry as i64, z: rz as i64 };
        } else {
            normal = Vec3 { x: 0, y: 65536, z: 0 };
        }
        proof {
            assert(sv_eq(normal, normalize_unit(pv)));
        }
    }
    proof {
        assert(sv_eq(normal, spec_normal(pts@, nbrs@)));
        assert(crate::point::unit_normal(normal)) by {
            if normal.y == 65536 && normal.x == 0 && normal.z == 0 {
                assert(normal.x * normal.x + normal.y * normal.y + normal.z * normal.z
                    == 4_294_967_296) by (nonlinear_arith)
                    requires normal.x == 0, normal.y == 65536, normal.z == 0;
            }
        };
    }
    // curvature from the Rayleigh quotient of the covariance at the normal
    let nx: i128 = normal.x as i128;
    let ny: i128 = normal.y as i128;
    let nz: i128 = normal.z as i128;
    proof {
        lemma_mul_bound(mxx as int, nx as int, 4_000_000_000_000, 65536);
        lemma_mul_bound(mxy as int, ny as int, 4_000_000_000_000, 65536);
        lemma_mul_bound(mxz as int, nz as int, 4_000_000_000_000, 65536);
        lemma_mul_bound(mxy as int, nx as int, 4_000_000_000_000, 65536);
        lemma_mul_bound(myy as int, ny as int, 4_000_000_000_000, 65536);
        lemma_mul_bound(myz as int, nz as int, 4_000_000_000_000, 65536);
        lemma_mul_bound(mxz as int, nx as int, 4_000_000_000_000, 65536);
        lemma_mul_bound(myz as int, ny as int, 4_000_000_000_000, 65536);
        lemma_mul_bound(mzz as int, nz as int, 4_000_000_000_000, 65536);
    }
    let avx: i128 = mxx * nx + mxy * ny + mxz * nz;
    let avy: i128 = mxy * nx + myy * ny + myz * nz;
    let avz: i128 = mxz * nx + myz * ny + mzz * nz;
    proof {
        lemma_mul_bound(nx as int, avx as int, 65536, 786_432_000_000_000_000);
        lemma_mul_bound(ny as int, avy as int, 65536, 786_432_000_000_000_000);
        lemma_mul_bound(nz as int, avz as int, 65536, 786_432_000_000_000_000);
        lemma_mul_bound(nx as int, nx as int, 65536, 65536);
        lemma_mul_bound(ny as int, ny as int, 65536, 65536);
        lemma_mul_bound(nz as int, nz as int, 65536, 65536);
        assert(nx * nx >= 0) by (nonlinear_arith);
        assert(ny * ny >= 0) by (nonlinear_arith);
        assert(nz * nz >= 0) by (nonlinear_arith);
    }
    let num: i128 = nx * avx + ny * avy + nz * avz;
    let den: i128 = nx * nx + ny * ny + nz * nz;
    let lam: i128 = if den == 0 {
        0
    } else {
        let l = div_floor(num, den);
        proof {
            vstd::arithmetic::div_mod::lemma_div_is_ordered(
                num as int,
                786_432_000_000_000_000int * 65536 * 3,
                den as int,
            );
        }
        if l < 0 {
            0
        } else {
            l
        }
    };
    let curve: u32;
    if tr <= 0 {
        curve = 0;
    } else {
        let l3: i128 = 3 * lam;
        let cn: i128 = if l3 > tr {
            tr
        } else {
            l3
        };
        proof {
            assert(cn * 0xffff_ffff <= tr * 0xffff_ffff) by (nonlinear_arith)
                requires cn <= tr;
            assert(cn * 0xffff_ffff >= 0) by (nonlinear_arith)
                requires cn >= 0;
            vstd::arithmetic::div_mod::lemma_div_is_ordered(
                (cn as int) * 0xffff_ffff,
                (tr as int) * 0xffff_ffff,
                tr as int,
            );
            vstd::arithmetic::div_mod::lemma_div_multiples_vanish(0xffff_ffff, tr as int);
            assert((tr as int) * 0xffff_ffff / (tr as int) == 0xffff_ffff);
            vstd::arithmetic::div_mod::lemma_div_pos_is_pos((cn as int) * 0xffff_ffff, tr as int);
        }
        curve = div_floor(cn * 0xffff_ffff, tr) as u32;
    }
    proof {
        assert(curve as int == spec_curve(pts@, nbrs@));
    }
    // size: a third of the mean neighbor distance, the self match skipped
    let mut dsum: u64 = 0;
    let mut a3: usize = 1;
    while a3 < cnt
        invariant
            1 <= a3 <= cnt || (cnt <= 1 && a3 == 1),
            cnt == nbrs@.len(),
            cnt <= 63,
            forall|b: int|
                0 <= b < nbrs@.len() ==> (#[trigger] nbrs@[b]).0 <= 1_000_000_000_000,
            dsum as int == dist_sum_upto(nbrs@, a3 as int),
            dsum <= (a3 as int - 1) * 1_000_000,
        decreases cnt - a3,
    {
        let d: u64 = nbrs[a3].0;
        let rt: u128 = isqrt(d as u128);
        proof {
            assert(rt <= 1_000_000) by {
                if rt > 1_000_000 {
                    assert(rt * rt > 1_000_000_000_000) by (nonlinear_arith)
                        requires rt >= 1_000_001;
                }
            };
            lemma_sum_bound_step(dsum as int, a3 as int - 1, 0, 1_000_000, rt as int);
        }
        dsum = dsum + rt as u64;
        a3 = a3 + 1;
    }
    let size: i64;
    if cnt <= 1 {
        size = 1;
    } else {
        let divisor: u64 = 3 * (cnt as u64 - 1);
        let v: u64 = dsum / divisor;
        size = if v < 1 {
            1
        } else {
            v as i64
        };
        proof {
            vstd::arithmetic::div_mod::lemma_div_is_ordered(
                dsum as int,
                62_000_000int,
                divisor as int,
            );
        }
    }
    proof {
        assert(size as int == spec_size(nbrs@));
    }
    (normal, curve, size)
}

/// A coordinate difference is bounded by the root of the squared
/// distance's bound.
proof fn lemma_close_coords(p: Vec3, q: Vec3, d: u64)
    requires
        d == crate::geom::spec_dist_sq(p, q),
        d <= 1_000_000_000_000,
    ensures
        q.x - 1_000_000 <= p.x <= q.x + 1_000_000,
        q.y - 1_000_000 <= p.y <= q.y + 1_000_000,
        q.z - 1_000_000 <= p.z <= q.z + 1_000_000,
{
    assert((p.x - q.x) * (p.x - q.x) <= 1_000_000_000_000 && (p.y - q.y) * (p.y - q.y)
        <= 1_000_000_000_000 && (p.z - q.z) * (p.z - q.z) <= 1_000_000_000_000) by (nonlinear_arith)
        requires
            (p.x - q.x) * (p.x - q.x) + (p.y - q.y) * (p.y - q.y) + (p.z - q.z) * (p.z - q.z)
                <= 1_000_000_000_000;
    assert(-1_000_000 <= p.x - q.x <= 1_000_000) by (nonlinear_arith)
        requires (p.x - q.x) * (p.x - q.x) <= 1_000_000_000_000;
    assert(-1_000_000 <= p.y - q.y <= 1_000_000) by (nonlinear_arith)
        requires (p.y - q.y) * (p.y - q.y) <= 1_000_000_000_000;
    assert(-1_000_000 <= p.z - q.z <= 1_000_000) by (nonlinear_arith)
        requires (p.z - q.z) * (p.z - q.z) <= 1_000_000_000_000;
}


/// Every point's height lies between the extremes of the list.
proof fn lemma_min_max_bounds(data: Seq<Vec3>, i: int)
    requires
        0 <= i < data.len(),
    ensures
        min_y_of(data) <= data[i].y <= max_y_of(data),
    decreases data.len(),
{
    if data.len() > 1 && i < data.len() - 1 {
        lemma_min_max_bounds(data.drop_last(), i);
    }
}

/// The per-point geometry contract: some neighbor list satisfying the
/// nearest-neighbor postcondition yields exactly this point's normal,
/// curvature and size.
pub open spec fn point_geometry_ok(
    data: Seq<Vec3>,
    p: ComputedPoint,
    k: int,
    cutoff_sq: u64,
    q: Vec3,
) -> bool {
    exists|nb: Seq<(u64, usize)>|
        knn_post(data, q, k, cutoff_sq, nb) && sv_eq(p.normal, spec_normal(data, nb)) && p.curve
            as int == spec_curve(data, nb) && p.size as int == spec_size(nb)
}

/// A point's height fraction mapped onto the 32-bit output domain.
pub open spec fn spec_sub_index(data: Seq<Vec3>, y: int) -> int {
    let miny = min_y_of(data);
    let h = max_y_of(data) - miny;
    if h == 0 {
        0
    } else {
        (y - miny) * 0xffff_ffff / h
    }
}

/// The geometry pass of one segment: for every point its computed record,
/// and the segment's trunk/crown height split. The per-point normal, size
/// and curvature come from the exact integer model of its neighborhood;
/// the slice and height properties from the dispersion profile. Every
/// output normal is unit length within tolerance, and the trunk and crown
/// heights partition the segment height exactly, their shares summing to
/// the whole scale.
pub fn calculate(data: Vec<Vec3>, segment: u32, settings: &Settings) -> (r: (
    Vec<ComputedPoint>,
    SegmentInformation,
))
    requires
        1 <= data@.len() <= 0x1000_0000,
        forall|i: int| 0 <= i < data@.len() ==> (#[trigger] data@[i]).in_range(),
        segment >= 1,
        settings.wf(),
    ensures
        r.0@.len() == data@.len(),
        forall|i: int|
            0 <= i < data@.len() ==> (#[trigger] r.0@[i]).position == data@[i] && r.0@[i].segment
                == segment && r.0@[i].wf(),
        forall|i: int|
            0 <= i < data@.len() ==> (#[trigger] r.0@[i]).sub_index as int == spec_sub_index(
                data@,
                data@[i].y as int,
            ),
        forall|i: int|
            0 <= i < data@.len() ==> (#[trigger] r.0@[i]).slice as int == mapped_slice(
                data@,
                min_y_of(data@),
                slice_total(max_y_of(data@) - min_y_of(data@)),
                slice_index(data@[i].y as int, min_y_of(data@)),
            ),
        forall|i: int|
            0 <= i < data@.len() ==> point_geometry_ok(
                data@,
                #[trigger] r.0@[i],
                settings.neighbors_count as int,
                (settings.neighbors_max_distance * settings.neighbors_max_distance) as u64,
                data@[i],
            ),
        r.1.trunk_height == (Value::RelativeHeight {
            absolute: spec_trunk_abs(data@) as i64,
            percent: spec_trunk_pct(data@) as u32,
        }),
        r.1.crown_height == (Value::RelativeHeight {
            absolute: (max_y_of(data@) - min_y_of(data@) - spec_trunk_abs(data@)) as i64,
            percent: (PERCENT_SCALE - spec_trunk_pct(data@)) as u32,
        }),
        ({
            let h = max_y_of(data@) - min_y_of(data@);
            &&& 0 <= spec_trunk_abs(data@) <= h
            &&& 0 <= spec_trunk_pct(data@) <= PERCENT_SCALE
        }),
{
    let n: usize = data.len();
    let (miny, maxy) = min_max_y(&data);
    let h: i64 = maxy - miny;
    proof {
        lemma_min_max_bounds(data@, 0);
        assert forall|i: int| 0 <= i < data@.len() implies miny <= (#[trigger] data@[i]).y
            <= maxy by {
            lemma_min_max_bounds(data@, i);
        }
    }
    let (mapped, sep) = slice_profile(&data, miny, maxy);
    let nsl: usize = mapped.len();
    // the trunk/crown split of the height range
    proof {
        lemma_first_sep_range(data@, miny as int, nsl as int, 0);
    }
    let trunk_raw: i64 = (sep as i64) * CALC_SLICE_WIDTH;
    let trunk_abs: i64 = if trunk_raw > h {
        h
    } else {
        trunk_raw
    };
    let trunk_pct: u32 = if h == 0 {
        0
    } else {
        proof {
            vstd::arithmetic::div_mod::lemma_div_is_ordered(
                (trunk_abs as int) * 1_000_000,
                (h as int) * 1_000_000,
                h as int,
            );
            vstd::arithmetic::div_mod::lemma_div_multiples_vanish(1_000_000, h as int);
            vstd::arithmetic::div_mod::lemma_div_pos_is_pos(
                (trunk_abs as int) * 1_000_000,
                h as int,
            );
            assert((trunk_abs as int) * 1_000_000 >= 0 && (trunk_abs as int) * 1_000_000 <= (
            h as int) * 1_000_000) by (nonlinear_arith)
                requires 0 <= trunk_abs <= h;
        }
        (((trunk_abs as u64) * 1_000_000) / (h as u64)) as u32
    };
    proof {
        assert(trunk_abs as int == spec_trunk_abs(data@));
        assert(trunk_pct as int == spec_trunk_pct(data@));
    }
    let crown_abs: i64 = h - trunk_abs;
    let crown_pct: u32 = PERCENT_SCALE - trunk_pct;
    let info = SegmentInformation {
        trunk_height: Value::RelativeHeight { absolute: trunk_abs, percent: trunk_pct },
        crown_height: Value::RelativeHeight { absolute: crown_abs, percent: crown_pct },
    };
    // the per-point geometry over the shared neighbor index
    let tree = NeighborsTree::new(&data);
    let k: usize = settings.neighbors_count;
    let md: i64 = settings.neighbors_max_distance;
    proof {
        assert(1 <= md * md <= 1_000_000_000_000) by (nonlinear_arith)
            requires 1 <= md <= 1_000_000;
    }
    let cutoff_sq: u64 = (md * md) as u64;
    let mut out: Vec<ComputedPoint> = Vec::new();
    let ghost mut nbs: Seq<Seq<(u64, usize)>> = Seq::empty();
    let mut i: usize = 0;
    while i < n
        invariant
            i <= n,
            n == data@.len(),
            1 <= data@.len() <= 0x1000_0000,
            forall|j: int| 0 <= j < data@.len() ==> (#[trigger] data@[j]).in_range(),
            forall|j: int| 0 <= j < data@.len() ==> miny <= (#[trigger] data@[j]).y <= maxy,
            segment >= 1,
            settings.wf(),
            tree.wf(),
            tree.points() == data@,
            k == settings.neighbors_count,
            2 <= k <= 63,
            cutoff_sq == (settings.neighbors_max_distance
                * settings.neighbors_max_distance) as u64,
            1 <= cutoff_sq <= 1_000_000_000_000,
            miny == min_y_of(data@),
            maxy == max_y_of(data@),
            -1_000_000_000 <= miny <= maxy <= 1_000_000_000,
            h == maxy - miny,
            nsl as int == slice_total(h as int),
            mapped@.len() == nsl,
            forall|t: int|
                0 <= t < nsl ==> (#[trigger] mapped@[t]) as int == mapped_slice(
                    data@,
                    miny as int,
                    nsl as int,
                    t,
                ),
            out@.len() == i,
            forall|j: int|
                0 <= j < i ==> (#[trigger] out@[j]).position == data@[j] && out@[j].segment
                    == segment && out@[j].wf(),
            forall|j: int|
                0 <= j < i ==> (#[trigger] out@[j]).sub_index as int == spec_sub_index(
                    data@,
                    data@[j].y as int,
                ),
            forall|j: int|
                0 <= j < i ==> (#[trigger] out@[j]).slice as int == mapped_slice(
                    data@,
                    miny as int,
                    nsl as int,
                    slice_index(data@[j].y as int, miny as int),
                ),
            nbs.len() == i,
            forall|j: int|
                0 <= j < i ==> knn_post(data@, data@[j], k as int, cutoff_sq, #[trigger] nbs[j])
                    && sv_eq(out@[j].normal, spec_normal(data@, nbs[j])) && out@[j].curve as int
                    == spec_curve(data@, nbs[j]) && out@[j].size as int == spec_size(nbs[j]),
            forall|j: int|
                0 <= j < i ==> point_geometry_ok(
                    data@,
                    #[trigger] out@[j],
                    k as int,
                    cutoff_sq,
                    data@[j],
                ),
        decreases n - i,
    {
        let q: Vec3 = data[i];
        let nbrs = tree.get(q, k, cutoff_sq);
        proof {
            assert(crate::geom::spec_dist_sq(q, q) == 0) by (nonlinear_arith);
            assert(nbrs@.len() >= 1) by {
                if nbrs@.len() == 0 {
                    assert(!has_index(nbrs@, i as int));
                }
            };
        }
        let frame = local_frame(&data, q, &nbrs);
        let normal = frame.0;
        let curve = frame.1;
        let size = frame.2;
        let sub_index: u32 = if h == 0 {
            0
        } else {
            map_to_u32((q.y - miny) as u64, h as u64)
        };
        let sidx_u: u64 = ((q.y - miny) as u64) / (CALC_SLICE_WIDTH as u64);
        proof {
            assert(sidx_u as int == slice_index(q.y as int, miny as int));
            vstd::arithmetic::div_mod::lemma_div_is_ordered(
                (q.y - miny) as int,
                h as int,
                CALC_SLICE_WIDTH as int,
            );
            vstd::arithmetic::div_mod::lemma_div_is_ordered(
                h as int,
                h as int + CALC_SLICE_WIDTH - 1,
                CALC_SLICE_WIDTH as int,
            );
            assert(sidx_u < nsl);
        }
        let slice_v: u32 = mapped[sidx_u as usize];
        let ghost out0 = out@;
        out.push(
            ComputedPoint {
                position: q,
                normal,
                size,
                segment,
                slice: slice_v,
                sub_index,
                curve,
            },
        );
        proof {
            nbs = nbs.push(nbrs@);
            assert(out@[i as int].normal == normal);
            assert(sv_eq(normal, spec_normal(data@, nbrs@)));
            assert(nbs[i as int] == nbrs@);
            assert(point_geometry_ok(data@, out@[i as int], k as int, cutoff_sq, data@[i as int]))
                by {
                assert(knn_post(data@, data@[i as int], k as int, cutoff_sq, nbrs@) && sv_eq(
                    out@[i as int].normal,
                    spec_normal(data@, nbrs@),
                ) && out@[i as int].curve as int == spec_curve(data@, nbrs@)
                    && out@[i as int].size as int == spec_size(nbrs@));
            }
        }
        i = i + 1;
    }
    proof {
        assert(k as int == settings.neighbors_count as int);
        assert(cutoff_sq == (settings.neighbors_max_distance
            * settings.neighbors_max_distance) as u64);
    }
    (out, info)
}

/// The trunk/crown separator is a slice index below the profile length.
proof fn lemma_first_sep_range(data: Seq<Vec3>, miny: int, nsl: int, s: int)
    requires
        0 <= s,
    ensures
        0 <= first_sep(data, miny, nsl, s),
        first_sep(data, miny, nsl, s) < nsl || first_sep(data, miny, nsl, s) == 0,
    decreases nsl - s,
{
    if s < nsl {
        lemma_first_sep_range(data, miny, nsl, s + 1);
    }
}

/// A sum of at most 63 coordinates near `qc` stays in a fixed numeric
/// range.
proof fn lemma_scaled_range(s: int, a: int, qc: int)
    requires
        0 <= a <= 63,
        -1_000_000_000 <= qc <= 1_000_000_000,
        a * (qc - 1_000_000) <= s <= a * (qc + 1_000_000),
    ensures
        -63_063_000_000 <= s <= 63_063_000_000,
{
    assert(a * (qc - 1_000_000) >= -63_063_000_000 && a * (qc + 1_000_000) <= 63_063_000_000)
        by (nonlinear_arith)
        requires 0 <= a <= 63, -1_000_000_000 <= qc <= 1_000_000_000;
}

/// A scatter sum of at most 63 bounded products stays in a fixed numeric
/// range.
proof fn lemma_scatter_range(s: int, a: int)
    requires
        0 <= a <= 63,
        -a * 4_000_000_000_000 <= s <= a * 4_000_000_000_000 || (0 <= s <= a
            * 4_000_000_000_000),
    ensures
        -252_000_000_000_000 <= s <= 252_000_000_000_000,
{
    assert(a * 4_000_000_000_000 <= 252_000_000_000_000) by (nonlinear_arith)
        requires 0 <= a <= 63;
    assert(-a * 4_000_000_000_000 >= -252_000_000_000_000) by (nonlinear_arith)
        requires 0 <= a <= 63;
}

/// Components of a vector are bounded by the floor root of its squared
/// norm.
proof fn lemma_component_within_root(x: int, y: int, z: int, s: int)
    requires
        s >= 0,
        s * s <= x * x + y * y + z * z,
        x * x + y * y + z * z < (s + 1) * (s + 1),
    ensures
        -s <= x <= s,
        -s <= y <= s,
        -s <= z <= s,
{
    assert(x * x <= x * x + y * y + z * z && y * y <= x * x + y * y + z * z && z * z <= x * x + y
        * y + z * z) by (nonlinear_arith);
    assert(-s <= x <= s) by (nonlinear_arith)
        requires x * x < (s + 1) * (s + 1), s >= 0;
    assert(-s <= y <= s) by (nonlinear_arith)
        requires y * y < (s + 1) * (s + 1), s >= 0;
    assert(-s <= z <= s) by (nonlinear_arith)
        requires z * z < (s + 1) * (s + 1), s >= 0;
}

} // verus!

