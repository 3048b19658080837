//! The static nearest-neighbor index built per segment. A query returns
//! the `k` nearest stored points within a squared-distance cutoff, sorted
//! by distance with the stored index breaking ties, which pins the result
//! uniquely.

use crate::geom::{dist_sq, spec_dist_sq, Vec3};
use vstd::prelude::*;

verus! {

/// Lexicographic order on (squared distance, stored index) pairs.
pub open spec fn lex_less(d1: int, i1: int, d2: int, i2: int) -> bool {
    d1 < d2 || (d1 == d2 && i1 < i2)
}

/// Whether the result list holds stored index `i`.
pub open spec fn has_index(r: Seq<(u64, usize)>, i: int) -> bool {
    exists|a: int| 0 <= a < r.len() && (#[trigger] r[a]).1 == i
}

/// What a nearest-neighbor query returns: at most `k` entries, each a
/// stored index with its exact squared distance to the query, within the
/// cutoff, in strictly ascending (distance, index) order; and no stored
/// point within the cutoff is missing unless the list is full and the
/// point is farther than everything listed.
pub open spec fn knn_post(
    pts: Seq<Vec3>,
    q: Vec3,
    k: int,
    cutoff_sq: u64,
    r: Seq<(u64, usize)>,
) -> bool {
    &&& r.len() <= k
    &&& forall|a: int|
        0 <= a < r.len() ==> (#[trigger] r[a]).1 < pts.len() && r[a].0 == spec_dist_sq(
            pts[r[a].1 as int],
            q,
        ) && r[a].0 <= cutoff_sq
    &&& forall|a: int, b: int|
        0 <= a < b < r.len() ==> lex_less(
            (#[trigger] r[a]).0 as int,
            r[a].1 as int,
            (#[trigger] r[b]).0 as int,
            r[b].1 as int,
        )
    &&& forall|i: int|
        0 <= i < pts.len() && spec_dist_sq(pts[i], q) <= cutoff_sq && !has_index(r, i) ==> r.len()
            == k && lex_less(
            r[r.len() - 1].0 as int,
            r[r.len() - 1].1 as int,
            spec_dist_sq(pts[i], q),
            i,
        )
}

/// The per-segment nearest-neighbor index over a fixed point list.
pub struct NeighborsTree {
    pts: Vec<Vec3>,
}

impl NeighborsTree {
    /// The indexed points.
    pub closed spec fn points(self) -> Seq<Vec3> {
        self.pts@
    }

    pub closed spec fn wf(self) -> bool {
        forall|i: int| 0 <= i < self.pts@.len() ==> (#[trigger] self.pts@[i]).in_range()
    }

    /// Builds the index over a segment's points.
    pub fn new(points: &Vec<Vec3>) -> (r: NeighborsTree)
        requires
            forall|i: int| 0 <= i < points@.len() ==> (#[trigger] points@[i]).in_range(),
        ensures
            r.wf(),
            r.points() == points@,
    {
        let n: usize = points.len();
        let mut pts: Vec<Vec3> = Vec::new();
        let mut i: usize = 0;
        while i < n
            invariant
                i <= n,
                n == points@.len(),
                pts@ == points@.take(i as int),
            decreases n - i,
        {
            pts.push(points[i]);
            proof {
                assert(pts@ =~= points@.take(i as int + 1));
            }
            i = i + 1;
        }
        proof {
            assert(pts@ =~= points@);
        }
        NeighborsTree { pts }
    }

    /// The up-to-`k` nearest stored points to `point` within the cutoff,
    /// closest first.
    pub fn get(&self, point: Vec3, k: usize, cutoff_sq: u64) -> (r: Vec<(u64, usize)>)
        requires
            self.wf(),
            point.in_range(),
            k >= 1,
        ensures
            knn_post(self.points(), point, k as int, cutoff_sq, r@),
    {
        let ghost pts = self.pts@;
        let n: usize = self.pts.len();
        let mut out: Vec<(u64, usize)> = Vec::new();
        let mut t: usize = 0;
        while t < k
            invariant
                self.wf(),
                self.pts@ == pts,
                point.in_range(),
                n == pts.len(),
                t == out@.len(),
                t <= k,
                forall|a: int|
                    0 <= a < out@.len() ==> (#[trigger] out@[a]).1 < pts.len() && out@[a].0
                        == spec_dist_sq(pts[out@[a].1 as int], point) && out@[a].0 <= cutoff_sq,
                forall|a: int, b: int|
                    0 <= a < b < out@.len() ==> lex_less(
                        (#[trigger] out@[a]).0 as int,
                        out@[a].1 as int,
                        (#[trigger] out@[b]).0 as int,
                        out@[b].1 as int,
                    ),
                forall|i: int|
                    0 <= i < pts.len() && spec_dist_sq(pts[i], point) <= cutoff_sq && !has_index(
                        out@,
                        i,
                    ) && out@.len() > 0 ==> lex_less(
                        out@[out@.len() - 1].0 as int,
                        out@[out@.len() - 1].1 as int,
                        spec_dist_sq(pts[i], point),
                        i,
                    ),
            decreases k - t,
        {
            // the least candidate beyond everything already listed
            let mut best_d: u64 = 0;
            let mut best_i: usize = 0;
            let mut have = false;
            let mut i: usize = 0;
            while i < n
                invariant
                    self.wf(),
                    self.pts@ == pts,
                    point.in_range(),
                    n == pts.len(),
                    i <= n,
                    t == out@.len(),
                    forall|a: int|
                        0 <= a < out@.len() ==> (#[trigger] out@[a]).1 < pts.len() && out@[a].0
                            == spec_dist_sq(pts[out@[a].1 as int], point) && out@[a].0
                            <= cutoff_sq,
                    have ==> best_i < pts.len() && best_d == spec_dist_sq(
                        pts[best_i as int],
                        point,
                    ) && best_d <= cutoff_sq && (t == 0 || lex_less(
                        out@[t - 1].0 as int,
                        out@[t - 1].1 as int,
                        best_d as int,
                        best_i as int,
                    )),
                    forall|j: int|
                        0 <= j < i && spec_dist_sq(pts[j], point) <= cutoff_sq && (t == 0
                            || lex_less(
                            out@[t - 1].0 as int,
                            out@[t - 1].1 as int,
                            spec_dist_sq(#[trigger] pts[j], point),
                            j,
                        )) ==> have && (lex_less(
                            best_d as int,
                            best_i as int,
                            spec_dist_sq(pts[j], point),
                            j,
                        ) || (best_d == spec_dist_sq(pts[j], point) && best_i == j)),
                decreases n - i,
            {
                let d: u64 = dist_sq(self.pts[i], point);
                if d <= cutoff_sq {
                    let eligible: bool = if t == 0 {
                        true
                    } else {
                        let last = out[t - 1];
                        last.0 < d || (last.0 == d && last.1 < i)
                    };
                    if eligible {
                        if !have || d < best_d || (d == best_d && i < best_i) {
                            best_d = d;
                            best_i = i;
                            have = true;
                        }
                    }
                }
                i = i + 1;
            }
            if !have {
                // everything within the cutoff is already listed
                proof {
                    assert forall|i2: int|
                        0 <= i2 < pts.len() && spec_dist_sq(pts[i2], point) <= cutoff_sq
                            && !has_index(out@, i2) implies out@.len() == k as int && lex_less(
                        out@[out@.len() - 1].0 as int,
                        out@[out@.len() - 1].1 as int,
                        spec_dist_sq(pts[i2], point),
                        i2,
                    ) by {
                        assert(false);
                    }
                }
                return out;
            }
            let ghost out0 = out@;
            out.push((best_d, best_i));
            proof {
                assert(out@ == out0.push((best_d, best_i)));
                // strictly greater than everything already listed
                assert forall|a: int, b: int| 0 <= a < b < out@.len() implies lex_less(
                    (#[trigger] out@[a]).0 as int,
                    out@[a].1 as int,
                    (#[trigger] out@[b]).0 as int,
                    out@[b].1 as int,
                ) by {
                    if b == out@.len() - 1 {
                        if t > 0 && a < t - 1 {
                            assert(lex_less(
                                out0[a].0 as int,
                                out0[a].1 as int,
                                out0[t - 1].0 as int,
                                out0[t - 1].1 as int,
                            ));
                        }
                    }
                }
                // every unlisted candidate is beyond the new last element
                assert forall|i2: int|
                    0 <= i2 < pts.len() && spec_dist_sq(pts[i2], point) <= cutoff_sq && !has_index(
                        out@,
                        i2,
                    ) && out@.len() > 0 implies lex_less(
                    out@[out@.len() - 1].0 as int,
                    out@[out@.len() - 1].1 as int,
                    spec_dist_sq(pts[i2], point),
                    i2,
                ) by {
                    assert(!has_index(out0, i2)) by {
                        if has_index(out0, i2) {
                            let a = choose|a: int| 0 <= a < out0.len() && (#[trigger] out0[a]).1 == i2;
                            assert(out@[a].1 == i2);
                        }
                    }
                    assert(i2 != best_i) by {
                        if i2 == best_i {
                            assert(out@[out@.len() - 1].1 == i2);
                        }
                    }
                    if t == 0 {
                        assert(lex_less(
                            best_d as int,
                            best_i as int,
                            spec_dist_sq(pts[i2], point),
                            i2,
                        ) || (best_d == spec_dist_sq(pts[i2], point) && best_i == i2));
                    } else {
                        assert(lex_less(
                            out0[t - 1].0 as int,
                            out0[t - 1].1 as int,
                            spec_dist_sq(pts[i2], point),
                            i2,
                        ));
                    }
                }
            }
            t = t + 1;
        }
        proof {
            assert(out@.len() == k as int);
        }
        out
    }
}

} // verus!
