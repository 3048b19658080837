//! Streaming segmentation of the point stream into per-tree groups.
//!
//! Each incoming point joins every earlier point that lies within the
//! configured distance in the same or an adjacent horizontal slice; all
//! groups it touches merge under the smallest of their identifiers, and a
//! point out of range of everything opens a new group. Finalizing returns
//! the groups of at least the configured size, renumbered densely in order
//! of first appearance. The whole process is an exact function of the
//! stream: every step is pinned to the spec-level model, which is what the
//! determinism law states.

use crate::geom::{dist_sq, spec_dist_sq, Vec3, MAX_COORD};
use crate::Settings;
use vstd::prelude::*;

verus! {

/// The segmenting parameters: the floor of the vertical range, the slice
/// width, and the squared combine distance.
#[derive(Clone, Copy, PartialEq, Eq, Structural, Debug)]
pub struct SegConfig {
    pub min_y: i64,
    pub slice_width: i64,
    pub max_dist_sq: u64,
}

impl SegConfig {
    pub open spec fn wf(self) -> bool {
        &&& self.slice_width >= 1
        &&& self.min_y >= -MAX_COORD
    }
}

/// The horizontal slice a height falls into.
pub open spec fn slice_of(y: int, cfg: SegConfig) -> int {
    (y - cfg.min_y) / (cfg.slice_width as int)
}

/// Two points combine when they are within the configured distance and at
/// most one slice apart.
pub open spec fn near(a: Vec3, b: Vec3, cfg: SegConfig) -> bool {
    &&& spec_dist_sq(a, b) <= cfg.max_dist_sq
    &&& -1 <= slice_of(a.y as int, cfg) - slice_of(b.y as int, cfg) <= 1
}

/// Whether stored point `i` combines with the incoming point `p`.
pub open spec fn hit(pts: Seq<Vec3>, p: Vec3, cfg: SegConfig, i: int) -> bool {
    0 <= i < pts.len() && near(pts[i], p, cfg)
}

/// The smallest class identifier among the stored points below index `n`
/// that combine with `p`, or nothing when none does.
pub open spec fn min_hit_class(
    pts: Seq<Vec3>,
    classes: Seq<usize>,
    p: Vec3,
    cfg: SegConfig,
    n: int,
) -> Option<usize>
    decreases n,
{
    if n <= 0 {
        None
    } else {
        let rest = min_hit_class(pts, classes, p, cfg, n - 1);
        if hit(pts, p, cfg, n - 1) {
            match rest {
                Option::None => Some(classes[n - 1]),
                Option::Some(m) => if classes[n - 1] < m {
                    Some(classes[n - 1])
                } else {
                    Some(m)
                },
            }
        } else {
            rest
        }
    }
}

/// Whether `c` is the class of some stored point that combines with `p`.
pub open spec fn is_hit_class(
    pts: Seq<Vec3>,
    classes: Seq<usize>,
    p: Vec3,
    cfg: SegConfig,
    c: usize,
) -> bool {
    exists|i: int| hit(pts, p, cfg, i) && classes[i] == c
}

/// One segmentation step: the class assignment after point `p` arrives.
/// A fresh point gets its own index as class; otherwise every touched
/// class collapses onto the smallest one.
pub open spec fn step_classes(
    pts: Seq<Vec3>,
    classes: Seq<usize>,
    p: Vec3,
    cfg: SegConfig,
) -> Seq<usize> {
    match min_hit_class(pts, classes, p, cfg, pts.len() as int) {
        Option::None => classes.push(classes.len() as usize),
        Option::Some(m) => Seq::new(
            classes.len(),
            |j: int|
                if is_hit_class(pts, classes, p, cfg, classes[j]) {
                    m
                } else {
                    classes[j]
                },
        ).push(m),
    }
}

/// The class assignment after a whole stream, folding `step_classes`.
pub open spec fn run_classes(stream: Seq<Vec3>, cfg: SegConfig) -> Seq<usize>
    decreases stream.len(),
{
    if stream.len() == 0 {
        Seq::empty()
    } else {
        step_classes(
            stream.drop_last(),
            run_classes(stream.drop_last(), cfg),
            stream.last(),
            cfg,
        )
    }
}

/// Segment membership is a pure function of the point stream and the
/// settings: two runs over the same stream produce the same class
/// assignment, hence the same segments. Together with the contracts of
/// `Segmenter::add_point` and `Segmenter::segments` — which pin the state
/// after every point to `run_classes` of the stream so far — repeated runs
/// cannot diverge.
pub proof fn lemma_segmenter_deterministic(
    s1: Seq<Vec3>,
    s2: Seq<Vec3>,
    cfg: SegConfig,
    min_size: int,
)
    requires
        s1 == s2,
    ensures
        run_classes(s1, cfg) == run_classes(s2, cfg),
        surviving_classes(s1, run_classes(s1, cfg), min_size, s1.len() as int)
            == surviving_classes(s2, run_classes(s2, cfg), min_size, s2.len() as int),
        forall|c: usize, n: int|
            #[trigger] class_points_upto(s1, run_classes(s1, cfg), c, n) == class_points_upto(
                s2,
                run_classes(s2, cfg),
                c,
                n,
            ),
{
}

/// What `min_hit_class` returns: nothing only when nothing combines, and
/// otherwise the least class among the combining points.
proof fn lemma_min_hit_class_props(
    pts: Seq<Vec3>,
    classes: Seq<usize>,
    p: Vec3,
    cfg: SegConfig,
    n: int,
)
    requires
        n <= pts.len(),
    ensures
        match min_hit_class(pts, classes, p, cfg, n) {
            Option::None => forall|i: int| 0 <= i < n ==> !hit(pts, p, cfg, i),
            Option::Some(m) => (exists|i: int| 0 <= i < n && hit(pts, p, cfg, i) && classes[i] == m)
                && (forall|i: int| 0 <= i < n && hit(pts, p, cfg, i) ==> m <= #[trigger] classes[i]),
        },
    decreases n,
{
    if n > 0 {
        lemma_min_hit_class_props(pts, classes, p, cfg, n - 1);
    }
}

/// One finalized group of points sharing a segment identifier.
pub struct Segment {
    id: u32,
    points: Vec<Vec3>,
}

impl Segment {
    /// The dense one-based identifier of this segment.
    pub fn id(&self) -> (r: u32)
        ensures
            r == self.spec_id(),
    {
        self.id
    }

    /// Hands the owned point list to the geometry stage.
    pub fn points(self) -> (r: Vec<Vec3>)
        ensures
            r@ == self.spec_points(),
    {
        self.points
    }

    pub closed spec fn spec_id(self) -> u32 {
        self.id
    }

    pub closed spec fn spec_points(self) -> Seq<Vec3> {
        self.points@
    }
}

/// The points of one class among the first `n` stored points, in stream
/// order.
pub open spec fn class_points_upto(
    pts: Seq<Vec3>,
    classes: Seq<usize>,
    c: usize,
    n: int,
) -> Seq<Vec3>
    decreases n,
{
    if n <= 0 {
        Seq::empty()
    } else {
        class_points_upto(pts, classes, c, n - 1) + if classes[n - 1] == c {
            seq![pts[n - 1]]
        } else {
            Seq::empty()
        }
    }
}

/// The representative indices of the classes that survive finalization:
/// class identifiers in ascending order whose group reaches the minimum
/// size.
pub open spec fn surviving_classes(
    pts: Seq<Vec3>,
    classes: Seq<usize>,
    min_size: int,
    n: int,
) -> Seq<usize>
    decreases n,
{
    if n <= 0 {
        Seq::empty()
    } else {
        surviving_classes(pts, classes, min_size, n - 1) + if classes[n - 1] == (n - 1) as usize
            && class_points_upto(pts, classes, (n - 1) as usize, pts.len() as int).len()
            >= min_size {
            seq![(n - 1) as usize]
        } else {
            Seq::empty()
        }
    }
}

/// At most one surviving class per scanned index.
proof fn lemma_surviving_len(pts: Seq<Vec3>, classes: Seq<usize>, min_size: int, n: int)
    requires
        n >= 0,
    ensures
        surviving_classes(pts, classes, min_size, n).len() <= n,
    decreases n,
{
    if n > 0 {
        lemma_surviving_len(pts, classes, min_size, n - 1);
    }
}

/// The streaming segmenter. Single-threaded by design: later points may
/// merge groups discovered earlier.
pub struct Segmenter {
    cfg: SegConfig,
    min_segment_size: usize,
    pts: Vec<Vec3>,
    classes: Vec<usize>,
}

impl Segmenter {
    /// The point stream consumed so far.
    pub closed spec fn stream(self) -> Seq<Vec3> {
        self.pts@
    }

    /// The class assignment of the stream so far.
    pub closed spec fn spec_classes(self) -> Seq<usize> {
        self.classes@
    }

    pub closed spec fn spec_config(self) -> SegConfig {
        self.cfg
    }

    pub closed spec fn spec_min_segment_size(self) -> usize {
        self.min_segment_size
    }

    /// Structural invariant: stored points are in range and above the
    /// configured floor; every class identifier is the index of its own
    /// smallest member; and the assignment equals the model's fold of the
    /// stream.
    pub closed spec fn wf(self) -> bool {
        &&& self.cfg.wf()
        &&& self.classes@.len() == self.pts@.len()
        &&& forall|i: int|
            0 <= i < self.pts@.len() ==> (#[trigger] self.pts@[i]).in_range() && self.pts@[i].y
                >= self.cfg.min_y
        &&& forall|i: int| 0 <= i < self.classes@.len() ==> (#[trigger] self.classes@[i]) <= i
        &&& forall|i: int|
            0 <= i < self.classes@.len() ==> self.classes@[(#[trigger] self.classes@[i]) as int]
                == self.classes@[i]
        &&& self.classes@ == run_classes(self.pts@, self.cfg)
    }

    /// A fresh segmenter over the vertical range starting at `min_y`.
    pub fn new(min_y: i64, settings: &Settings) -> (r: Segmenter)
        requires
            settings.wf(),
            min_y >= -MAX_COORD,
        ensures
            r.wf(),
            r.stream() == Seq::<Vec3>::empty(),
            r.spec_config() == (SegConfig {
                min_y,
                slice_width: settings.segmenting_slice_width,
                max_dist_sq: (settings.segmenting_max_distance
                    * settings.segmenting_max_distance) as u64,
            }),
            r.spec_min_segment_size() == settings.min_segment_size,
    {
        let d: i64 = settings.segmenting_max_distance;
        proof {
            assert(d * d <= 1_000_000_000_000) by (nonlinear_arith)
                requires 1 <= d <= 1_000_000;
            assert(d * d >= 0) by (nonlinear_arith);
        }
        let max_dist_sq: u64 = (d * d) as u64;
        Segmenter {
            cfg: SegConfig { min_y, slice_width: settings.segmenting_slice_width, max_dist_sq },
            min_segment_size: settings.min_segment_size,
            pts: Vec::new(),
            classes: Vec::new(),
        }
    }

    /// Whether a stored point combines with the incoming one.
    fn is_near(&self, a: Vec3, p: Vec3) -> (r: bool)
        requires
            self.spec_config().wf(),
            a.in_range(),
            p.in_range(),
            a.y >= self.spec_config().min_y,
            p.y >= self.spec_config().min_y,
        ensures
            r == near(a, p, self.spec_config()),
    {
        let d: u64 = dist_sq(a, p);
        if d > self.cfg.max_dist_sq {
            return false;
        }
        let w: u64 = self.cfg.slice_width as u64;
        let sa: u64 = ((a.y - self.cfg.min_y) as u64) / w;
        let sb: u64 = ((p.y - self.cfg.min_y) as u64) / w;
        sa <= sb + 1 && sb <= sa + 1
    }

    /// Consumes one point of the stream, joining and merging groups as the
    /// model prescribes. Must run single-threaded.
    pub fn add_point(&mut self, p: Vec3)
        requires
            old(self).wf(),
            p.in_range(),
            p.y >= old(self).spec_config().min_y,
        ensures
            final(self).wf(),
            final(self).stream() == old(self).stream().push(p),
            final(self).spec_config() == old(self).spec_config(),
            final(self).spec_min_segment_size() == old(self).spec_min_segment_size(),
    {
        let ghost pts0 = self.pts@;
        let ghost classes0 = self.classes@;
        let ghost cfg = self.cfg;
        let n: usize = self.pts.len();
        // first pass: the smallest class among combining points, and the
        // set of classes touched
        let mut found = false;
        let mut m: usize = 0;
        let mut hitcls: Vec<usize> = Vec::new();
        let mut i: usize = 0;
        while i < n
            invariant
                i <= n,
                n == self.pts@.len(),
                self.wf(),
                self.pts@ == pts0,
                self.classes@ == classes0,
                self.cfg == cfg,
                p.in_range(),
                p.y >= cfg.min_y,
                found == min_hit_class(pts0, classes0, p, cfg, i as int).is_some(),
                found ==> min_hit_class(pts0, classes0, p, cfg, i as int) == Some(m),
                forall|k: int|
                    0 <= k < hitcls@.len() ==> is_hit_class(
                        pts0,
                        classes0,
                        p,
                        cfg,
                        #[trigger] hitcls@[k],
                    ),
                forall|j: int|
                    0 <= j < i && hit(pts0, p, cfg, j) ==> hitcls@.contains(
                        #[trigger] classes0[j],
                    ),
            decreases n - i,
        {
            if self.is_near(self.pts[i], p) {
                let c: usize = self.classes[i];
                let ghost pre = hitcls@;
                hitcls.push(c);
                proof {
                    assert(hit(pts0, p, cfg, i as int));
                    assert(hitcls@ == pre.push(c));
                    assert forall|k: int| 0 <= k < hitcls@.len() implies is_hit_class(
                        pts0,
                        classes0,
                        p,
                        cfg,
                        #[trigger] hitcls@[k],
                    ) by {
                        if k < pre.len() {
                            assert(hitcls@[k] == pre[k]);
                        } else {
                            assert(hitcls@[k] == c);
                            assert(hit(pts0, p, cfg, i as int) && classes0[i as int] == c);
                        }
                    }
                    assert forall|j: int| 0 <= j < i + 1 && hit(pts0, p, cfg, j) implies hitcls@
                        .contains(#[trigger] classes0[j]) by {
                        if j < i {
                            assert(pre.contains(classes0[j]));
                            let k = choose|k: int| 0 <= k < pre.len() && pre[k] == classes0[j];
                            assert(hitcls@[k] == classes0[j]);
                        } else {
                            assert(hitcls@[hitcls@.len() - 1] == classes0[j]);
                        }
                    }
                }
                if !found || c < m {
                    m = c;
                }
                found = true;
            } else {
                proof {
                    assert(!hit(pts0, p, cfg, i as int));
                }
            }
            i = i + 1;
        }
        let ghost mh = min_hit_class(pts0, classes0, p, cfg, n as int);
        if !found {
            // out of range of everything: a fresh group
            self.pts.push(p);
            self.classes.push(n);
            proof {
                assert(self.pts@.drop_last() =~= pts0);
                assert(self.pts@.last() == p);
                assert(self.classes@ =~= step_classes(pts0, classes0, p, cfg));
                assert(self.classes@ =~= run_classes(self.pts@, cfg));
                assert forall|k: int| 0 <= k < self.classes@.len() implies (
                #[trigger] self.classes@[k]) <= k by {}
                assert forall|k: int| 0 <= k < self.classes@.len() implies self.classes@[(
                #[trigger] self.classes@[k]) as int] == self.classes@[k] by {
                    if k < n {
                        assert(self.classes@[k] == classes0[k]);
                    }
                }
            }
        } else {
            // merge every touched group onto the smallest identifier
            proof {
                lemma_min_hit_class_props(pts0, classes0, p, cfg, n as int);
            }
            let mut new_classes: Vec<usize> = Vec::new();
            let mut j: usize = 0;
            while j < n
                invariant
                    j <= n,
                    n == self.pts@.len(),
                    self.wf(),
                    self.pts@ == pts0,
                    self.classes@ == classes0,
                    self.cfg == cfg,
                    new_classes@.len() == j,
                    mh == Some(m),
                    mh == min_hit_class(pts0, classes0, p, cfg, n as int),
                    forall|k: int|
                        0 <= k < hitcls@.len() ==> is_hit_class(
                            pts0,
                            classes0,
                            p,
                            cfg,
                            #[trigger] hitcls@[k],
                        ),
                    forall|jj: int|
                        0 <= jj < n && hit(pts0, p, cfg, jj) ==> hitcls@.contains(
                            #[trigger] classes0[jj],
                        ),
                    forall|k: int|
                        0 <= k < j ==> #[trigger] new_classes@[k] == (if is_hit_class(
                            pts0,
                            classes0,
                            p,
                            cfg,
                            classes0[k],
                        ) {
                            m
                        } else {
                            classes0[k]
                        }),
                decreases n - j,
            {
                let c: usize = self.classes[j];
                if contains_usize(&hitcls, c) {
                    new_classes.push(m);
                    proof {
                        let k = choose|k: int| 0 <= k < hitcls@.len() && hitcls@[k] == c;
                        assert(is_hit_class(pts0, classes0, p, cfg, hitcls@[k]));
                    }
                } else {
                    new_classes.push(c);
                    proof {
                        if is_hit_class(pts0, classes0, p, cfg, c) {
                            let jj = choose|jj: int|
                                hit(pts0, p, cfg, jj) && classes0[jj] == c;
                            assert(hitcls@.contains(classes0[jj]));
                            assert(false);
                        }
                    }
                }
                j = j + 1;
            }
            new_classes.push(m);
            self.pts.push(p);
            self.classes = new_classes;
            proof {
                assert(self.pts@.drop_last() =~= pts0);
                assert(self.pts@.last() == p);
                let mapped = Seq::new(
                    classes0.len(),
                    |k: int|
                        if is_hit_class(pts0, classes0, p, cfg, classes0[k]) {
                            m
                        } else {
                            classes0[k]
                        },
                );
                assert(self.classes@ =~= mapped.push(m));
                assert(self.classes@ =~= step_classes(pts0, classes0, p, cfg));
                assert(self.classes@ =~= run_classes(self.pts@, cfg));
                // the merge target is the least touched class, itself the
                // index of its own smallest member
                let iw = choose|iw: int|
                    0 <= iw < n && hit(pts0, p, cfg, iw) && classes0[iw] == m;
                assert(classes0[m as int] == m);
                assert(is_hit_class(pts0, classes0, p, cfg, classes0[m as int]));
                assert(self.classes@[m as int] == m);
                assert forall|k: int| 0 <= k < self.classes@.len() implies (
                #[trigger] self.classes@[k]) <= k by {
                    if k < n {
                        if is_hit_class(pts0, classes0, p, cfg, classes0[k]) {
                            let jj = choose|jj: int|
                                hit(pts0, p, cfg, jj) && classes0[jj] == classes0[k];
                            assert(m <= classes0[jj]);
                        }
                    }
                }
                assert forall|k: int| 0 <= k < self.classes@.len() implies self.classes@[(
                #[trigger] self.classes@[k]) as int] == self.classes@[k] by {
                    if k < n {
                        if is_hit_class(pts0, classes0, p, cfg, classes0[k]) {
                            assert(self.classes@[k] == m);
                        } else {
                            let c = classes0[k];
                            assert(classes0[c as int] == c);
                            if is_hit_class(pts0, classes0, p, cfg, classes0[c as int]) {
                                assert(false);
                            }
                            assert(self.classes@[c as int] == c);
                        }
                    }
                }
            }
        }
    }

    /// Finalizes the stream: returns the groups with at least the minimum
    /// number of members, renumbered densely from one in order of first
    /// appearance; smaller groups are discarded.
    pub fn segments(self) -> (r: Vec<Segment>)
        requires
            self.wf(),
            self.stream().len() < 0xffff_ffff,
        ensures
            ({
                let reps = surviving_classes(
                    self.stream(),
                    self.spec_classes(),
                    self.spec_min_segment_size() as int,
                    self.stream().len() as int,
                );
                &&& r@.len() == reps.len()
                &&& forall|k: int|
                    0 <= k < reps.len() ==> (#[trigger] r@[k]).spec_id() == k + 1
                        && r@[k].spec_points() == class_points_upto(
                        self.stream(),
                        self.spec_classes(),
                        reps[k],
                        self.stream().len() as int,
                    ) && r@[k].spec_points().len() >= self.spec_min_segment_size()
                        && (forall|q: int|
                        0 <= q < r@[k].spec_points().len() ==> (#[trigger] r@[k].spec_points()[q]).in_range())
            }),
    {
        let ghost pts0 = self.pts@;
        let ghost classes0 = self.classes@;
        let n: usize = self.pts.len();
        let mut out: Vec<Segment> = Vec::new();
        let mut c: usize = 0;
        while c < n
            invariant
                c <= n,
                n == pts0.len(),
                self.wf(),
                self.pts@ == pts0,
                self.classes@ == classes0,
                n < 0xffff_ffff,
                out@.len() == surviving_classes(
                    pts0,
                    classes0,
                    self.min_segment_size as int,
                    c as int,
                ).len(),
                forall|k: int|
                    0 <= k < out@.len() ==> (#[trigger] out@[k]).spec_id() == k + 1
                        && out@[k].spec_points() == class_points_upto(
                        pts0,
                        classes0,
                        surviving_classes(
                            pts0,
                            classes0,
                            self.min_segment_size as int,
                            c as int,
                        )[k],
                        n as int,
                    ) && out@[k].spec_points().len() >= self.min_segment_size && (forall|q: int|
                        0 <= q < out@[k].spec_points().len()
                            ==> (#[trigger] out@[k].spec_points()[q]).in_range()),
            decreases n - c,
        {
            let ghost survivors0 = surviving_classes(
                pts0,
                classes0,
                self.min_segment_size as int,
                c as int,
            );
            if self.classes[c] == c {
                // gather the group of class `c`
                let mut group: Vec<Vec3> = Vec::new();
                let mut j: usize = 0;
                while j < n
                    invariant
                        j <= n,
                        n == pts0.len(),
                        self.wf(),
                        self.pts@ == pts0,
                        self.classes@ == classes0,
                        c < n,
                        group@ == class_points_upto(pts0, classes0, c, j as int),
                        forall|q: int| 0 <= q < group@.len() ==> (#[trigger] group@[q]).in_range(),
                    decreases n - j,
                {
                    if self.classes[j] == c {
                        group.push(self.pts[j]);
                        proof {
                            assert(group@ =~= class_points_upto(
                                pts0,
                                classes0,
                                c,
                                j as int + 1,
                            ));
                        }
                    } else {
                        proof {
                            assert(group@ =~= class_points_upto(
                                pts0,
                                classes0,
                                c,
                                j as int + 1,
                            ));
                        }
                    }
                    j = j + 1;
                }
                if group.len() >= self.min_segment_size {
                    proof {
                        lemma_surviving_len(pts0, classes0, self.min_segment_size as int, c as int);
                    }
                    let id: u32 = (out.len() as u32) + 1;
                    let ghost out0 = out@;
                    out.push(Segment { id, points: group });
                    proof {
                        let survivors1 = surviving_classes(
                            pts0,
                            classes0,
                            self.min_segment_size as int,
                            c as int + 1,
                        );
                        assert(survivors1 =~= survivors0.push(c));
                        assert forall|k: int| 0 <= k < out@.len() implies (#[trigger] out@[k]).spec_id()
                            == k + 1 && out@[k].spec_points() == class_points_upto(
                            pts0,
                            classes0,
                            survivors1[k],
                            n as int,
                        ) && out@[k].spec_points().len() >= self.min_segment_size && (forall|q: int|
                            0 <= q < out@[k].spec_points().len()
                                ==> (#[trigger] out@[k].spec_points()[q]).in_range()) by {
                            if k < out0.len() {
                                assert(out@[k] == out0[k]);
                                assert(survivors1[k] == survivors0[k]);
                            } else {
                                assert(out@[k].spec_points() == group@);
                                assert(survivors1[k] == c);
                            }
                        }
                    }
                } else {
                    proof {
                        assert(surviving_classes(
                            pts0,
                            classes0,
                            self.min_segment_size as int,
                            c as int + 1,
                        ) =~= survivors0);
                    }
                }
            } else {
                proof {
                    assert(surviving_classes(
                        pts0,
                        classes0,
                        self.min_segment_size as int,
                        c as int + 1,
                    ) =~= survivors0);
                }
            }
            c = c + 1;
        }
        out
    }
}

/// Whether a vector holds a value.
fn contains_usize(v: &Vec<usize>, x: usize) -> (r: bool)
    ensures
        r == v@.contains(x),
{
    let n: usize = v.len();
    let mut i: usize = 0;
    while i < n
        invariant
            i <= n,
            n == v@.len(),
            forall|j: int| 0 <= j < i ==> v@[j] != x,
        decreases n - i,
    {
        if v[i] == x {
            return true;
        }
        i = i + 1;
    }
    false
}

} // verus!
