//! The computed per-point record produced by the geometry stage, and its
//! fixed-size binary encoding used for cache buffers.

use crate::codec::{
    i64_bytes, i64_of_bytes, push_i64, push_u32, read_i64, read_u32, u32_bytes, u32_of_bytes,
    lemma_i64_bytes_len, lemma_i64_round_trip, lemma_u32_bytes_len, lemma_u32_round_trip,
};
use crate::geom::Vec3;
use vstd::assert_seqs_equal;
use vstd::prelude::*;

verus! {

/// Fixed-point scale of a unit-length normal vector.
pub const NORMAL_UNIT: i64 = 65536;

/// Smallest accepted squared length of a normal: the unit square less a
/// relative tolerance of one ten-thousandth on the length.
pub const NORM_SQ_MIN: i64 = 4_294_108_343;

/// Largest accepted squared length of a normal: the unit square plus a
/// relative tolerance of one ten-thousandth on the length.
pub const NORM_SQ_MAX: i64 = 4_295_826_335;

/// Squared length of a fixed-point vector.
pub open spec fn norm_sq(v: Vec3) -> int {
    v.x * v.x + v.y * v.y + v.z * v.z
}

/// A normal is unit length within tolerance, with bounded components.
pub open spec fn unit_normal(n: Vec3) -> bool {
    &&& -NORMAL_UNIT <= n.x <= NORMAL_UNIT
    &&& -NORMAL_UNIT <= n.y <= NORMAL_UNIT
    &&& -NORMAL_UNIT <= n.z <= NORMAL_UNIT
    &&& NORM_SQ_MIN <= norm_sq(n) <= NORM_SQ_MAX
}

/// A point annotated with its local surface geometry: position and normal
/// in fixed-point units, a strictly positive size, the owning segment, and
/// the three 32-bit rendered properties.
#[derive(Clone, Copy, PartialEq, Eq, Structural, Debug)]
pub struct ComputedPoint {
    pub position: Vec3,
    pub normal: Vec3,
    pub size: i64,
    pub segment: u32,
    pub slice: u32,
    pub sub_index: u32,
    pub curve: u32,
}

impl ComputedPoint {
    /// The data-model invariant: position in range, unit normal, positive
    /// size, positive segment identifier.
    pub open spec fn wf(self) -> bool {
        &&& self.position.in_range()
        &&& unit_normal(self.normal)
        &&& self.size >= 1
        &&& self.segment >= 1
    }
}

/// Number of bytes of one encoded point record.
pub const POINT_RECORD_SIZE: usize = 72;

/// The 72-byte little-endian record of one computed point.
pub open spec fn point_bytes(p: ComputedPoint) -> Seq<u8> {
    i64_bytes(p.position.x) + i64_bytes(p.position.y) + i64_bytes(p.position.z) + i64_bytes(
        p.normal.x,
    ) + i64_bytes(p.normal.y) + i64_bytes(p.normal.z) + i64_bytes(p.size) + u32_bytes(p.segment)
        + u32_bytes(p.slice) + u32_bytes(p.sub_index) + u32_bytes(p.curve)
}

/// The point held by one 72-byte record.
pub open spec fn point_of_bytes(b: Seq<u8>) -> ComputedPoint
    recommends
        b.len() == POINT_RECORD_SIZE,
{
    ComputedPoint {
        position: Vec3 {
            x: i64_of_bytes(b.subrange(0, 8)),
            y: i64_of_bytes(b.subrange(8, 16)),
            z: i64_of_bytes(b.subrange(16, 24)),
        },
        normal: Vec3 {
            x: i64_of_bytes(b.subrange(24, 32)),
            y: i64_of_bytes(b.subrange(32, 40)),
            z: i64_of_bytes(b.subrange(40, 48)),
        },
        size: i64_of_bytes(b.subrange(48, 56)),
        segment: u32_of_bytes(b.subrange(56, 60)),
        slice: u32_of_bytes(b.subrange(60, 64)),
        sub_index: u32_of_bytes(b.subrange(64, 68)),
        curve: u32_of_bytes(b.subrange(68, 72)),
    }
}

/// Invokes the length facts of every piece of one record.
proof fn lemma_point_pieces_len(p: ComputedPoint)
    ensures
        i64_bytes(p.position.x).len() == 8,
        i64_bytes(p.position.y).len() == 8,
        i64_bytes(p.position.z).len() == 8,
        i64_bytes(p.normal.x).len() == 8,
        i64_bytes(p.normal.y).len() == 8,
        i64_bytes(p.normal.z).len() == 8,
        i64_bytes(p.size).len() == 8,
        u32_bytes(p.segment).len() == 4,
        u32_bytes(p.slice).len() == 4,
        u32_bytes(p.sub_index).len() == 4,
        u32_bytes(p.curve).len() == 4,
{
    lemma_i64_bytes_len(p.position.x);
    lemma_i64_bytes_len(p.position.y);
    lemma_i64_bytes_len(p.position.z);
    lemma_i64_bytes_len(p.normal.x);
    lemma_i64_bytes_len(p.normal.y);
    lemma_i64_bytes_len(p.normal.z);
    lemma_i64_bytes_len(p.size);
    lemma_u32_bytes_len(p.segment);
    lemma_u32_bytes_len(p.slice);
    lemma_u32_bytes_len(p.sub_index);
    lemma_u32_bytes_len(p.curve);
}

pub proof fn lemma_point_bytes_len(p: ComputedPoint)
    ensures
        point_bytes(p).len() == POINT_RECORD_SIZE,
{
    lemma_point_pieces_len(p);
}

#[verifier::rlimit(60)]
pub proof fn lemma_point_round_trip(p: ComputedPoint)
    ensures
        point_of_bytes(point_bytes(p)) == p,
{
    lemma_point_pieces_len(p);
    let b = point_bytes(p);
    assert_seqs_equal!(b.subrange(0, 8) == i64_bytes(p.position.x));
    assert_seqs_equal!(b.subrange(8, 16) == i64_bytes(p.position.y));
    assert_seqs_equal!(b.subrange(16, 24) == i64_bytes(p.position.z));
    assert_seqs_equal!(b.subrange(24, 32) == i64_bytes(p.normal.x));
    assert_seqs_equal!(b.subrange(32, 40) == i64_bytes(p.normal.y));
    assert_seqs_equal!(b.subrange(40, 48) == i64_bytes(p.normal.z));
    assert_seqs_equal!(b.subrange(48, 56) == i64_bytes(p.size));
    assert_seqs_equal!(b.subrange(56, 60) == u32_bytes(p.segment));
    assert_seqs_equal!(b.subrange(60, 64) == u32_bytes(p.slice));
    assert_seqs_equal!(b.subrange(64, 68) == u32_bytes(p.sub_index));
    assert_seqs_equal!(b.subrange(68, 72) == u32_bytes(p.curve));
    lemma_i64_round_trip(p.position.x);
    lemma_i64_round_trip(p.position.y);
    lemma_i64_round_trip(p.position.z);
    lemma_i64_round_trip(p.normal.x);
    lemma_i64_round_trip(p.normal.y);
    lemma_i64_round_trip(p.normal.z);
    lemma_i64_round_trip(p.size);
    lemma_u32_round_trip(p.segment);
    lemma_u32_round_trip(p.slice);
    lemma_u32_round_trip(p.sub_index);
    lemma_u32_round_trip(p.curve);
}

/// Appends the record of `p` to a byte buffer.
#[verifier::rlimit(60)]
pub fn encode_point(buf: &mut Vec<u8>, p: &ComputedPoint)
    ensures
        final(buf)@ == old(buf)@ + point_bytes(*p),
{
    proof {
        lemma_point_pieces_len(*p);
    }
    push_i64(buf, p.position.x);
    push_i64(buf, p.position.y);
    push_i64(buf, p.position.z);
    push_i64(buf, p.normal.x);
    push_i64(buf, p.normal.y);
    push_i64(buf, p.normal.z);
    push_i64(buf, p.size);
    push_u32(buf, p.segment);
    push_u32(buf, p.slice);
    push_u32(buf, p.sub_index);
    push_u32(buf, p.curve);
    proof {
        assert_seqs_equal!(buf@ == old(buf)@ + point_bytes(*p));
    }
}

/// Reads the record at byte offset `off`.
#[verifier::rlimit(60)]
pub fn decode_point(buf: &Vec<u8>, off: usize) -> (p: ComputedPoint)
    requires
        off + POINT_RECORD_SIZE <= buf@.len(),
    ensures
        p == point_of_bytes(buf@.subrange(off as int, off + POINT_RECORD_SIZE)),
{
    let n: usize = buf.len();
    let ghost b = buf@.subrange(off as int, off + POINT_RECORD_SIZE);
    let px: i64 = read_i64(buf, off);
    let py: i64 = read_i64(buf, off + 8);
    let pz: i64 = read_i64(buf, off + 16);
    let nx: i64 = read_i64(buf, off + 24);
    let ny: i64 = read_i64(buf, off + 32);
    let nz: i64 = read_i64(buf, off + 40);
    let size: i64 = read_i64(buf, off + 48);
    let segment: u32 = read_u32(buf, off + 56);
    let slice: u32 = read_u32(buf, off + 60);
    let sub_index: u32 = read_u32(buf, off + 64);
    let curve: u32 = read_u32(buf, off + 68);
    proof {
        assert_seqs_equal!(buf@.subrange(off as int, off + 8) == b.subrange(0, 8));
        assert_seqs_equal!(buf@.subrange(off + 8, off + 16) == b.subrange(8, 16));
        assert_seqs_equal!(buf@.subrange(off + 16, off + 24) == b.subrange(16, 24));
        assert_seqs_equal!(buf@.subrange(off + 24, off + 32) == b.subrange(24, 32));
        assert_seqs_equal!(buf@.subrange(off + 32, off + 40) == b.subrange(32, 40));
        assert_seqs_equal!(buf@.subrange(off + 40, off + 48) == b.subrange(40, 48));
        assert_seqs_equal!(buf@.subrange(off + 48, off + 56) == b.subrange(48, 56));
        assert_seqs_equal!(buf@.subrange(off + 56, off + 60) == b.subrange(56, 60));
        assert_seqs_equal!(buf@.subrange(off + 60, off + 64) == b.subrange(60, 64));
        assert_seqs_equal!(buf@.subrange(off + 64, off + 68) == b.subrange(64, 68));
        assert_seqs_equal!(buf@.subrange(off + 68, off + 72) == b.subrange(68, 72));
    }
    ComputedPoint {
        position: Vec3 { x: px, y: py, z: pz },
        normal: Vec3 { x: nx, y: ny, z: nz },
        size,
        segment,
        slice,
        sub_index,
        curve,
    }
}

/// The concatenated records of a whole point sequence.
pub open spec fn points_bytes(s: Seq<ComputedPoint>) -> Seq<u8>
    decreases s.len(),
{
    if s.len() == 0 {
        Seq::empty()
    } else {
        point_bytes(s.first()) + points_bytes(s.drop_first())
    }
}

#[verifier::rlimit(100)]
pub proof fn lemma_points_bytes_len(s: Seq<ComputedPoint>)
    ensures
        points_bytes(s).len() == POINT_RECORD_SIZE * s.len(),
    decreases s.len(),
{
    if s.len() > 0 {
        lemma_point_bytes_len(s.first());
        lemma_points_bytes_len(s.drop_first());
    }
}

#[verifier::rlimit(100)]
pub proof fn lemma_points_bytes_push(s: Seq<ComputedPoint>, p: ComputedPoint)
    ensures
        points_bytes(s.push(p)) == points_bytes(s) + point_bytes(p),
    decreases s.len(),
{
    lemma_point_bytes_len(p);
    lemma_points_bytes_len(s);
    if s.len() == 0 {
        assert(s.push(p).drop_first() =~= Seq::<ComputedPoint>::empty());
        assert(points_bytes(s.push(p)) == point_bytes(p) + points_bytes(
            Seq::<ComputedPoint>::empty(),
        ));
        assert(points_bytes(s.push(p)) =~= points_bytes(s) + point_bytes(p));
    } else {
        assert(s.push(p).first() == s.first());
        assert(s.push(p).drop_first() =~= s.drop_first().push(p));
        lemma_points_bytes_push(s.drop_first(), p);
        assert(points_bytes(s.push(p)) == point_bytes(s.first()) + (points_bytes(s.drop_first())
            + point_bytes(p)));
        assert(points_bytes(s.push(p)) =~= points_bytes(s) + point_bytes(p));
    }
}

/// The record of element `i` sits at byte offset `72 * i`.
#[verifier::rlimit(100)]
pub proof fn lemma_points_bytes_index(s: Seq<ComputedPoint>, i: int)
    requires
        0 <= i < s.len(),
    ensures
        points_bytes(s).subrange(
            POINT_RECORD_SIZE * i,
            POINT_RECORD_SIZE * i + POINT_RECORD_SIZE,
        ) == point_bytes(s[i]),
    decreases s.len(),
{
    lemma_points_bytes_len(s);
    lemma_points_bytes_len(s.drop_first());
    if i == 0 {
        assert(points_bytes(s).subrange(0, POINT_RECORD_SIZE as int) =~= point_bytes(s.first()));
    } else {
        lemma_points_bytes_index(s.drop_first(), i - 1);
        assert(points_bytes(s).subrange(
            POINT_RECORD_SIZE * i,
            POINT_RECORD_SIZE * i + POINT_RECORD_SIZE,
        ) =~= points_bytes(s.drop_first()).subrange(
            POINT_RECORD_SIZE * (i - 1),
            POINT_RECORD_SIZE * (i - 1) + POINT_RECORD_SIZE,
        ));
    }
}

/// Decodes a buffer known to hold the records of `pts`.
#[verifier::rlimit(100)]
pub fn decode_points(buf: &Vec<u8>, Ghost(pts): Ghost<Seq<ComputedPoint>>) -> (r: Vec<
    ComputedPoint,
>)
    requires
        buf@ == points_bytes(pts),
    ensures
        r@ == pts,
{
    proof {
        lemma_points_bytes_len(pts);
    }
    let total: usize = buf.len();
    let count: usize = total / POINT_RECORD_SIZE;
    let mut r: Vec<ComputedPoint> = Vec::new();
    let mut i: usize = 0;
    while i < count
        invariant
            count == pts.len(),
            buf@ == points_bytes(pts),
            buf@.len() == POINT_RECORD_SIZE * pts.len(),
            buf@.len() <= usize::MAX,
            i <= count,
            r@ == pts.take(i as int),
        decreases count - i,
    {
        proof {
            lemma_points_bytes_index(pts, i as int);
            lemma_point_round_trip(pts[i as int]);
            assert(POINT_RECORD_SIZE * (i as int) + POINT_RECORD_SIZE <= POINT_RECORD_SIZE * (
            pts.len() as int)) by (nonlinear_arith)
                requires i as int + 1 <= pts.len();
            assert((i as int) * POINT_RECORD_SIZE == POINT_RECORD_SIZE * (i as int))
                by (nonlinear_arith);
        }
        let p = decode_point(buf, i * POINT_RECORD_SIZE);
        r.push(p);
        proof {
            assert(r@ =~= pts.take(i as int + 1));
        }
        i = i + 1;
    }
    proof {
        assert(r@ =~= pts);
    }
    r
}


/// The 56-byte persisted render record of a point: position, normal and
/// size, each coordinate eight little-endian bytes.
pub open spec fn render_bytes(p: ComputedPoint) -> Seq<u8> {
    i64_bytes(p.position.x) + i64_bytes(p.position.y) + i64_bytes(p.position.z) + i64_bytes(
        p.normal.x,
    ) + i64_bytes(p.normal.y) + i64_bytes(p.normal.z) + i64_bytes(p.size)
}

/// The packed render records of a point sequence.
pub open spec fn render_stream(s: Seq<ComputedPoint>) -> Seq<u8>
    decreases s.len(),
{
    if s.len() == 0 {
        Seq::empty()
    } else {
        render_stream(s.drop_last()) + render_bytes(s.last())
    }
}

/// One packed 32-bit property stream of a point sequence; the property is
/// selected by a ghost projection.
pub open spec fn prop_stream(s: Seq<ComputedPoint>, sel: spec_fn(ComputedPoint) -> u32) -> Seq<u8>
    decreases s.len(),
{
    if s.len() == 0 {
        Seq::empty()
    } else {
        prop_stream(s.drop_last(), sel) + u32_bytes(sel(s.last()))
    }
}

pub open spec fn sel_segment(p: ComputedPoint) -> u32 {
    p.segment
}

pub open spec fn sel_sub_index(p: ComputedPoint) -> u32 {
    p.sub_index
}

pub open spec fn sel_slice(p: ComputedPoint) -> u32 {
    p.slice
}

pub open spec fn sel_curve(p: ComputedPoint) -> u32 {
    p.curve
}

/// The distinct segment identifiers of a point sequence, ascending.
pub open spec fn seg_ids(s: Seq<ComputedPoint>) -> Seq<u32>
    decreases s.len(),
{
    if s.len() == 0 {
        Seq::empty()
    } else {
        sorted_insert(seg_ids(s.drop_last()), s.last().segment)
    }
}

/// Inserts a value into an ascending list of distinct values.
pub open spec fn sorted_insert(s: Seq<u32>, v: u32) -> Seq<u32>
    decreases s.len(),
{
    if s.len() == 0 {
        seq![v]
    } else if s.last() < v {
        s.push(v)
    } else if s.last() == v {
        s
    } else {
        sorted_insert(s.drop_last(), v).push(s.last())
    }
}

/// Encodes the render records and the four property streams of a point
/// list, and collects its distinct segment identifiers in ascending order.
#[verifier::rlimit(100)]
pub fn encode_node_buffers(pts: &Vec<ComputedPoint>) -> (r: (
    Vec<u8>,
    Vec<u8>,
    Vec<u8>,
    Vec<u8>,
    Vec<u8>,
    Vec<u32>,
))
    ensures
        r.0@ == render_stream(pts@),
        r.1@ == prop_stream(pts@, |p: ComputedPoint| sel_segment(p)),
        r.2@ == prop_stream(pts@, |p: ComputedPoint| sel_sub_index(p)),
        r.3@ == prop_stream(pts@, |p: ComputedPoint| sel_slice(p)),
        r.4@ == prop_stream(pts@, |p: ComputedPoint| sel_curve(p)),
        r.5@ == seg_ids(pts@),
{
    let n: usize = pts.len();
    let mut render: Vec<u8> = Vec::new();
    let mut seg: Vec<u8> = Vec::new();
    let mut hei: Vec<u8> = Vec::new();
    let mut sli: Vec<u8> = Vec::new();
    let mut cur: Vec<u8> = Vec::new();
    let mut ids: Vec<u32> = Vec::new();
    let mut i: usize = 0;
    while i < n
        invariant
            i <= n,
            n == pts@.len(),
            render@ == render_stream(pts@.take(i as int)),
            seg@ == prop_stream(pts@.take(i as int), |p: ComputedPoint| sel_segment(p)),
            hei@ == prop_stream(pts@.take(i as int), |p: ComputedPoint| sel_sub_index(p)),
            sli@ == prop_stream(pts@.take(i as int), |p: ComputedPoint| sel_slice(p)),
            cur@ == prop_stream(pts@.take(i as int), |p: ComputedPoint| sel_curve(p)),
            ids@ == seg_ids(pts@.take(i as int)),
        decreases n - i,
    {
        let p = pts[i];
        proof {
            assert(pts@.take(i as int + 1).drop_last() =~= pts@.take(i as int));
            assert(pts@.take(i as int + 1).last() == pts@[i as int]);
        }
        push_i64(&mut render, p.position.x);
        push_i64(&mut render, p.position.y);
        push_i64(&mut render, p.position.z);
        push_i64(&mut render, p.normal.x);
        push_i64(&mut render, p.normal.y);
        push_i64(&mut render, p.normal.z);
        push_i64(&mut render, p.size);
        proof {
            assert_seqs_equal!(render@ == render_stream(pts@.take(i as int + 1)));
        }
        push_u32(&mut seg, p.segment);
        push_u32(&mut hei, p.sub_index);
        push_u32(&mut sli, p.slice);
        push_u32(&mut cur, p.curve);
        insert_sorted_exec(&mut ids, p.segment);
        i = i + 1;
    }
    proof {
        assert(pts@.take(n as int) =~= pts@);
    }
    (render, seg, hei, sli, cur, ids)
}

/// Inserts a value into an ascending distinct list, in place.
fn insert_sorted_exec(v: &mut Vec<u32>, x: u32)
    ensures
        final(v)@ == sorted_insert(old(v)@, x),
    decreases old(v)@.len(),
{
    let n: usize = v.len();
    if n == 0 {
        v.push(x);
        proof {
            assert(v@ =~= sorted_insert(old(v)@, x));
        }
    } else {
        let last: u32 = v[n - 1];
        if last < x {
            v.push(x);
        } else if last == x {
        } else {
            let popped = v.pop();
            insert_sorted_exec(v, x);
            v.push(last);
            proof {
                assert(old(v)@.drop_last() =~= old(v)@.take(n as int - 1));
            }
        }
    }
}

} // verus!
